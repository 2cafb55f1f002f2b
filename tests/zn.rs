use elliptic::natural::Natural;
use elliptic::zn::{BigPrime, SmallModulus, Zn};

type Z74 = SmallModulus<74>;
type Z180 = SmallModulus<180>;
type Z47 = SmallModulus<47>;
type Z14 = SmallModulus<14>;
type Z9 = SmallModulus<9>;
type Z18 = SmallModulus<18>;
type Z17 = SmallModulus<17>;
type Z19 = SmallModulus<19>;

fn value<N: BigPrime>(z: &Zn<N>) -> u64 {
    let bytes = z.to_natural().normalized().bytes;
    bytes.iter().rev().fold(0u64, |acc, b| acc * 256 + *b as u64)
}

#[test]
fn zn_add() {
    assert!(Zn::<Z74>::from_u64(69).add(&Zn::from_u64(5)).is_zero());
    assert!(Zn::<Z180>::from_u64(174).add(&Zn::from_u64(389)) == Zn::from_u64(23));
    assert!(Zn::<Z47>::from_u64(111).neg() == Zn::from_u64(30));
}

#[test]
fn zn_mul() {
    assert!(Zn::<Z14>::from_u64(19).mul(&Zn::from_u64(5)) == Zn::from_u64(11));
    assert!(Zn::<Z9>::from_u64(81).mul(&Zn::from_u64(12326234)).is_zero());
}

#[test]
fn inv() {
    assert!(Zn::<Z18>::from_u64(5).inv() == Zn::from_u64(11));
    assert!(Zn::<Z17>::from_u64(8).inv() == Zn::from_u64(15));
}

#[test]
fn sqrt() {
    let a = Zn::<Z19>::from_u64(11);
    let sqrt = a.sqrt().unwrap();
    assert!(sqrt.pow(&Natural::from_u64(2)) == a);
}

#[test]
fn zn_values_are_canonical() {
    for v in [0u64, 1, 46, 47, 48, 1000, u64::MAX] {
        let z = Zn::<Z47>::from_u64(v);
        assert!(value(&z) < 47);
        assert_eq!(value(&z), v % 47);
    }
}

#[test]
fn zn_sub_wraps() {
    let r = Zn::<Z17>::from_u64(3).sub(&Zn::from_u64(5));
    assert_eq!(value(&r), 15);
}

#[test]
fn zn_div_multiplies_back() {
    let a = Zn::<Z17>::from_u64(9);
    let b = Zn::<Z17>::from_u64(4);
    let q = a.div(&b);
    assert!(q.mul(&b) == a);
    assert_eq!(value(&q), 15);
}

#[test]
fn zn_inverse_times_value_is_one() {
    for v in 1..17u64 {
        let x = Zn::<Z17>::from_u64(v);
        assert!(x.mul(&x.inv()).is_one());
    }
}

#[test]
fn zn_has_inverse_only_for_units() {
    assert!(Zn::<Z18>::from_u64(5).has_inverse());
    assert!(!Zn::<Z18>::from_u64(6).has_inverse());
    assert!(!Zn::<Z18>::from_u64(0).has_inverse());
}

#[test]
fn zn_sqrt_of_non_residue_is_none() {
    // 2 is not a square modulo 19
    assert!(Zn::<Z19>::from_u64(2).sqrt().is_none());
}

#[test]
fn zn_pow_exact() {
    let r = Zn::<Z19>::from_u64(3).pow(&Natural::from_u64(5));
    assert_eq!(value(&r), 243 % 19);
}
