use elliptic::poly::Poly;
use elliptic::zn::{SmallModulus, Zn};

type Big = SmallModulus<1000003>;
type Z3 = SmallModulus<3>;

fn poly(coeffs: &[i64]) -> Poly<Big> {
    Poly::from_vec(
        coeffs
            .iter()
            .map(|&c| {
                if c >= 0 {
                    Zn::from_u64(c as u64)
                } else {
                    Zn::from_u64((-c) as u64).neg()
                }
            })
            .collect(),
    )
}

fn poly3(coeffs: &[u64]) -> Poly<Z3> {
    Poly::from_vec(coeffs.iter().map(|&c| Zn::from_u64(c)).collect())
}

#[test]
fn poly_add() {
    let a = poly(&[1, -1, 15, 8]);
    let b = poly(&[1, 1, -14, -8]);
    let c = poly(&[2, 0, 1]);
    assert!(a.add(&b) == c);
    assert!(b.add(&a) == c);
    assert!(b == c.sub(&a));
    assert!(a == c.sub(&b));
    assert!(a.add(&b).sub(&c).is_zero());
    assert!(a.add(&b.sub(&c)).is_zero());

    let a = poly(&[15, 124, -443]);
    let b = poly(&[-15, -124, 443]);
    assert!(a.add(&b).is_zero());
}

#[test]
fn poly_mul() {
    let a = poly(&[1, 3, 15, 1]);
    let b = poly(&[8, 6]);
    let c = poly(&[8, 30, 138, 98, 6]);
    assert!(a.mul(&b) == c);
    assert!(b.mul(&a) == c);

    let a = poly(&[-1, 1]);
    let b = poly(&[1, 1]);
    let c = poly(&[-1, 0, 1]);
    assert!(a.mul(&b) == c);
}

#[test]
fn div_rem() {
    let a = poly3(&[0, 0, 1]);
    let b = poly3(&[1, 1]);
    let rem = poly3(&[1]);
    let div = poly3(&[2, 1]);
    let (r, q) = a.rem_div(&b);
    assert!(r == rem && q == div);
    assert!(a.div(&b) == div);
    assert!(a.rem(&b) == rem);
}

#[test]
fn poly_trims_trailing_zeros() {
    let p = poly(&[1, 2, 0, 0]);
    assert_eq!(p.degree(), 1);
    let cs = p.coefficients();
    assert_eq!(cs.len(), 2);
    assert!(!cs[cs.len() - 1].is_zero());
    assert!(poly(&[0, 0]).is_zero());
    assert_eq!(poly(&[]).degree(), 0);
}

#[test]
fn poly_mul_by_zero_is_zero() {
    let a = poly(&[1, 2, 3]);
    assert!(a.mul(&poly(&[])).is_zero());
}

#[test]
fn poly_division_by_constant() {
    let a = poly3(&[1, 2, 1]);
    let (r, q) = a.rem_div(&poly3(&[2]));
    assert!(r.is_zero());
    assert!(q == poly3(&[2, 1, 2]));
}

#[test]
fn eldest_monome_of_poly() {
    let a = poly(&[4, 0, 7]);
    let m = a.eldest_monome().unwrap();
    assert_eq!(m.degree, 2);
    assert!(m.coeff == Zn::from_u64(7));
    assert!(poly(&[]).eldest_monome().is_none());
}
