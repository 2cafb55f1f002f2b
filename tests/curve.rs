use elliptic::curve::{check_solution, curve_affine, Curve};
use elliptic::natural::{Integer, Natural};
use elliptic::p224::{bucket_decode, decode_byte, decode_x, encode_byte, generator, DecodingError, Point, Z224, P224};
use elliptic::bytes::Stream;

fn order_minus(k: u64) -> Integer {
    Integer::from_natural(P224::group_order().sub(&Natural::from_u64(k)))
}

#[test]
fn generator_is_on_curve() {
    let g = generator();
    assert!(check_solution::<_, P224>(&g.x(), &g.y()));
}

#[test]
fn affine_checks_the_equation() {
    assert!(curve_affine::<_, P224>(Z224::from_u64(1), Z224::from_u64(1)).is_err());
    let g = generator();
    assert!(curve_affine::<_, P224>(g.x(), g.y()).is_ok());
}

#[test]
fn identity_and_inverse() {
    let g = generator();
    let zero = Point::zero();
    assert!(g.add(&zero) == g);
    assert!(zero.add(&g) == g);
    assert!(g.add(&g.neg()).is_zero());
    assert!(g.sub(&g).is_zero());
}

#[test]
fn projective_equality_ignores_scale() {
    let g = generator();
    let d = g.add(&g);
    assert!(!d.z().is_one());
    let affine = match curve_affine::<_, P224>(d.x().div(&d.z()), d.y().div(&d.z())) {
        Ok(p) => p,
        Err(_) => panic!("the double of G is on the curve"),
    };
    assert!(affine.z().is_one());
    assert!(affine == d);
    assert!(!(affine == d.neg()));
}

#[test]
fn scalar_multiplication_matches_additions() {
    let g = generator();
    let three = g.mul(&Integer::from_u64(3));
    assert!(three == g.add(&g).add(&g));
    let neg = g.mul(&Integer { negative: true, magnitude: Natural::from_u64(2) });
    assert!(neg == g.add(&g).neg());
    assert!(g.mul(&Integer::from_u64(0)).is_zero());
}

#[test]
fn multiples_sum_to_the_order() {
    let g = generator();
    for k in [1u64, 2, 5, 1000] {
        let a = g.mul(&Integer::from_u64(k));
        let b = g.mul(&order_minus(k));
        assert!(a.add(&b).is_zero());
    }
}

#[test]
fn encoder_round_trip() {
    let msg = b"fox".to_vec();
    let mut stream = Stream::new(msg.clone());
    let mut decoded = Vec::new();
    while let Some(p) = encode_byte(&mut stream) {
        assert!(p.is_zero() || check_solution::<_, P224>(&p.x().div(&p.z()), &p.y().div(&p.z())));
        match decode_byte(&p) {
            Ok(bytes) => decoded.extend(bytes),
            Err(_) => panic!("no byte decoded"),
        }
    }
    assert!(stream.is_empty());
    assert_eq!(decoded, msg);
}

#[test]
fn encode_byte_exact() {
    let mut stream = Stream::new(vec![2, 9]);
    let p = encode_byte(&mut stream).unwrap();
    let g = generator();
    assert!(p == g.add(&g));
    let zero = encode_byte(&mut Stream::new(vec![0])).unwrap();
    assert!(zero.is_zero());
    assert!(encode_byte(&mut Stream::new(Vec::new())).is_none());
}

#[test]
fn decode_byte_not_found() {
    let g = generator();
    let far = g.mul(&Integer::from_u64(1000));
    assert!(decode_byte(&far).is_err());
}

#[test]
fn bucket_decode_exact() {
    let x = Z224::from_u64(3 * 65536 + 17);
    match decode_x(&x) {
        Ok(bytes) => assert_eq!(bytes, vec![3]),
        Err(_) => panic!("no bytes decoded"),
    }
    assert!(matches!(bucket_decode(&Point::zero()), Err(DecodingError::IsZero)));
    let big = Z224::from_u64(0).sub(&Z224::from_u64(1));
    assert!(matches!(decode_x(&big), Err(DecodingError::TooBig)));
}
