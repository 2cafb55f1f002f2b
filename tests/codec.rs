use elliptic::bytes::{consume_deser, consume_enc, ConsumeDeserError, ConsumeEncError, Serialize};
use elliptic::natural::Natural;
use elliptic::p224::{generator, Point, Z224};
use elliptic::zn::{SmallModulus, Zn};


type Z1000 = SmallModulus<1000>;
#[test]
fn zn_serializes_fixed_width_little_endian() {
    let x = Zn::<Z1000>::from_u64(513);
    assert_eq!(x.serialize(), vec![1, 2]);
    let zero = Zn::<Z1000>::from_u64(0);
    assert_eq!(zero.serialize(), vec![0, 0]);
}

#[test]
fn zn_round_trip() {
    for v in [0u64, 1, 255, 256, 999] {
        let x = Zn::<Z1000>::from_u64(v);
        let back: Zn<Z1000> = match consume_deser(x.serialize()) {
            Ok(y) => y,
            Err(_) => panic!("no value read back"),
        };
        assert!(back == x);
    }
}

#[test]
fn vector_round_trip() {
    let xs: Vec<Zn<Z1000>> = vec![Zn::from_u64(7), Zn::from_u64(300), Zn::from_u64(999)];
    let bytes = xs.serialize();
    assert_eq!(bytes, vec![7, 0, 44, 1, 231, 3]);
    let back: Vec<Zn<Z1000>> = match consume_deser(bytes) {
        Ok(y) => y,
        Err(_) => panic!("no vector read back"),
    };
    assert_eq!(back.len(), 3);
    for (a, b) in back.iter().zip(xs.iter()) {
        assert!(a == b);
    }
}

#[test]
fn empty_vector_round_trip() {
    let xs: Vec<Zn<Z1000>> = Vec::new();
    let bytes = xs.serialize();
    assert!(bytes.is_empty());
    let back: Vec<Zn<Z1000>> = match consume_deser(bytes) {
        Ok(y) => y,
        Err(_) => panic!("no vector read back"),
    };
    assert!(back.is_empty());
}

#[test]
fn pair_round_trip_and_short_second() {
    let pair = (Zn::<Z1000>::from_u64(5), Zn::<Z1000>::from_u64(6));
    let bytes = pair.serialize();
    assert_eq!(bytes, vec![5, 0, 6, 0]);
    let back: (Zn<Z1000>, Zn<Z1000>) = match consume_deser(bytes) {
        Ok(y) => y,
        Err(_) => panic!("no pair read back"),
    };
    assert!(back.0 == pair.0 && back.1 == pair.1);
    let short: Result<(Zn<Z1000>, Zn<Z1000>), _> = consume_deser(vec![5, 0]);
    assert!(matches!(
        short,
        Err(ConsumeDeserError::Deserialization(elliptic::bytes::Either::NotEnoughBytes))
    ));
}

#[test]
fn consume_deser_errors() {
    let empty: Result<Zn<Z1000>, _> = consume_deser(Vec::new());
    assert!(matches!(empty, Err(ConsumeDeserError::EmptyStream)));
    let huge: Result<Zn<Z1000>, _> = consume_deser(vec![1, 2, 3]);
    assert!(matches!(huge, Err(ConsumeDeserError::HugeStream)));
}

#[test]
fn consume_enc_errors() {
    let empty: Result<Point, _> = consume_enc(Vec::new());
    assert!(matches!(empty, Err(ConsumeEncError::EmptyStream)));
    let huge: Result<Point, _> = consume_enc(vec![1u8; 30]);
    assert!(matches!(huge, Err(ConsumeEncError::HugeStream)));
    let one: Result<Point, _> = consume_enc(vec![7u8]);
    assert!(one.is_ok());
}

#[test]
fn point_round_trip() {
    let g = generator();
    let bytes = g.serialize();
    assert_eq!(bytes.len(), 57);
    assert_eq!(bytes[0], 1);
    let back: Point = match consume_deser(bytes) {
        Ok(p) => p,
        Err(_) => panic!("no point read back"),
    };
    assert!(back == g);
    let doubled = g.add(&g);
    let back: Point = match consume_deser(doubled.serialize()) {
        Ok(p) => p,
        Err(_) => panic!("no point read back"),
    };
    assert!(back == doubled);
}

#[test]
fn infinity_round_trip() {
    let zero = Point::zero();
    assert_eq!(zero.serialize(), vec![0]);
    let back: Point = match consume_deser(vec![0]) {
        Ok(p) => p,
        Err(_) => panic!("no point read back"),
    };
    assert!(back.is_zero());
}

#[test]
fn point_off_curve_is_refused() {
    let mut bytes = vec![1u8];
    bytes.extend(Z224::from_u64(1).serialize());
    bytes.extend(Z224::from_u64(1).serialize());
    let r: Result<Point, _> = consume_deser(bytes);
    assert!(matches!(
        r,
        Err(ConsumeDeserError::Deserialization(elliptic::curve::PointDeserError::NotOnCurve(_)))
    ));
}

#[test]
fn point_missing_coordinate() {
    let r: Result<Point, _> = consume_deser(vec![1u8]);
    assert!(matches!(
        r,
        Err(ConsumeDeserError::Deserialization(elliptic::curve::PointDeserError::NotEnoughBytes))
    ));
}

#[test]
fn point_short_field_is_not_enough_bytes() {
    let r: Result<Point, _> = consume_deser(vec![1u8, 5, 6, 7]);
    assert!(matches!(
        r,
        Err(ConsumeDeserError::Deserialization(elliptic::curve::PointDeserError::NotEnoughBytes))
    ));
}
