use elliptic::bytes::{consume_deser, consume_enc, Decoding, Serialize};
use elliptic::el_gamal::{ConstGenerator, ElGamal};
use elliptic::group::FinGroup;
use elliptic::natural::Natural;
use elliptic::p224::N224;
use elliptic::schemes::{Decryptor, Encryptor, PublicKeyEncryption};
use elliptic::stringer::Stringer;
use elliptic::vectorized::Vectorized;
use elliptic::zn::{BigPrime, SmallModulus};
use elliptic::zp::{prime_generator, Zp};

use rand::rngs::StdRng;
use rand::SeedableRng;

type Z7 = SmallModulus<7>;

fn value(z: &Zp<Z7>) -> u64 {
    let bytes = z.to_zn().to_natural().normalized().bytes;
    bytes.iter().rev().fold(0u64, |acc, b| acc * 256 + *b as u64)
}

#[test]
fn zp_refuses_zero() {
    assert!(Zp::<Z7>::new(&Natural::from_u64(0)).is_err());
    assert!(Zp::<Z7>::new(&Natural::from_u64(14)).is_err());
    assert!(Zp::<Z7>::new(&Natural::from_u64(3)).is_ok());
}

#[test]
fn zp_units_of_composite_modulus() {
    type Z12 = SmallModulus<12>;
    assert!(Zp::<Z12>::new(&Natural::from_u64(4)).is_err());
    assert!(Zp::<Z12>::new(&Natural::from_u64(5)).is_ok());
}

fn value224(z: &Zp<N224>) -> u64 {
    let bytes = z.to_zn().to_natural().normalized().bytes;
    bytes.iter().rev().fold(0u64, |acc, b| acc * 256 + *b as u64)
}

#[test]
fn zp_group_is_multiplicative() {
    let a = match Zp::<N224>::new(&Natural::from_u64(3)) {
        Ok(a) => a,
        Err(_) => panic!("3 is a unit"),
    };
    let b = match Zp::<N224>::new(&Natural::from_u64(5)) {
        Ok(b) => b,
        Err(_) => panic!("5 is a unit"),
    };
    assert_eq!(value224(&a.add(&b)), 15);
    assert_eq!(value224(&a.mul_scalar(&Natural::from_u64(4))), 81);
    assert!(a.add(&a.neg()).is_one());
    assert!(a.neg().add(&a).is_one());
    assert!(Zp::<N224>::one().is_one());
}

#[test]
fn zp_small_modulus_values() {
    let a = match Zp::<Z7>::new(&Natural::from_u64(10)) {
        Ok(a) => a,
        Err(_) => panic!("3 is a unit"),
    };
    assert_eq!(value(&a), 3);
}

#[test]
fn zp_prime_backend_round_trip() {
    let mut rng = StdRng::seed_from_u64(13);
    let scheme = Stringer(Vectorized(ElGamal { get_group_generator: ConstGenerator { value: prime_generator() } }));
    let (enc, dec) = scheme.generate_keys(&mut rng);
    let text = "the quick brown fox jumps over the lazy dog".to_string();
    let cipher = enc.encrypt(&mut rng, text.clone());
    assert!(!cipher.is_empty());
    match dec.decrypt(cipher) {
        Ok(plain) => assert_eq!(plain, text),
        Err(_) => panic!("decryption failed"),
    }
}

#[test]
fn zp_encoding_adds_one() {
    let z: Zp<N224> = match consume_enc(vec![4u8]) {
        Ok(z) => z,
        Err(_) => panic!("one byte encodes"),
    };
    let bytes = z.to_zn().to_natural().normalized().bytes;
    assert_eq!(bytes, vec![5]);
    match z.decode() {
        Ok(b) => assert_eq!(b, vec![4]),
        Err(_) => panic!("decodes"),
    }
}

#[test]
fn zp_serialize_round_trip() {
    let g = prime_generator();
    let bytes = g.serialize();
    assert_eq!(bytes.len(), 28);
    let back: Zp<N224> = match consume_deser(bytes) {
        Ok(z) => z,
        Err(_) => panic!("reads back"),
    };
    assert!(back.add(&g.neg()).is_one());
}

#[test]
fn zp_decode_too_big() {
    let top = N224::value().sub(&Natural::from_u64(1));
    let z = match Zp::<N224>::new(&top) {
        Ok(z) => z,
        Err(_) => panic!("p - 1 is a unit"),
    };
    assert!(z.decode().is_err());
}
