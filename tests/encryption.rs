use elliptic::bytes::{consume_enc, Serialize};
use elliptic::el_gamal::{ConstGenerator, ElGamal};
use elliptic::p224::generator;
use elliptic::schemes::{Decryptor, Encryptor, PublicKeyEncryption};
use elliptic::stringer::{StringDecryptionError, Stringer};
use elliptic::vectorized::Vectorized;

use rand::rngs::StdRng;
use rand::SeedableRng;

fn scheme() -> Stringer<Vectorized<ElGamal<ConstGenerator<elliptic::p224::Point>>>> {
    Stringer(Vectorized(ElGamal { get_group_generator: ConstGenerator { value: generator() } }))
}

#[test]
fn p224_end_to_end() {
    let mut rng = StdRng::seed_from_u64(7);
    let (enc, dec) = scheme().generate_keys(&mut rng);
    let text = "the quick brown fox".to_string();
    let cipher = enc.encrypt(&mut rng, text.clone());
    assert!(!cipher.is_empty());
    assert!(cipher.chars().all(|c| c.is_ascii_digit() || ('a'..='f').contains(&c)));
    match dec.decrypt(cipher) {
        Ok(plain) => assert_eq!(plain, text),
        Err(_) => panic!("decryption failed"),
    }
}

#[test]
fn unicode_message_round_trip() {
    let mut rng = StdRng::seed_from_u64(11);
    let (enc, dec) = scheme().generate_keys(&mut rng);
    let text = "Grüße, ünïcode ✓ text".to_string();
    let cipher = enc.encrypt(&mut rng, text.clone());
    match dec.decrypt(cipher) {
        Ok(plain) => assert_eq!(plain, text),
        Err(_) => panic!("decryption failed"),
    }
}

#[test]
fn not_hex_is_reported() {
    let mut rng = StdRng::seed_from_u64(3);
    let (_, dec) = scheme().generate_keys(&mut rng);
    assert!(matches!(dec.decrypt("xyz".to_string()), Err(StringDecryptionError::NotAHex)));
}

#[test]
fn bad_wire_is_reported() {
    let mut rng = StdRng::seed_from_u64(3);
    let (_, dec) = scheme().generate_keys(&mut rng);
    assert!(matches!(
        dec.decrypt("01".to_string()),
        Err(StringDecryptionError::Deserialization(_))
    ));
}

#[test]
fn empty_message_round_trip() {
    let mut rng = StdRng::seed_from_u64(5);
    let (enc, dec) = scheme().generate_keys(&mut rng);
    let cipher = enc.encrypt(&mut rng, String::new());
    match dec.decrypt(cipher) {
        Ok(plain) => assert_eq!(plain, ""),
        Err(_) => panic!("decryption failed"),
    }
}


use elliptic::el_gamal::{ElGamalKem, MaskDerivation};
use elliptic::hybrid::Hybrid;
use elliptic::zp::prime_generator;

#[test]
fn hybrid_prime_round_trip() {
    let mut rng = StdRng::seed_from_u64(21);
    let scheme = Stringer(Hybrid(Vectorized(ElGamalKem {
        group_generator_gen: ConstGenerator { value: prime_generator() },
        key_from_group: MaskDerivation,
    })));
    let (enc, dec) = scheme.generate_keys(&mut rng);
    let text = "the quick brown fox jumps over the lazy dog, twice over".to_string();
    let cipher = enc.encrypt(&mut rng, text.clone());
    assert!(cipher.chars().all(|c| c.is_ascii_digit() || ('a'..='f').contains(&c)));
    match dec.decrypt(cipher) {
        Ok(plain) => assert_eq!(plain, text),
        Err(_) => panic!("decryption failed"),
    }
}

#[test]
fn hybrid_curve_round_trip() {
    let mut rng = StdRng::seed_from_u64(22);
    let scheme = Stringer(Hybrid(Vectorized(ElGamalKem {
        group_generator_gen: ConstGenerator { value: generator() },
        key_from_group: MaskDerivation,
    })));
    let (enc, dec) = scheme.generate_keys(&mut rng);
    let text = "the quick brown fox".to_string();
    let cipher = enc.encrypt(&mut rng, text.clone());
    match dec.decrypt(cipher) {
        Ok(plain) => assert_eq!(plain, text),
        Err(_) => panic!("decryption failed"),
    }
}

#[test]
fn not_utf8_is_reported() {
    let mut rng = StdRng::seed_from_u64(9);
    let scheme = Stringer(Vectorized(ElGamal { get_group_generator: ConstGenerator { value: generator() } }));
    let (enc, dec) = scheme.generate_keys(&mut rng);
    let message: Vec<elliptic::p224::Point> = match consume_enc(vec![0xffu8, 0xfe]) {
        Ok(m) => m,
        Err(_) => panic!("two bytes encode"),
    };
    let cipher = enc.0.encrypt(&mut rng, message);
    let text = hex::encode(cipher.serialize());
    assert!(matches!(dec.decrypt(text), Err(StringDecryptionError::NotUtf8)));
}
