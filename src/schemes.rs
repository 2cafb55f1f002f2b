//! Capabilities of encryption schemes: key generation, encryption and
//! decryption, key encapsulation. All randomness comes from the generator
//! passed to each call.
use vstd::prelude::*;

use rand::rngs::StdRng;

verus! {

/// Encryption under a public (or private) key.
pub trait Encryptor {
    type Message;

    type Cipher;

    /// `c` is one of the ciphertexts `encrypt` may give for `m`.
    spec fn encrypts(&self, m: Self::Message, c: Self::Cipher) -> bool;

    /// `m` is a message the scheme can encrypt.
    spec fn accepts(&self, m: Self::Message) -> bool;

    fn encrypt(&self, rng: &mut StdRng, message: Self::Message) -> (c: Self::Cipher)
        requires
            self.accepts(message),
        ensures
            self.encrypts(message, c),
    ;
}

/// Decryption under a secret key.
pub trait Decryptor {
    type Message;

    type Cipher;

    type Error;

    /// `r` is what `decrypt` gives for `c`.
    spec fn decryption(&self, c: Self::Cipher, r: Result<Self::Message, Self::Error>) -> bool;

    fn decrypt(&self, cipher: Self::Cipher) -> (r: Result<Self::Message, Self::Error>)
        ensures
            self.decryption(cipher, r),
    ;
}

/// A public-key scheme: it makes key pairs.
pub trait PublicKeyEncryption {
    type PublicKey: Encryptor;

    type Secret: Decryptor;

    /// `(pk, sk)` is a key pair of the scheme.
    spec fn key_pair(&self, pk: Self::PublicKey, sk: Self::Secret) -> bool;

    fn generate_keys(&self, rng: &mut StdRng) -> (r: (Self::PublicKey, Self::Secret))
        ensures
            self.key_pair(r.0, r.1),
    ;
}

/// Makes a symmetric key by encapsulation.
pub trait Encapsulator {
    type Key;

    type Cipher;

    /// `(k, c)` is one of the outcomes of `encapsulate`.
    spec fn encapsulates(&self, k: Self::Key, c: Self::Cipher) -> bool;

    fn encapsulate(&self, rng: &mut StdRng) -> (r: (Self::Key, Self::Cipher))
        ensures
            self.encapsulates(r.0, r.1),
    ;
}

/// Recovers the symmetric key from its encapsulation.
pub trait Decapsulator {
    type Key;

    type Cipher;

    type Error;

    spec fn decapsulation(&self, c: Self::Cipher, r: Result<Self::Key, Self::Error>) -> bool;

    fn decapsulate(&self, cipher: Self::Cipher) -> (r: Result<Self::Key, Self::Error>)
        ensures
            self.decapsulation(cipher, r),
    ;
}

/// A key-encapsulation mechanism: it makes pairs of encapsulator and decapsulator.
pub trait KeyEncapsulation {
    type Encaps: Encapsulator;

    type Decaps: Decapsulator;

    spec fn caps_pair(&self, e: Self::Encaps, d: Self::Decaps) -> bool;

    fn generate_caps(&self, rng: &mut StdRng) -> (r: (Self::Encaps, Self::Decaps))
        ensures
            self.caps_pair(r.0, r.1),
    ;
}

} // verus!
