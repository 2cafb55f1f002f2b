//! Hybrid encryption: a key-encapsulation mechanism supplies a symmetric
//! key, which encrypts the message body.
use vstd::prelude::*;

use rand::rngs::StdRng;

use crate::schemes::{
    Decapsulator, Decryptor, Encapsulator, Encryptor, KeyEncapsulation, PublicKeyEncryption,
};

verus! {

/// The key-encapsulation mechanism `X` with its keys used as ciphers.
pub struct Hybrid<X>(pub X);

impl<X: KeyEncapsulation> PublicKeyEncryption for Hybrid<X> where
    <X::Encaps as Encapsulator>::Key: Encryptor,
    <X::Decaps as Decapsulator>::Key: Decryptor,
 {
    type PublicKey = Hybrid<X::Encaps>;

    type Secret = Hybrid<X::Decaps>;

    open spec fn key_pair(&self, pk: Hybrid<X::Encaps>, sk: Hybrid<X::Decaps>) -> bool {
        self.0.caps_pair(pk.0, sk.0)
    }

    fn generate_keys(&self, rng: &mut StdRng) -> (r: (Hybrid<X::Encaps>, Hybrid<X::Decaps>)) {
        let (enc, dec) = self.0.generate_caps(rng);
        (Hybrid(enc), Hybrid(dec))
    }
}

impl<X: Encapsulator> Encryptor for Hybrid<X> where X::Key: Encryptor {
    type Message = <X::Key as Encryptor>::Message;

    type Cipher = (X::Cipher, <X::Key as Encryptor>::Cipher);

    /// `(c₁, c₂)` where `(k, c₁)` is an encapsulation and `c₂` encrypts the
    /// message under `k`.
    open spec fn encrypts(&self, m: Self::Message, c: Self::Cipher) -> bool {
        exists|k: X::Key| #[trigger] self.0.encapsulates(k, c.0) && k.encrypts(m, c.1)
    }

    /// Every key the encapsulation can make accepts the message.
    open spec fn accepts(&self, m: Self::Message) -> bool {
        forall|k: X::Key| #[trigger] k.accepts(m)
    }

    fn encrypt(&self, rng: &mut StdRng, message: Self::Message) -> (c: Self::Cipher) {
        let ghost m = message;
        let (enc, c1) = self.0.encapsulate(rng);
        let c2 = enc.encrypt(rng, message);
        let c = (c1, c2);
        assert(self.0.encapsulates(enc, c.0) && enc.encrypts(m, c.1));
        c
    }
}

/// The stage at which hybrid decryption failed.
pub enum HybridError<C, R> {
    Decapsulation(C),
    Decryption(R),
}

impl<X: Decapsulator> Decryptor for Hybrid<X> where X::Key: Decryptor {
    type Message = <X::Key as Decryptor>::Message;

    type Cipher = (X::Cipher, <X::Key as Decryptor>::Cipher);

    type Error = HybridError<X::Error, <X::Key as Decryptor>::Error>;

    /// Decapsulate `c₁`, then decrypt `c₂` under the key; each failure is
    /// tagged with its stage.
    open spec fn decryption(&self, c: Self::Cipher, r: Result<Self::Message, Self::Error>) -> bool {
        match r {
            Err(HybridError::Decapsulation(e)) => self.0.decapsulation(c.0, Err(e)),
            Err(HybridError::Decryption(e)) => exists|k: X::Key|
                #[trigger] self.0.decapsulation(c.0, Ok(k)) && k.decryption(c.1, Err(e)),
            Ok(m) => exists|k: X::Key|
                #[trigger] self.0.decapsulation(c.0, Ok(k)) && k.decryption(c.1, Ok(m)),
        }
    }

    fn decrypt(&self, cipher: Self::Cipher) -> (r: Result<Self::Message, Self::Error>) {
        let (c1, c2) = cipher;
        match self.0.decapsulate(c1) {
            Err(e) => Err(HybridError::Decapsulation(e)),
            Ok(k) => {
                let ghost key = k;
                assert(self.0.decapsulation(cipher.0, Ok(key)));
                match k.decrypt(c2) {
                    Ok(m) => Ok(m),
                    Err(e) => Err(HybridError::Decryption(e)),
                }
            },
        }
    }
}

} // verus!
