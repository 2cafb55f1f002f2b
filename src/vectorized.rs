//! Lifts a scheme on single messages to a scheme on sequences of them.
use vstd::prelude::*;

use rand::rngs::StdRng;

use crate::schemes::{
    Decapsulator, Decryptor, Encapsulator, Encryptor, KeyEncapsulation, PublicKeyEncryption,
};

verus! {

/// The ciphers before index `ms.len()` decrypt to `ms`.
pub open spec fn decrypts_prefix<X: Decryptor>(x: X, c: Seq<X::Cipher>, ms: Seq<X::Message>) -> bool {
    forall|j: int| 0 <= j < ms.len() ==> #[trigger] x.decryption(c[j], Ok(ms[j]))
}

/// The scheme `X`, applied element by element.
pub struct Vectorized<X>(pub X);

impl<X: Encryptor> Encryptor for Vectorized<X> {
    type Message = Vec<X::Message>;

    type Cipher = Vec<X::Cipher>;

    open spec fn encrypts(&self, m: Vec<X::Message>, c: Vec<X::Cipher>) -> bool {
        &&& c@.len() == m@.len()
        &&& forall|i: int| 0 <= i < m@.len() ==> self.0.encrypts(#[trigger] m@[i], c@[i])
    }

    /// Each element is accepted.
    open spec fn accepts(&self, m: Vec<X::Message>) -> bool {
        forall|i: int| 0 <= i < m@.len() ==> self.0.accepts(#[trigger] m@[i])
    }

    fn encrypt(&self, rng: &mut StdRng, message: Vec<X::Message>) -> (c: Vec<X::Cipher>) {
        let ghost m0 = message@;
        let mut message = message;
        let mut out: Vec<X::Cipher> = Vec::new();
        while message.len() > 0
            invariant
                out@.len() + message@.len() == m0.len(),
                message@ == m0.skip(out@.len() as int),
                forall|i: int| 0 <= i < m0.len() ==> self.0.accepts(#[trigger] m0[i]),
                forall|i: int| 0 <= i < out@.len() ==> self.0.encrypts(#[trigger] m0[i], out@[i]),
            decreases message@.len(),
        {
            let m = message.remove(0);
            assert(m == m0[out@.len() as int]);
            let c = self.0.encrypt(rng, m);
            out.push(c);
            assert(message@ =~= m0.skip(out@.len() as int));
        }
        out
    }
}

impl<X: Decryptor> Decryptor for Vectorized<X> {
    type Message = Vec<X::Message>;

    type Cipher = Vec<X::Cipher>;

    type Error = X::Error;

    /// Each element decrypted in order; the error is that of the first
    /// element that fails, all before it decrypting to `ms`.
    open spec fn decryption(&self, c: Vec<X::Cipher>, r: Result<Vec<X::Message>, X::Error>) -> bool {
        match r {
            Ok(ms) => ms@.len() == c@.len() && forall|i: int|
                0 <= i < c@.len() ==> self.0.decryption(#[trigger] c@[i], Ok(ms@[i])),
            Err(e) => exists|ms: Seq<X::Message>|
                #![trigger decrypts_prefix(self.0, c@, ms)]
                ms.len() < c@.len() && decrypts_prefix(self.0, c@, ms) && self.0.decryption(
                    c@[ms.len() as int],
                    Err(e),
                ),
        }
    }

    fn decrypt(&self, cipher: Vec<X::Cipher>) -> (r: Result<Vec<X::Message>, X::Error>) {
        let ghost c0 = cipher@;
        let mut rest = cipher;
        let mut out: Vec<X::Message> = Vec::new();
        while rest.len() > 0
            invariant
                out@.len() + rest@.len() == c0.len(),
                rest@ == c0.skip(out@.len() as int),
                c0 == cipher@,
                forall|i: int| 0 <= i < out@.len() ==> self.0.decryption(#[trigger] c0[i], Ok(out@[i])),
            decreases rest@.len(),
        {
            let k = out.len();
            let c = rest.remove(0);
            assert(c == c0[k as int]);
            match self.0.decrypt(c) {
                Ok(m) => {
                    out.push(m);
                    assert(rest@ =~= c0.skip(out@.len() as int));
                },
                Err(e) => {
                    let r: Result<Vec<X::Message>, X::Error> = Err(e);
                    assert(self.0.decryption(cipher@[k as int], Err(r->Err_0)));
                    assert(out@.len() == k);
                    assert(decrypts_prefix(self.0, cipher@, out@));
                    assert(self.decryption(cipher, r));
                    return r;
                },
            }
        }
        Ok(out)
    }
}

impl<X: PublicKeyEncryption> PublicKeyEncryption for Vectorized<X> {
    type PublicKey = Vectorized<X::PublicKey>;

    type Secret = Vectorized<X::Secret>;

    open spec fn key_pair(&self, pk: Vectorized<X::PublicKey>, sk: Vectorized<X::Secret>) -> bool {
        self.0.key_pair(pk.0, sk.0)
    }

    fn generate_keys(&self, rng: &mut StdRng) -> (r: (Vectorized<X::PublicKey>, Vectorized<X::Secret>)) {
        let (enc, dec) = self.0.generate_keys(rng);
        (Vectorized(enc), Vectorized(dec))
    }
}

impl<X: KeyEncapsulation> KeyEncapsulation for Vectorized<X> {
    type Encaps = Vectorized<X::Encaps>;

    type Decaps = Vectorized<X::Decaps>;

    open spec fn caps_pair(&self, e: Vectorized<X::Encaps>, d: Vectorized<X::Decaps>) -> bool {
        self.0.caps_pair(e.0, d.0)
    }

    fn generate_caps(&self, rng: &mut StdRng) -> (r: (Vectorized<X::Encaps>, Vectorized<X::Decaps>)) {
        let (enc, dec) = self.0.generate_caps(rng);
        (Vectorized(enc), Vectorized(dec))
    }
}

impl<X: Encapsulator> Encapsulator for Vectorized<X> {
    type Key = Vectorized<X::Key>;

    type Cipher = X::Cipher;

    open spec fn encapsulates(&self, k: Vectorized<X::Key>, c: X::Cipher) -> bool {
        self.0.encapsulates(k.0, c)
    }

    fn encapsulate(&self, rng: &mut StdRng) -> (r: (Vectorized<X::Key>, X::Cipher)) {
        let (key, c) = self.0.encapsulate(rng);
        (Vectorized(key), c)
    }
}

impl<X: Decapsulator> Decapsulator for Vectorized<X> {
    type Key = Vectorized<X::Key>;

    type Cipher = X::Cipher;

    type Error = X::Error;

    open spec fn decapsulation(&self, c: X::Cipher, r: Result<Vectorized<X::Key>, X::Error>) -> bool {
        match r {
            Ok(k) => self.0.decapsulation(c, Ok(k.0)),
            Err(e) => self.0.decapsulation(c, Err(e)),
        }
    }

    fn decapsulate(&self, cipher: X::Cipher) -> (r: Result<Vectorized<X::Key>, X::Error>) {
        match self.0.decapsulate(cipher) {
            Ok(k) => Ok(Vectorized(k)),
            Err(e) => Err(e),
        }
    }
}

} // verus!
