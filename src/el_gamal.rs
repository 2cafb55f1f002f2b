//! ElGamal encryption and ElGamal key encapsulation over a finite group.
use vstd::prelude::*;

use rand::rngs::StdRng;
use std::marker::PhantomData;

use crate::group::{subtract, FinGroup};
use crate::natural::Natural;
use crate::schemes::{
    Decapsulator, Decryptor, Encapsulator, Encryptor, KeyEncapsulation, PublicKeyEncryption,
};

verus! {

/// Produces the group generator of a new key pair.
pub trait GroupGenerator {
    type Group: FinGroup;

    /// `g` is a generator this producer may give.
    spec fn generates(&self, g: <Self::Group as FinGroup>::View) -> bool;

    fn generate(&self, rng: &mut StdRng) -> (r: Self::Group)
        ensures
            self.generates(r.group_view()),
    ;
}

/// Always the same generator.
pub struct ConstGenerator<G> {
    pub value: G,
}

impl<G: FinGroup> GroupGenerator for ConstGenerator<G> {
    type Group = G;

    /// Always `value`.
    open spec fn generates(&self, g: G::View) -> bool {
        g == self.value.group_view()
    }

    fn generate(&self, rng: &mut StdRng) -> G {
        self.value.copy()
    }
}

/// A scalar in `[1, order)`.
pub fn random_scalar<G: FinGroup>(rng: &mut StdRng) -> (r: Natural)
    ensures
        1 <= r.val() < G::spec_order(),
{
    let order = G::order();
    Natural::random_range(rng, &Natural::from_u64(1), &order)
}

/// ElGamal over the group of the generators that `get_group_generator` makes.
pub struct ElGamal<F> {
    pub get_group_generator: F,
}

pub struct ElGamalPublicKey<T> {
    pub group_generator: T,
    pub key: T,
}

pub struct ElGamalSecret<T> {
    pub secret: Natural,
    pub group: PhantomData<T>,
}

impl<F> ElGamal<F> {
    pub fn from(get_group_generator: F) -> (r: Self)
        ensures
            r.get_group_generator == get_group_generator,
    {
        ElGamal { get_group_generator }
    }
}

impl<T: FinGroup, F: GroupGenerator<Group = T>> PublicKeyEncryption for ElGamal<F> {
    type PublicKey = ElGamalPublicKey<T>;

    type Secret = ElGamalSecret<T>;

    /// The secret `s` is in `[1, order)` and the key is `s·g`.
    open spec fn key_pair(&self, pk: ElGamalPublicKey<T>, sk: ElGamalSecret<T>) -> bool {
        &&& self.get_group_generator.generates(pk.group_generator.group_view())
        &&& 1 <= sk.secret.val() < T::spec_order()
        &&& pk.key.group_view() == T::spec_mul(pk.group_generator.group_view(), sk.secret.val())
    }

    fn generate_keys(&self, rng: &mut StdRng) -> (r: (ElGamalPublicKey<T>, ElGamalSecret<T>)) {
        let group_generator = self.get_group_generator.generate(rng);
        let secret = random_scalar::<T>(rng);
        let key = group_generator.mul_scalar(&secret);
        (ElGamalPublicKey { group_generator, key }, ElGamalSecret { secret, group: PhantomData })
    }
}

impl<T: FinGroup> Encryptor for ElGamalPublicKey<T> {
    type Message = T;

    type Cipher = (T, T);

    /// `(y·g, y·h + m)` for some `y` in `[1, order)`.
    open spec fn encrypts(&self, m: T, c: (T, T)) -> bool {
        exists|y: nat|
            1 <= y < T::spec_order() && c.0.group_view() == #[trigger] T::spec_mul(
                self.group_generator.group_view(),
                y,
            ) && c.1.group_view() == T::spec_add(T::spec_mul(self.key.group_view(), y), m.group_view())
    }

    open spec fn accepts(&self, m: T) -> bool {
        true
    }

    fn encrypt(&self, rng: &mut StdRng, message: T) -> (c: (T, T)) {
        let y = random_scalar::<T>(rng);
        let salt = self.group_generator.mul_scalar(&y);
        let hy = self.key.mul_scalar(&y);
        let masked = hy.add(&message);
        assert(salt.group_view() == T::spec_mul(self.group_generator.group_view(), y.val()));
        (salt, masked)
    }
}

impl<T: FinGroup> Decryptor for ElGamalSecret<T> {
    type Message = T;

    type Cipher = (T, T);

    type Error = std::convert::Infallible;

    /// Always `Ok(β − s·α)` for the cipher `(α, β)`.
    open spec fn decryption(&self, c: (T, T), r: Result<T, std::convert::Infallible>) -> bool {
        r matches Ok(m) && m.group_view() == T::spec_add(
            c.1.group_view(),
            T::spec_neg(T::spec_mul(c.0.group_view(), self.secret.val())),
        )
    }

    fn decrypt(&self, cipher: (T, T)) -> (r: Result<T, std::convert::Infallible>) {
        let (salt, masked) = cipher;
        let shared = salt.mul_scalar(&self.secret);
        Ok(subtract(&masked, &shared))
    }
}

/// Derives a symmetric key from a group element.
pub trait KeyDerivation<G: FinGroup> {
    type Key;

    /// `k` is the key derived from an element with view `g`.
    spec fn derives(&self, g: G::View, k: Self::Key) -> bool;

    fn derive(&self, g: G) -> (r: Self::Key)
        ensures
            self.derives(g.group_view(), r),
    ;
}

/// ElGamal key encapsulation: the key is `kdf(y·h)`, shipped as `y·g`.
pub struct ElGamalKem<G, F> {
    pub group_generator_gen: G,
    pub key_from_group: F,
}

pub struct ElGamalEncaps<G, F> {
    pub group_key: G,
    pub group_generator: G,
    pub key_from_group: F,
}

pub struct ElGamalDecaps<G, F> {
    pub secret: Natural,
    pub key_from_group: F,
    pub group: PhantomData<G>,
}

impl<G: FinGroup, S: GroupGenerator<Group = G>, F: KeyDerivation<G> + Copy> KeyEncapsulation for ElGamalKem<
    S,
    F,
> {
    type Encaps = ElGamalEncaps<G, F>;

    type Decaps = ElGamalDecaps<G, F>;

    /// The secret `s` is in `[1, order)` and the group key is `s·g`.
    open spec fn caps_pair(&self, e: ElGamalEncaps<G, F>, d: ElGamalDecaps<G, F>) -> bool {
        &&& self.group_generator_gen.generates(e.group_generator.group_view())
        &&& e.key_from_group == self.key_from_group
        &&& d.key_from_group == self.key_from_group
        &&& 1 <= d.secret.val() < G::spec_order()
        &&& e.group_key.group_view() == G::spec_mul(e.group_generator.group_view(), d.secret.val())
    }

    fn generate_caps(&self, rng: &mut StdRng) -> (r: (ElGamalEncaps<G, F>, ElGamalDecaps<G, F>)) {
        let group_generator = self.group_generator_gen.generate(rng);
        let secret = random_scalar::<G>(rng);
        let group_key = group_generator.mul_scalar(&secret);
        (
            ElGamalEncaps {
                group_key,
                group_generator,
                key_from_group: self.key_from_group,
            },
            ElGamalDecaps { secret, key_from_group: self.key_from_group, group: PhantomData },
        )
    }
}

impl<G: FinGroup, F: KeyDerivation<G>> Encapsulator for ElGamalEncaps<G, F> {
    type Key = F::Key;

    type Cipher = G;

    /// `(kdf(y·h), y·g)` for some `y` in `[1, order)`.
    open spec fn encapsulates(&self, k: F::Key, c: G) -> bool {
        exists|y: nat|
            1 <= y < G::spec_order() && c.group_view() == #[trigger] G::spec_mul(
                self.group_generator.group_view(),
                y,
            ) && self.key_from_group.derives(G::spec_mul(self.group_key.group_view(), y), k)
    }

    fn encapsulate(&self, rng: &mut StdRng) -> (r: (F::Key, G)) {
        let y = random_scalar::<G>(rng);
        let shared = self.group_key.mul_scalar(&y);
        let c = self.group_generator.mul_scalar(&y);
        let k = self.key_from_group.derive(shared);
        (k, c)
    }
}

impl<G: FinGroup, F: KeyDerivation<G>> Decapsulator for ElGamalDecaps<G, F> {
    type Key = F::Key;

    type Cipher = G;

    type Error = std::convert::Infallible;

    /// Always `Ok(kdf(s·c))`.
    open spec fn decapsulation(&self, c: G, r: Result<F::Key, std::convert::Infallible>) -> bool {
        r matches Ok(k) && self.key_from_group.derives(G::spec_mul(c.group_view(), self.secret.val()), k)
    }

    fn decapsulate(&self, cipher: G) -> (r: Result<F::Key, std::convert::Infallible>) {
        let shared = cipher.mul_scalar(&self.secret);
        Ok(self.key_from_group.derive(shared))
    }
}

/// A one-element data key: a message `m` is sent as `m + k`.
pub struct MaskKey<G> {
    pub key: G,
}

impl<G: FinGroup> Encryptor for MaskKey<G> {
    type Message = G;

    type Cipher = G;

    open spec fn encrypts(&self, m: G, c: G) -> bool {
        c.group_view() == G::spec_add(m.group_view(), self.key.group_view())
    }

    open spec fn accepts(&self, m: G) -> bool {
        true
    }

    fn encrypt(&self, rng: &mut StdRng, message: G) -> (c: G) {
        message.add(&self.key)
    }
}

impl<G: FinGroup> Decryptor for MaskKey<G> {
    type Message = G;

    type Cipher = G;

    type Error = std::convert::Infallible;

    /// Always `Ok(c − k)`.
    open spec fn decryption(&self, c: G, r: Result<G, std::convert::Infallible>) -> bool {
        r matches Ok(m) && m.group_view() == G::spec_add(c.group_view(), G::spec_neg(self.key.group_view()))
    }

    fn decrypt(&self, cipher: G) -> (r: Result<G, std::convert::Infallible>) {
        Ok(subtract(&cipher, &self.key))
    }
}

/// Uses the shared group element itself as the mask.
#[derive(Clone, Copy)]
pub struct MaskDerivation;

impl<G: FinGroup> KeyDerivation<G> for MaskDerivation {
    type Key = MaskKey<G>;

    open spec fn derives(&self, g: G::View, k: MaskKey<G>) -> bool {
        k.key.group_view() == g
    }

    fn derive(&self, g: G) -> (r: MaskKey<G>) {
        MaskKey { key: g }
    }
}

} // verus!
