//! The multiplicative group of units modulo `N`, written additively:
//! `0` is `1`, `a + b` is `a·b`, `−a` is `a⁻¹` and `k·a` is `aᵏ`.
use vstd::prelude::*;
use vstd::arithmetic::div_mod::*;
use vstd::arithmetic::power::pow;

use crate::algo::{gcd, lemma_bezout, lemma_coprime_from_combination};
use crate::bytes::{is_prefix, Decoding, Deserialize, Encoding, Serialize, Stream};
use crate::el_gamal::{
    ElGamal, ElGamalDecaps, ElGamalEncaps, ElGamalKem, ElGamalPublicKey, ElGamalSecret, GroupGenerator,
    KeyDerivation, MaskDerivation, MaskKey,
};
use crate::group::FinGroup;
use crate::hybrid::{Hybrid, HybridError};
use crate::natural::{canonical_bytes, le_value, Natural};
use crate::p224::N224;
use crate::schemes::{Decapsulator, Decryptor, Encapsulator, Encryptor, KeyEncapsulation, PublicKeyEncryption};
use crate::vectorized::Vectorized;
use crate::zn::{
    byte_width, invertible, le_bytes, lemma_inverse_unique, lemma_le_bytes_value, lemma_width_bound,
    spec_inverse, BigPrime, Zn,
};

verus! {

/// A generator of the group and the exponent range it is used with.
pub trait Generator {
    spec fn spec_generator() -> nat;

    spec fn spec_group_order() -> nat;

    fn generator() -> (r: Natural)
        ensures
            r.val() == Self::spec_generator(),
    ;

    fn order() -> (r: Natural)
        ensures
            r.val() == Self::spec_group_order(),
            r.val() > 1,
    ;
}

/// `v` is a unit modulo `n`.
pub open spec fn unit(v: nat, n: nat) -> bool {
    gcd(v, n) == 1
}

proof fn lemma_unit_combination(v: nat, n: nat)
    requires
        unit(v, n),
    ensures
        exists|x: int, y: int| #[trigger] (v * x) + #[trigger] (n * y) == 1,
{
    lemma_bezout(v, n);
}

proof fn lemma_unit_product(a: nat, b: nat, n: nat)
    requires
        n > 1,
        unit(a, n),
        unit(b, n),
    ensures
        unit((a * b) % n, n),
{
    lemma_unit_combination(a, n);
    lemma_unit_combination(b, n);
    let (x1, y1) = choose|x: int, y: int| #[trigger] (a * x) + #[trigger] (n * y) == 1;
    let (x2, y2) = choose|x: int, y: int| #[trigger] (b * x) + #[trigger] (n * y) == 1;
    let ab = a * b;
    lemma_fundamental_div_mod(ab as int, n as int);
    let q = ab / n;
    let r = ab % n;
    let x = x1 * x2;
    let t = y1 + y2 - n * y1 * y2;
    assert(ab * x == (a * x1) * (b * x2)) by (nonlinear_arith)
        requires
            ab == a * b,
            x == x1 * x2,
    ;
    assert((1 - n * y1) * (1 - n * y2) == 1 - n * t) by (nonlinear_arith)
        requires
            t == y1 + y2 - n * y1 * y2,
    ;
    assert(ab * x == 1 - n * t);
    assert(r * x == ab * x - n * (q * x)) by (nonlinear_arith)
        requires
            ab == n * q + r,
    ;
    let y = q * x + t;
    assert(n * y == n * (q * x) + n * t) by (nonlinear_arith)
        requires
            y == q * x + t,
    ;
    assert(r * x + n * y == 1);
    lemma_mod_bound(ab as int, n as int);
    lemma_coprime_from_combination(r as nat, n, x, y);
}

proof fn lemma_unit_pow(a: nat, k: nat, n: nat)
    requires
        n > 1,
        unit(a, n),
    ensures
        unit((pow(a as int, k) % (n as int)) as nat, n),
    decreases k,
{
    reveal(pow);
    if k == 0 {
        vstd::arithmetic::power::lemma_pow0(a as int);
        lemma_small_mod(1, n);
        assert(gcd(1, n) == gcd(n, 1nat % n));
        lemma_small_mod(1, n);
        assert(gcd(n, 1) == gcd(1, n % 1));
        assert(n % 1 == 0);
    } else {
        lemma_unit_pow(a, (k - 1) as nat, n);
        let p = pow(a as int, (k - 1) as nat);
        assert(pow(a as int, k) == a * p);
        lemma_mod_bound(p, n as int);
        let pm = (p % (n as int)) as nat;
        lemma_unit_product(a, pm, n);
        lemma_mul_mod_noop_right(a as int, p, n as int);
    }
}

proof fn lemma_unit_inverse(a: nat, i: nat, n: nat)
    requires
        n > 1,
        (a * i) % n == 1,
    ensures
        unit(i, n),
{
    lemma_fundamental_div_mod((a * i) as int, n as int);
    let q = (a * i) / n;
    assert(i * a + n * (-q) == 1) by (nonlinear_arith)
        requires
            a * i == n * q + 1,
    ;
    lemma_coprime_from_combination(i, n, a as int, -q);
}

/// Zero is no unit.
proof fn lemma_zero_not_unit(n: nat)
    requires
        n > 1,
    ensures
        !unit(0, n),
{
    assert(gcd(0, n) == gcd(n, 0nat % n));
    assert(0nat % n == 0) by {
        lemma_small_mod(0, n);
    }
    assert(gcd(n, 0) == n);
}

/// The residue is not a unit: zero, for a prime modulus.
pub struct IsZero;

/// A unit modulo `N`.
pub struct Zp<N: BigPrime> {
    value: Zn<N>,
}

impl<N: BigPrime> Zp<N> {
    #[verifier::type_invariant]
    spec fn is_unit(&self) -> bool {
        unit(self.value.val(), N::spec_value())
    }

    pub closed spec fn val(&self) -> nat {
        self.value.val()
    }

    /// The unit `n mod N`; `IsZero` where that residue is not a unit.
    pub fn new(n: &Natural) -> (r: Result<Self, IsZero>)
        ensures
            r.is_ok() == unit(n.val() % N::spec_value(), N::spec_value()),
            r.is_ok() ==> r->Ok_0.val() == n.val() % N::spec_value(),
    {
        let z = Zn::<N>::from_natural(n);
        if z.has_inverse() {
            Ok(Zp { value: z })
        } else {
            Err(IsZero)
        }
    }

    /// The identity of the group, `1`.
    pub fn one() -> (r: Self)
        ensures
            r.val() == 1,
    {
        let m = N::value();
        let z = Zn::<N>::one();
        proof {
            lemma_small_mod(1, m.val());
            assert(gcd(1, m.val()) == gcd(m.val(), 1nat % m.val()));
            assert(gcd(m.val(), 1) == gcd(1, m.val() % 1));
        }
        Zp { value: z }
    }

    /// The residue, in `[1, N)`.
    pub fn to_zn(&self) -> (r: Zn<N>)
        ensures
            r.val() == self.val(),
            self.val() > 0,
    {
        proof {
            use_type_invariant(self);
        }
        let m = N::value();
        proof {
            lemma_zero_not_unit(m.val());
        }
        self.value.copy()
    }

    pub fn is_one(&self) -> (r: bool)
        ensures
            r == (self.val() == 1),
    {
        self.value.is_one()
    }
}

impl<N: BigPrime + Generator> FinGroup for Zp<N> {
    type View = nat;

    open spec fn group_view(&self) -> nat {
        self.val()
    }

    open spec fn spec_order() -> nat {
        N::spec_group_order()
    }

    open spec fn spec_add(a: nat, b: nat) -> nat {
        (a * b) % N::spec_value()
    }

    open spec fn spec_neg(a: nat) -> nat {
        spec_inverse(N::spec_value(), a)
    }

    open spec fn spec_mul(a: nat, k: nat) -> nat {
        (pow(a as int, k) % (N::spec_value() as int)) as nat
    }

    fn order() -> (r: Natural) {
        N::order()
    }

    fn add(&self, o: &Self) -> (r: Self) {
        proof {
            use_type_invariant(self);
            use_type_invariant(o);
        }
        let m = N::value();
        let v = self.value.mul(&o.value);
        proof {
            lemma_unit_product(self.val(), o.val(), m.val());
        }
        Zp { value: v }
    }

    fn neg(&self) -> (r: Self) {
        proof {
            use_type_invariant(self);
        }
        let m = N::value();
        let i = self.value.inv();
        proof {
            lemma_unit_inverse(self.val(), i.val(), m.val());
            lemma_inverse_unique(m.val(), self.val(), i.val());
        }
        Zp { value: i }
    }

    fn mul_scalar(&self, k: &Natural) -> (r: Self) {
        proof {
            use_type_invariant(self);
        }
        let m = N::value();
        let v = self.value.pow(k);
        proof {
            lemma_unit_pow(self.val(), k.val(), m.val());
        }
        Zp { value: v }
    }

    fn copy(&self) -> (r: Self) {
        proof {
            use_type_invariant(self);
        }
        Zp { value: self.value.copy() }
    }
}

/// `(g^a)^b` and `(g^b)^a` agree modulo `n`.
proof fn lemma_pow_swap(g: nat, a: nat, b: nat, n: nat)
    requires
        n > 1,
    ensures
        pow((pow(g as int, a) % (n as int)), b) % (n as int) == pow(
            (pow(g as int, b) % (n as int)),
            a,
        ) % (n as int),
{
    let ni = n as int;
    vstd::arithmetic::power::lemma_pow_mod_noop(pow(g as int, a), b, ni);
    vstd::arithmetic::power::lemma_pow_mod_noop(pow(g as int, b), a, ni);
    vstd::arithmetic::power::lemma_pow_multiplies(g as int, a, b);
    vstd::arithmetic::power::lemma_pow_multiplies(g as int, b, a);
    assert(a * b == b * a) by (nonlinear_arith);
}

/// A unit has an inverse, and `x · x⁻¹ = 1`.
proof fn lemma_unit_invertible(x: nat, n: nat)
    requires
        n > 1,
        unit(x, n),
    ensures
        invertible(n, x),
        (x * spec_inverse(n, x)) % n == 1,
{
    lemma_unit_combination(x, n);
    let (bx, by) = choose|a: int, b: int| #[trigger] (x * a) + #[trigger] (n * b) == 1;
    crate::zn::lemma_bezout_inverse(x, n, bx, by);
}

/// ElGamal over the units modulo `N` decrypts what it encrypts: for a key
/// pair made by the scheme, a cipher of `m` under the public key decrypts
/// to `m` under the secret.
pub proof fn lemma_el_gamal_round_trip<N: BigPrime + Generator, F: GroupGenerator<Group = Zp<N>>>(
    scheme: ElGamal<F>,
    pk: ElGamalPublicKey<Zp<N>>,
    sk: ElGamalSecret<Zp<N>>,
    m: Zp<N>,
    c: (Zp<N>, Zp<N>),
    r: Result<Zp<N>, std::convert::Infallible>,
)
    requires
        N::spec_value() > 1,
        unit(pk.group_generator.val(), N::spec_value()),
        m.val() < N::spec_value(),
        scheme.key_pair(pk, sk),
        pk.encrypts(m, c),
        sk.decryption(c, r),
    ensures
        r matches Ok(d) && d.val() == m.val(),
{
    let n = N::spec_value();
    let ni = n as int;
    let g = pk.group_generator.val();
    let s = sk.secret.val();
    let y = choose|y: nat|
        1 <= y < Zp::<N>::spec_order() && c.0.group_view() == #[trigger] Zp::<N>::spec_mul(
            pk.group_generator.group_view(),
            y,
        ) && c.1.group_view() == Zp::<N>::spec_add(
            Zp::<N>::spec_mul(pk.key.group_view(), y),
            m.group_view(),
        );
    let h = pk.key.val();
    assert(h == (pow(g as int, s) % ni) as nat);
    let alpha = c.0.val();
    assert(alpha == (pow(g as int, y) % ni) as nat);
    // the shared element, from either side
    let k = (pow(alpha as int, s) % ni) as nat;
    lemma_pow_swap(g, y, s, n);
    lemma_pow_swap(g, s, y, n);
    lemma_mod_bound(pow(g as int, y), ni);
    lemma_mod_bound(pow(g as int, s), ni);
    assert(k == (pow(h as int, y) % ni) as nat);
    assert(c.1.val() == (k * m.val()) % n);
    lemma_unit_pow(g, y, n);
    lemma_unit_pow(alpha, s, n);
    lemma_unit_invertible(k, n);
    let i = spec_inverse(n, k);
    let d = r->Ok_0;
    assert(d.val() == (((k * m.val()) % n) * i) % n);
    let (ki, mi, ii) = (k as int, m.val() as int, i as int);
    lemma_mul_mod_noop_left(ki * mi, ii, ni);
    assert((ki * mi) * ii == mi * (ki * ii)) by (nonlinear_arith);
    lemma_mul_mod_noop_right(mi, ki * ii, ni);
    vstd::arithmetic::mul::lemma_mul_basics(mi);
    lemma_small_mod(m.val(), n);
}

/// Unmasking with the inverse of a unit `k` undoes masking with `k`.
proof fn lemma_unmask(m: nat, k: nat, n: nat)
    requires
        n > 1,
        m < n,
        unit(k, n),
    ensures
        (((m * k) % n) * spec_inverse(n, k)) % n == m,
{
    lemma_unit_invertible(k, n);
    let i = spec_inverse(n, k);
    let (ki, mi, ii, ni) = (k as int, m as int, i as int, n as int);
    lemma_mul_mod_noop_left(mi * ki, ii, ni);
    assert((mi * ki) * ii == mi * (ki * ii)) by (nonlinear_arith);
    lemma_mul_mod_noop_right(mi, ki * ii, ni);
    vstd::arithmetic::mul::lemma_mul_basics(mi);
    lemma_small_mod(m, n);
}

/// Hybrid encryption over the units modulo `N` — ElGamal key encapsulation,
/// masking each element of the message with the shared element — decrypts
/// what it encrypts, element by element.
pub proof fn lemma_hybrid_round_trip<N: BigPrime + Generator, S: GroupGenerator<Group = Zp<N>>>(
    scheme: Hybrid<Vectorized<ElGamalKem<S, MaskDerivation>>>,
    pk: Hybrid<Vectorized<ElGamalEncaps<Zp<N>, MaskDerivation>>>,
    sk: Hybrid<Vectorized<ElGamalDecaps<Zp<N>, MaskDerivation>>>,
    m: Vec<Zp<N>>,
    c: (Zp<N>, Vec<Zp<N>>),
    r: Result<Vec<Zp<N>>, HybridError<std::convert::Infallible, std::convert::Infallible>>,
)
    requires
        N::spec_value() > 1,
        unit(pk.0.0.group_generator.val(), N::spec_value()),
        forall|i: int| 0 <= i < m@.len() ==> (#[trigger] m@[i]).val() < N::spec_value(),
        scheme.key_pair(pk, sk),
        pk.encrypts(m, c),
        sk.decryption(c, r),
    ensures
        r matches Ok(d) && d@.len() == m@.len() && forall|i: int|
            0 <= i < m@.len() ==> (#[trigger] d@[i]).val() == m@[i].val(),
{
    let n = N::spec_value();
    let ni = n as int;
    let e = pk.0.0;
    let g = e.group_generator.val();
    let s = sk.0.0.secret.val();
    let h = e.group_key.val();
    assert(h == (pow(g as int, s) % ni) as nat);
    let k = choose|k: Vectorized<MaskKey<Zp<N>>>| #[trigger] pk.0.encapsulates(k, c.0) && k.encrypts(m, c.1);
    let y = choose|y: nat|
        1 <= y < Zp::<N>::spec_order() && c.0.group_view() == #[trigger] Zp::<N>::spec_mul(
            e.group_generator.group_view(),
            y,
        ) && <MaskDerivation as KeyDerivation<Zp<N>>>::derives(
            &e.key_from_group,
            Zp::<N>::spec_mul(e.group_key.group_view(), y),
            k.0,
        );
    let alpha = c.0.val();
    assert(alpha == (pow(g as int, y) % ni) as nat);
    let key = (pow(h as int, y) % ni) as nat;
    assert(k.0.key.val() == key);
    lemma_pow_swap(g, y, s, n);
    lemma_pow_swap(g, s, y, n);
    lemma_mod_bound(pow(g as int, y), ni);
    lemma_mod_bound(pow(g as int, s), ni);
    assert(key == (pow(alpha as int, s) % ni) as nat);
    lemma_unit_pow(g, y, n);
    lemma_unit_pow(alpha, s, n);
    match r {
        Err(HybridError::Decapsulation(err)) => {
            assert(sk.0.decapsulation(c.0, Err(err)));
        },
        Err(HybridError::Decryption(err)) => {
            let k2 = choose|k2: Vectorized<MaskKey<Zp<N>>>|
                #[trigger] sk.0.decapsulation(c.0, Ok(k2)) && k2.decryption(c.1, Err(err));
            let i = choose|i: int| 0 <= i < c.1@.len() && k2.0.decryption(#[trigger] c.1@[i], Err(err));
        },
        Ok(d) => {
            let k2 = choose|k2: Vectorized<MaskKey<Zp<N>>>|
                #[trigger] sk.0.decapsulation(c.0, Ok(k2)) && k2.decryption(c.1, Ok(d));
            assert(k2.0.key.val() == key);
            assert forall|i: int| 0 <= i < m@.len() implies (#[trigger] d@[i]).val() == m@[i].val() by {
                assert(k.0.encrypts(m@[i], c.1@[i]));
                assert(k2.0.decryption(c.1@[i], Ok(d@[i])));
                lemma_unmask(m@[i].val(), key, n);
            }
        },
    }
}

/// The residue `r` does not stand for message bytes.
pub struct TooBig(pub Natural);

/// Number of message bytes one unit carries: one less than the width of `N`.
pub open spec fn message_width(n: nat) -> nat {
    (byte_width(n) - 1) as nat
}

impl<N: BigPrime> Zp<N> {
    /// Takes up to `width(N) − 1` bytes `m` and gives the unit `m + 1`;
    /// `None` where no byte is left, or `m + 1` is no unit.
    pub fn encode_chunk(stream: &mut Stream) -> (r: Option<Self>)
        ensures
            ({
                let w = (byte_width(N::spec_value()) - 1) as nat;
                let k = if old(stream).rest().len() < w { old(stream).rest().len() } else { w };
                let v = le_value(old(stream).rest().take(k as int)) + 1;
                &&& final(stream).rest() == old(stream).rest().skip(k as int)
                &&& k == 0 ==> r.is_none()
                &&& k > 0 ==> (r.is_some() == unit(v % N::spec_value(), N::spec_value()))
                &&& r.is_some() ==> r->0.val() == v % N::spec_value()
            }),
    {
        let m = N::value();
        let mn = m.normalized();
        proof {
            crate::zn::lemma_canonical_width(mn.bytes@);
        }
        let width = mn.bytes.len() - 1;
        let bytes = stream.take(width);
        if bytes.len() == 0 {
            return None;
        }
        let v = Natural { bytes }.add(&Natural::from_u64(1));
        match Zp::<N>::new(&v) {
            Ok(z) => Some(z),
            Err(_) => None,
        }
    }
}

/// Bytes a unit takes from `bytes`: `width(N) − 1`, or fewer at the end.
pub open spec fn chunk_len(n: nat, bytes: Seq<u8>) -> nat {
    let w = (byte_width(n) - 1) as nat;
    if bytes.len() < w { bytes.len() } else { w }
}

impl<N: BigPrime> Encoding for Zp<N> {
    open spec fn consumed(bytes: Seq<u8>) -> nat {
        chunk_len(N::spec_value(), bytes)
    }

    open spec fn succeeds(bytes: Seq<u8>) -> bool {
        let k = chunk_len(N::spec_value(), bytes);
        k > 0 && unit((le_value(bytes.take(k as int)) + 1) % N::spec_value(), N::spec_value())
    }

    open spec fn encodes(bytes: Seq<u8>, e: Self) -> bool {
        e.val() == (le_value(bytes.take(chunk_len(N::spec_value(), bytes) as int)) + 1) % N::spec_value()
    }

    fn encode(stream: &mut Stream) -> (r: Option<Self>) {
        Zp::<N>::encode_chunk(stream)
    }
}

/// Decoding gives back a chunk of fewer than `width(N)` bytes without
/// trailing zero bytes (or the single byte `0`), once it is encoded as the
/// unit `m + 1`, for a prime `N`.
pub proof fn lemma_chunk_round_trip<N: BigPrime>(b: Seq<u8>, z: Zp<N>, r: Result<Vec<u8>, TooBig>)
    requires
        crate::algo::spec_prime(N::spec_value()),
        canonical_bytes(b),
        b.len() < byte_width(N::spec_value()),
        z.val() == (le_value(b) + 1) % N::spec_value(),
        z.decoding(r),
    ensures
        le_value(b) + 1 < N::spec_value(),
        unit(le_value(b) + 1, N::spec_value()),
        r matches Ok(out) && out@ == b,
{
    let n = N::spec_value();
    let v = le_value(b);
    let w = byte_width(n);
    crate::zn::lemma_canonical_width(b);
    lemma_width_bound(v);
    crate::zn::lemma_width_floor(n);
    let k = (w - 1) as nat;
    assert(b.len() <= k);
    vstd::arithmetic::power::lemma_pow_increases(256, b.len(), k);
    assert(v < n);
    // n is no power of 256: it is an odd prime
    assert(v + 1 < n) by {
        if v + 1 == n {
            assert(n == pow(256, k));
            assert(k >= 1);
            vstd::arithmetic::power::lemma_pow_adds(256, 1, (k - 1) as nat);
            vstd::arithmetic::power::lemma_pow1(256);
            let q = pow(256, (k - 1) as nat);
            assert(n == 256 * q);
            assert(n % 2 == 0) by {
                lemma_mod_multiples_basic(128 * q, 2);
                assert(256 * q == (128 * q) * 2) by (nonlinear_arith);
            }
            assert(1 < 2nat && 2nat < n);
            assert(n % 2 != 0);
        }
    }
    lemma_small_mod(v + 1, n);
    crate::zn::lemma_nonzero_invertible(n, v + 1);
    match r {
        Ok(out) => {
            crate::zn::lemma_canonical_width(out@);
            crate::zn::lemma_le_bytes_unique(out@);
            crate::zn::lemma_le_bytes_unique(b);
        },
        Err(_) => {
        },
    }
}

impl<N: BigPrime> Decoding for Zp<N> {
    type Error = TooBig;

    /// The shortest little-endian writing of `r − 1`, where it fits in
    /// `width(N) − 1` bytes.
    open spec fn decoding(&self, r: Result<Vec<u8>, TooBig>) -> bool {
        &&& r matches Ok(b) ==> le_value(b@) == self.val() - 1 && canonical_bytes(b@) && b@.len()
            < byte_width(N::spec_value())
        &&& r is Err ==> byte_width((self.val() - 1) as nat) >= byte_width(N::spec_value())
    }

    fn decode(&self) -> (r: Result<Vec<u8>, TooBig>) {
        let z = self.to_zn();
        let v = z.to_natural().sub(&Natural::from_u64(1)).normalized();
        let m = N::value();
        let mn = m.normalized();
        let width = mn.bytes.len();
        proof {
            crate::zn::lemma_canonical_width(mn.bytes@);
            crate::zn::lemma_canonical_width(v.bytes@);
        }
        if v.bytes.len() >= width {
            Err(TooBig(z.to_natural()))
        } else {
            Ok(v.bytes)
        }
    }
}

impl<N: BigPrime> Serialize for Zp<N> {
    /// The wire bytes of the residue.
    open spec fn wire(&self) -> Seq<u8> {
        le_bytes(self.val(), byte_width(N::spec_value()))
    }

    open spec fn wire_ok(&self) -> bool {
        self.val() < N::spec_value() && unit(self.val(), N::spec_value())
    }

    open spec fn same(&self, o: &Self) -> bool {
        self.val() == o.val()
    }

    open spec fn self_delimiting() -> bool {
        true
    }

    fn serialize(&self) -> (r: Vec<u8>) {
        self.value.to_bytes()
    }
}

impl<N: BigPrime> Deserialize for Zp<N> {
    type Error = IsZero;

    /// As `Zn<N>` reads; `IsZero` where the residue is no unit.
    open spec fn reads(bytes: Seq<u8>, r: Result<Option<Self>, Self::Error>, rest: Seq<u8>) -> bool {
        let w = byte_width(N::spec_value());
        let k = if bytes.len() < w { bytes.len() } else { w };
        let v = le_value(bytes.take(k as int)) % N::spec_value();
        &&& rest == bytes.skip(k as int)
        &&& k == 0 ==> (r matches Ok(None))
        &&& k > 0 && unit(v, N::spec_value()) ==> (r matches Ok(Some(z)) && z.val() == v)
        &&& k > 0 && !unit(v, N::spec_value()) ==> (r matches Err(IsZero))
    }

    /// Reads a residue as `Zn<N>` does; `IsZero` where it is no unit.
    fn deserialize(stream: &mut Stream) -> (r: Result<Option<Self>, Self::Error>) {
        let ghost w = byte_width(N::spec_value());
        let ghost s0 = old(stream).rest();
        proof {
            lemma_width_bound(N::spec_value());
            assert forall|x: Self|
                #![trigger x.wire()]
                x.wire_ok() && s0 == x.wire() implies is_prefix(x.wire(), s0) by {
                assert(x.wire().take(x.wire().len() as int) =~= x.wire());
            }
        }
        match Zn::<N>::read(stream) {
            None => Ok(None),
            Some(z) => {
                let zn = z.to_natural();
                proof {
                    lemma_small_mod(z.val(), N::spec_value());
                    assert forall|x: Self|
                        #![trigger x.wire()]
                        x.wire_ok() && is_prefix(x.wire(), s0) implies z.val() == x.val()
                            && x.wire().len() == w by {
                        lemma_le_bytes_value(x.val(), w);
                        lemma_small_mod(x.val(), N::spec_value());
                    }
                }
                match Zp::<N>::new(&zn) {
                    Ok(p) => Ok(Some(p)),
                    Err(e) => Err(e),
                }
            },
        }
    }
}

/// The big-prime backend: units modulo the P-224 prime, generator `3`,
/// exponents below `p − 1`.
impl Generator for N224 {
    open spec fn spec_generator() -> nat {
        3
    }

    open spec fn spec_group_order() -> nat {
        (N224::spec_value() - 1) as nat
    }

    fn generator() -> (r: Natural) {
        Natural::from_u64(3)
    }

    fn order() -> (r: Natural) {
        let m = N224::value();
        m.sub(&Natural::from_u64(1))
    }
}

/// The generator `3` of the big-prime backend.
pub fn prime_generator() -> (r: Zp<N224>)
    ensures
        r.val() == 3,
{
    let m = N224::value();
    let g = <N224 as Generator>::generator();
    proof {
        lemma_small_mod(3, m.val());
        assert(crate::p224::p224_prime() % 3 == 1);
        lemma_unit_three(m.val());
    }
    match Zp::<N224>::new(&g) {
        Ok(z) => z,
        Err(_) => vstd::pervasive::unreached(),
    }
}

/// `3` is a unit modulo any `n > 3` that it does not divide.
proof fn lemma_unit_three(n: nat)
    requires
        n > 3,
        n % 3 != 0,
    ensures
        unit(3, n),
{
    lemma_small_mod(3, n);
    assert(gcd(3, n) == gcd(n, 3));
    assert(gcd(n, 3) == gcd(3, n % 3));
    if n % 3 == 1 {
        assert(gcd(3, 1) == gcd(1, 0));
    } else {
        assert(3nat % 2 == 1);
        assert(gcd(3, 2) == gcd(2, 3nat % 2));
        assert(2nat % 1 == 0);
        assert(gcd(2, 1) == gcd(1, 2nat % 1));
        assert(gcd(1, 0) == 1);
    }
}

} // verus!
