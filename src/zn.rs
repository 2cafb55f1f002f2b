//! Integers modulo `N`, with `N` given by a type.
use vstd::prelude::*;
use vstd::arithmetic::div_mod::*;
use vstd::arithmetic::power::pow;

use std::marker::PhantomData;

use crate::algo::{extended_gcd, gcd, lemma_gcd_divides, spec_prime};
use crate::bytes::{is_prefix, Deserialize, Serialize, Stream};
use crate::natural::{canonical_bytes, le_value, Integer, Natural};

verus! {

/// A modulus, given by a type.
pub trait BigPrime {
    spec fn spec_value() -> nat;

    fn value() -> (r: Natural)
        ensures
            r.val() == Self::spec_value(),
            r.val() > 1,
    ;
}

/// A modulus `M` fixed at compile time; values below 2 are read as 2.
pub struct SmallModulus<const M: u64>;

impl<const M: u64> BigPrime for SmallModulus<M> {
    open spec fn spec_value() -> nat {
        if M > 1 {
            M as nat
        } else {
            2
        }
    }

    fn value() -> (r: Natural) {
        if M > 1 {
            Natural::from_u64(M)
        } else {
            Natural::from_u64(2)
        }
    }
}

/// Whether `n` ones add up to zero in `Zn<N>` (taking at least one).
pub fn char_is<N: BigPrime>(n: usize) -> (r: bool)
    ensures
        r == ((if n == 0 { 1 } else { n as nat }) % N::spec_value() == 0),
{
    let m = N::value();
    let one = Zn::<N>::one();
    let mut x = Zn::<N>::one();
    let mut i: usize = 1;
    proof {
        lemma_small_mod(1, N::spec_value());
    }
    while i < n
        invariant
            1 <= i,
            n > 0 ==> i <= n,
            n == 0 ==> i == 1,
            x.val() == i as nat % N::spec_value(),
            one.val() == 1,
            N::spec_value() > 1,
        decreases n - i,
    {
        x = x.add(&one);
        proof {
            lemma_add_mod_noop(i as int, 1, N::spec_value() as int);
            lemma_small_mod(1, N::spec_value());
        }
        i = i + 1;
    }
    x.is_zero()
}

/// Number of bytes in the shortest little-endian writing of `m`.
pub open spec fn byte_width(m: nat) -> nat
    decreases m,
{
    if m < 256 {
        1
    } else {
        1 + byte_width(m / 256)
    }
}

/// `z` has an inverse modulo `p`.
pub open spec fn invertible(p: nat, z: nat) -> bool {
    exists|i: nat| i < p && #[trigger] (z * i) % p == 1
}

/// The inverse of `z` modulo `p`, where there is one.
pub open spec fn spec_inverse(p: nat, z: nat) -> nat {
    choose|i: nat| i < p && #[trigger] (z * i) % p == 1
}

/// The inverse modulo `p` is unique.
pub proof fn lemma_inverse_unique(p: nat, z: nat, r: nat)
    requires
        p > 1,
        r < p,
        (z * r) % p == 1,
    ensures
        spec_inverse(p, z) == r,
{
    assert(r < p && (z * r) % p == 1);
    let i = spec_inverse(p, z);
    assert(i < p && (z * i) % p == 1);
    let (pi, zi, ri) = (p as int, z as int, r as int);
    let ii = i as int;
    // r = r·(z·i) = i·(z·r) modulo p
    lemma_mul_mod_noop_right(ri, zi * ii, pi);
    lemma_mul_mod_noop_right(ii, zi * ri, pi);
    assert(ri * (zi * ii) == ii * (zi * ri)) by (nonlinear_arith);
    vstd::arithmetic::mul::lemma_mul_basics(ri);
    vstd::arithmetic::mul::lemma_mul_basics(ii);
    lemma_small_mod(r, p);
    lemma_small_mod(i, p);
}


/// In a prime modulus every nonzero residue has an inverse: `x · x⁻¹ = 1`.
pub proof fn lemma_nonzero_invertible(n: nat, x: nat)
    requires
        spec_prime(n),
        0 < x < n,
    ensures
        gcd(x, n) == 1,
        invertible(n, x),
        (x * spec_inverse(n, x)) % n == 1,
{
    lemma_gcd_divides(x, n);
    let g = gcd(x, n);
    let k1 = choose|k: int| x == #[trigger] (g * k);
    let k2 = choose|k: int| n == #[trigger] (g * k);
    assert(g > 0) by {
        if g == 0 {
            assert(x == 0 * k1);
        }
    }
    assert(k1 >= 1) by (nonlinear_arith)
        requires
            x == g * k1,
            x > 0,
            g > 0,
    ;
    assert(g <= x) by (nonlinear_arith)
        requires
            x == g * k1,
            k1 >= 1,
            g > 0,
    ;
    assert(n % g == 0) by {
        lemma_mod_multiples_basic(k2, g as int);
        assert(k2 * g == n) by (nonlinear_arith)
            requires
                n == g * k2,
        ;
    }
    if g != 1 {
        assert(1 < g < n);
        assert(n % g != 0);
    }
    let (bx, by) = choose_bezout(x, n);
    lemma_bezout_inverse(x, n, bx, by);
}

proof fn choose_bezout(a: nat, b: nat) -> (r: (int, int))
    requires
        gcd(a, b) == 1,
    ensures
        a * r.0 + b * r.1 == 1,
{
    crate::algo::lemma_bezout(a, b);
    choose|x: int, y: int| #[trigger] (a * x) + #[trigger] (b * y) == gcd(a, b) as int
}

pub proof fn lemma_bezout_inverse(x: nat, n: nat, bx: int, by: int)
    requires
        n > 1,
        x * bx + n * by == 1,
    ensures
        invertible(n, x),
        (x * spec_inverse(n, x)) % n == 1,
{
    let i = bx % (n as int);
    lemma_mod_bound(bx, n as int);
    lemma_mul_mod_noop_right(x as int, bx, n as int);
    assert(x * bx == n * (-by) + 1) by (nonlinear_arith)
        requires
            x * bx + n * by == 1,
    ;
    lemma_mod_multiples_vanish(-by, 1, n as int);
    lemma_small_mod(1, n);
    assert((x * (i as nat)) % n == 1);
    assert(invertible(n, x)) by {
        assert((i as nat) < n && #[trigger] ((x * (i as nat)) % n) == 1);
    }
}

/// A residue modulo `N`, kept in `[0, N)`.
pub struct Zn<N: BigPrime> {
    value: Natural,
    modulus: PhantomData<N>,
}

impl<N: BigPrime> Zn<N> {
    #[verifier::type_invariant]
    spec fn canonical(&self) -> bool {
        self.value.val() < N::spec_value()
    }

    pub closed spec fn val(&self) -> nat {
        self.value.val()
    }

    /// The residue of `n`.
    pub fn from_natural(n: &Natural) -> (r: Self)
        ensures
            r.val() == n.val() % N::spec_value(),
    {
        let m = N::value();
        let v = n.rem(&m);
        Zn { value: v, modulus: PhantomData }
    }

    pub fn from_u64(n: u64) -> (r: Self)
        ensures
            r.val() == n as nat % N::spec_value(),
    {
        Self::from_natural(&Natural::from_u64(n))
    }

    pub fn zero() -> (r: Self)
        ensures
            r.val() == 0,
    {
        let m = N::value();
        proof {
            lemma_small_mod(0, m.val());
        }
        Self::from_u64(0)
    }

    pub fn one() -> (r: Self)
        ensures
            r.val() == 1,
    {
        let m = N::value();
        proof {
            lemma_small_mod(1, m.val());
        }
        Self::from_u64(1)
    }

    /// The canonical representative: every residue lies in `[0, N)`.
    pub fn to_natural(&self) -> (r: Natural)
        ensures
            r.val() == self.val(),
            self.val() < N::spec_value(),
    {
        proof {
            use_type_invariant(self);
        }
        self.value.copy()
    }

    pub fn is_zero(&self) -> (r: bool)
        ensures
            r == (self.val() == 0),
    {
        self.value.is_zero()
    }

    pub fn is_one(&self) -> (r: bool)
        ensures
            r == (self.val() == 1),
    {
        self.value.equals(&Natural::from_u64(1))
    }

    pub fn equals(&self, o: &Self) -> (r: bool)
        ensures
            r == (self.val() == o.val()),
    {
        self.value.equals(&o.value)
    }

    pub fn copy(&self) -> (r: Self)
        ensures
            r.val() == self.val(),
    {
        proof {
            use_type_invariant(self);
        }
        Zn { value: self.value.copy(), modulus: PhantomData }
    }

    pub fn add(&self, o: &Self) -> (r: Self)
        ensures
            r.val() == (self.val() + o.val()) % N::spec_value(),
    {
        Self::from_natural(&self.value.add(&o.value))
    }

    pub fn neg(&self) -> (r: Self)
        ensures
            r.val() == (N::spec_value() - self.val()) % (N::spec_value() as int),
    {
        proof {
            use_type_invariant(self);
        }
        let m = N::value();
        Self::from_natural(&m.sub(&self.value))
    }

    pub fn sub(&self, o: &Self) -> (r: Self)
        ensures
            r.val() == (self.val() - o.val()) % (N::spec_value() as int),
    {
        let modulus = N::value();
        let n = o.neg();
        let r = self.add(&n);
        proof {
            use_type_invariant(self);
            use_type_invariant(o);
            let m = N::spec_value() as int;
            let (a, b) = (self.val() as int, o.val() as int);
            lemma_add_mod_noop(a, m - b, m);
            lemma_small_mod(a as nat, m as nat);
            lemma_mod_add_multiples_vanish(a - b, m);
        }
        r
    }

    pub fn mul(&self, o: &Self) -> (r: Self)
        ensures
            r.val() == (self.val() * o.val()) % N::spec_value(),
    {
        Self::from_natural(&self.value.mul(&o.value))
    }

    pub fn pow(&self, e: &Natural) -> (r: Self)
        ensures
            r.val() == pow(self.val() as int, e.val()) % (N::spec_value() as int),
    {
        let m = N::value();
        let v = self.value.modpow(e, &m);
        proof {
            lemma_mod_bound(pow(self.val() as int, e.val()), m.val() as int);
        }
        Zn { value: v, modulus: PhantomData }
    }

    /// The multiplicative inverse, for a residue coprime to `N`.
    pub fn inv(&self) -> (r: Self)
        requires
            gcd(self.val(), N::spec_value()) == 1,
        ensures
            (self.val() * r.val()) % N::spec_value() == 1,
            r.val() < N::spec_value(),
    {
        let m = N::value();
        let (g, x, y) = extended_gcd(
            &Integer::from_natural(self.value.copy()),
            &Integer::from_natural(m.copy()),
        );
        let r = if x.negative {
            let k = x.magnitude.rem(&m);
            Self::from_natural(&m.sub(&k))
        } else {
            Self::from_natural(&x.magnitude)
        };
        proof {
            use_type_invariant(self);
            lemma_mod_bound(x.magnitude.val() as int, m.val() as int);
            lemma_inverse_normalized(
                self.val() as int,
                m.val() as int,
                x.magnitude.val() as int,
                x.negative,
                y.val(),
                r.val() as int,
            );
        }
        r
    }

    /// Whether the residue is coprime to `N`, so that it has an inverse.
    pub fn has_inverse(&self) -> (r: bool)
        ensures
            r == (gcd(self.val(), N::spec_value()) == 1),
    {
        let m = N::value();
        let (g, _, _) = extended_gcd(
            &Integer::from_natural(self.value.copy()),
            &Integer::from_natural(m.copy()),
        );
        g.equals(&Integer::from_u64(1))
    }

    /// Reads `width(N)` bytes, or what is left when fewer remain, as a
    /// little-endian number reduced modulo `N`.
    pub fn read(stream: &mut Stream) -> (r: Option<Self>)
        ensures
            ({
                let w = byte_width(N::spec_value());
                let k = if old(stream).rest().len() < w { old(stream).rest().len() } else { w };
                &&& final(stream).rest() == old(stream).rest().skip(k as int)
                &&& k == 0 ==> r.is_none()
                &&& k > 0 ==> r.is_some() && r->0.val() == le_value(old(stream).rest().take(k as int))
                    % N::spec_value()
            }),
    {
        let m = N::value();
        let mn = m.normalized();
        let width = mn.bytes.len();
        proof {
            lemma_canonical_width(mn.bytes@);
        }
        let bytes = stream.take(width);
        if bytes.len() == 0 {
            None
        } else {
            Some(Self::from_natural(&Natural { bytes }))
        }
    }

    /// `self / o`, for `o` coprime to `N`.
    pub fn div(&self, o: &Self) -> (r: Self)
        requires
            gcd(o.val(), N::spec_value()) == 1,
        ensures
            (r.val() * o.val()) % N::spec_value() == self.val(),
    {
        let i = o.inv();
        let r = self.mul(&i);
        proof {
            use_type_invariant(self);
            let n = N::spec_value() as int;
            let (a, b, c) = (self.val() as int, o.val() as int, i.val() as int);
            lemma_mul_mod_noop_left(a * c, b, n);
            assert((a * c) * b == a * (b * c)) by (nonlinear_arith);
            lemma_mul_mod_noop_right(a, b * c, n);
            lemma_small_mod(a as nat, n as nat);
            vstd::arithmetic::mul::lemma_mul_basics(a);
            assert(a * ((b * c) % n) == a);
        }
        r
    }

    /// A square root by `x^((N+1)/4)`, returned only when it squares back to `x`.
    pub fn sqrt(&self) -> (r: Option<Self>)
        ensures
            r.is_some() ==> (r->0.val() * r->0.val()) % N::spec_value() == self.val(),
            r.is_none() ==> ({
                let c = pow(self.val() as int, (N::spec_value() + 1) / 4) % (N::spec_value() as int);
                (c * c) % (N::spec_value() as int) != self.val()
            }),
    {
        let m = N::value();
        let deg = m.add(&Natural::from_u64(1)).div(&Natural::from_u64(4));
        let s = self.pow(&deg);
        let sq = s.mul(&s);
        if sq.equals(self) {
            Some(s)
        } else {
            None
        }
    }

    /// The residue as `width(N)` little-endian bytes.
    pub fn to_bytes(&self) -> (r: Vec<u8>)
        ensures
            r@ == le_bytes(self.val(), byte_width(N::spec_value())),
    {
        proof {
            use_type_invariant(self);
        }
        let m = N::value();
        let mn = m.normalized();
        let width = mn.bytes.len();
        let mut bytes = self.value.normalized().bytes;
        proof {
            lemma_canonical_width(mn.bytes@);
            lemma_canonical_width(bytes@);
            lemma_width_monotonic(self.val(), N::spec_value());
        }
        pad_zeros(&mut bytes, width);
        proof {
            lemma_le_bytes_unique(bytes@);
        }
        bytes
    }
}

impl<N: BigPrime> PartialEq for Zn<N> {
    fn eq(&self, o: &Self) -> (r: bool) {
        self.equals(o)
    }
}

impl<N: BigPrime> vstd::std_specs::cmp::PartialEqSpecImpl for Zn<N> {
    open spec fn obeys_eq_spec() -> bool {
        true
    }

    open spec fn eq_spec(&self, o: &Self) -> bool {
        self.val() == o.val()
    }
}

impl<N: BigPrime> Serialize for Zn<N> {
    open spec fn wire(&self) -> Seq<u8> {
        le_bytes(self.val(), byte_width(N::spec_value()))
    }

    open spec fn wire_ok(&self) -> bool {
        self.val() < N::spec_value()
    }

    open spec fn same(&self, o: &Self) -> bool {
        self.val() == o.val()
    }

    open spec fn self_delimiting() -> bool {
        true
    }

    fn serialize(&self) -> (r: Vec<u8>) {
        self.to_bytes()
    }
}

impl<N: BigPrime> Deserialize for Zn<N> {
    type Error = std::convert::Infallible;

    /// `width(N)` bytes, or what is left, reduced modulo `N`; `None` on no byte.
    open spec fn reads(bytes: Seq<u8>, r: Result<Option<Self>, Self::Error>, rest: Seq<u8>) -> bool {
        let w = byte_width(N::spec_value());
        let k = if bytes.len() < w { bytes.len() } else { w };
        &&& rest == bytes.skip(k as int)
        &&& k == 0 ==> (r matches Ok(None))
        &&& k > 0 ==> (r matches Ok(Some(z)) && z.val() == le_value(bytes.take(k as int)) % N::spec_value())
    }

    /// Reads `width(N)` bytes, or what is left when fewer remain.
    fn deserialize(stream: &mut Stream) -> (r: Result<Option<Self>, Self::Error>) {
        let ghost w = byte_width(N::spec_value());
        let ghost s0 = old(stream).rest();
        proof {
            lemma_width_bound(N::spec_value());
            assert forall|x: Self|
                #![trigger x.wire()]
                x.wire_ok() && s0 == x.wire() implies is_prefix(x.wire(), s0) by {
                assert(x.wire().take(x.wire().len() as int) =~= x.wire());
            }
        }
        let r = Self::read(stream);
        proof {
            assert forall|x: Self|
                #![trigger x.wire()]
                x.wire_ok() && is_prefix(x.wire(), s0) implies r.is_some() && r->0.val() == x.val()
                    && x.wire().len() == w by {
                lemma_le_bytes_value(x.val(), w);
                lemma_small_mod(x.val(), N::spec_value());
            }
        }
        Ok(r)
    }
}

/// `v` written in exactly `w` little-endian bytes.
pub open spec fn le_bytes(v: nat, w: nat) -> Seq<u8>
    decreases w,
{
    if w == 0 {
        Seq::empty()
    } else {
        seq![(v % 256) as u8] + le_bytes(v / 256, (w - 1) as nat)
    }
}

/// A byte string is the writing of its own value in its own length.
pub proof fn lemma_le_bytes_unique(b: Seq<u8>)
    ensures
        b == le_bytes(le_value(b), b.len()),
    decreases b.len(),
{
    if b.len() > 0 {
        let t = b.subrange(1, b.len() as int);
        lemma_le_bytes_unique(t);
        let v = le_value(b);
        assert(v == b[0] as nat + 256 * le_value(t));
        lemma_fundamental_div_mod(v as int, 256);
        lemma_div_multiples_vanish_fancy(le_value(t) as int, b[0] as int, 256);
        lemma_mod_multiples_vanish(le_value(t) as int, b[0] as int, 256);
        lemma_small_mod(b[0] as nat, 256);
        assert(b =~= seq![(v % 256) as u8] + t);
    }
}

/// A value below `256^w` reads back from its `w` bytes.
pub proof fn lemma_le_bytes_value(v: nat, w: nat)
    requires
        v < pow(256, w),
    ensures
        le_value(le_bytes(v, w)) == v,
        le_bytes(v, w).len() == w,
    decreases w,
{
    if w == 0 {
        vstd::arithmetic::power::lemma_pow0(256);
    } else {
        let b = le_bytes(v, w);
        vstd::arithmetic::power::lemma_pow_adds(256, 1, (w - 1) as nat);
        vstd::arithmetic::power::lemma_pow1(256);
        lemma_fundamental_div_mod(v as int, 256);
        lemma_div_by_multiple_is_strongly_ordered(v as int, pow(256, w) as int, pow(256, (w - 1) as nat) as int, 256) ;
        lemma_le_bytes_value(v / 256, (w - 1) as nat);
        assert(b.subrange(1, b.len() as int) =~= le_bytes(v / 256, (w - 1) as nat));
    }
}

/// The modulus is below `256^byte_width`.
pub proof fn lemma_width_bound(m: nat)
    ensures
        m < pow(256, byte_width(m)),
        byte_width(m) >= 1,
    decreases m,
{
    vstd::arithmetic::power::lemma_pow1(256);
    if m >= 256 {
        lemma_width_bound(m / 256);
        vstd::arithmetic::power::lemma_pow_adds(256, 1, byte_width(m / 256));
        lemma_fundamental_div_mod(m as int, 256);
        assert(m < 256 * pow(256, byte_width(m / 256))) by (nonlinear_arith)
            requires
                m == 256 * (m / 256) + m % 256,
                m % 256 < 256,
                m / 256 < pow(256, byte_width(m / 256)),
        ;
    }
}

/// Appends zero bytes up to `width`; the value is unchanged.
fn pad_zeros(bytes: &mut Vec<u8>, width: usize)
    requires
        old(bytes)@.len() <= width,
    ensures
        final(bytes)@.len() == width,
        le_value(final(bytes)@) == le_value(old(bytes)@),
{
    while bytes.len() < width
        invariant
            bytes@.len() <= width,
            le_value(bytes@) == le_value(old(bytes)@),
        decreases width - bytes@.len(),
    {
        proof {
            lemma_le_value_push_zero(bytes@);
        }
        bytes.push(0);
    }
}

pub proof fn lemma_le_value_push_zero(b: Seq<u8>)
    ensures
        le_value(b.push(0)) == le_value(b),
    decreases b.len(),
{
    if b.len() > 0 {
        let t = b.subrange(1, b.len() as int);
        let c = b.push(0);
        lemma_le_value_push_zero(t);
        assert(c.subrange(1, c.len() as int) =~= t.push(0));
        assert(le_value(c) == c[0] as nat + 256 * le_value(c.subrange(1, c.len() as int)));
    } else {
        let c = b.push(0);
        assert(c.subrange(1, c.len() as int) =~= Seq::<u8>::empty());
        assert(le_value(c) == c[0] as nat + 256 * le_value(c.subrange(1, c.len() as int)));
    }
}

/// A modulus of `w` bytes is at least `256^(w−1)`.
pub proof fn lemma_width_floor(m: nat)
    requires
        m > 0,
    ensures
        m >= pow(256, (byte_width(m) - 1) as nat),
    decreases m,
{
    if m < 256 {
        vstd::arithmetic::power::lemma_pow0(256);
    } else {
        lemma_width_floor(m / 256);
        let w1 = (byte_width(m / 256) - 1) as nat;
        vstd::arithmetic::power::lemma_pow_adds(256, 1, w1);
        vstd::arithmetic::power::lemma_pow1(256);
        lemma_fundamental_div_mod(m as int, 256);
        assert(byte_width(m) - 1 == 1 + w1);
        assert(m >= 256 * pow(256, w1)) by (nonlinear_arith)
            requires
                m == 256 * (m / 256) + m % 256,
                m % 256 >= 0,
                m / 256 >= pow(256, w1),
        ;
    }
}

/// A value written in `b.len()` bytes is below `256^b.len()`.
pub proof fn lemma_le_value_bound(b: Seq<u8>)
    ensures
        le_value(b) < pow(256, b.len()),
    decreases b.len(),
{
    if b.len() == 0 {
        vstd::arithmetic::power::lemma_pow0(256);
    } else {
        let t = b.subrange(1, b.len() as int);
        lemma_le_value_bound(t);
        vstd::arithmetic::power::lemma_pow_adds(256, 1, t.len());
        vstd::arithmetic::power::lemma_pow1(256);
        assert(le_value(b) < 256 * pow(256, t.len())) by (nonlinear_arith)
            requires
                le_value(b) == b[0] as nat + 256 * le_value(t),
                b[0] < 256,
                le_value(t) < pow(256, t.len()),
        ;
    }
}

/// The shortest writing of a value has `byte_width` bytes.
pub proof fn lemma_canonical_width(b: Seq<u8>)
    requires
        canonical_bytes(b),
    ensures
        b.len() == byte_width(le_value(b)),
    decreases b.len(),
{
    let t = b.subrange(1, b.len() as int);
    if b.len() == 1 {
        assert(t.len() == 0);
        assert(le_value(t) == 0);
    } else {
        assert(t[t.len() - 1] == b[b.len() - 1]);
        lemma_canonical_width(t);
        lemma_le_value_positive(t);
        let v = le_value(b);
        assert(v == b[0] as nat + 256 * le_value(t));
        lemma_fundamental_div_mod(v as int, 256);
        assert(v / 256 == le_value(t)) by {
            lemma_div_multiples_vanish_fancy(le_value(t) as int, b[0] as int, 256);
        }
    }
}

proof fn lemma_le_value_positive(b: Seq<u8>)
    requires
        b.len() >= 1,
        b[b.len() - 1] != 0,
    ensures
        le_value(b) > 0,
    decreases b.len(),
{
    if b.len() > 1 {
        let t = b.subrange(1, b.len() as int);
        assert(t[t.len() - 1] == b[b.len() - 1]);
        lemma_le_value_positive(t);
    }
}

proof fn lemma_width_monotonic(a: nat, b: nat)
    requires
        a <= b,
    ensures
        byte_width(a) <= byte_width(b),
    decreases b,
{
    if a >= 256 {
        lemma_div_is_ordered(a as int, b as int, 256);
        lemma_width_monotonic(a / 256, b / 256);
    }
}

proof fn lemma_inverse_normalized(a: int, n: int, m: int, neg: bool, y: int, r: int)
    requires
        n > 1,
        0 <= a < n,
        m >= 0,
        a * (if neg { -m } else { m }) + n * y == 1,
        r == (if neg { (n - m % n) % n } else { m % n }),
    ensures
        (a * r) % n == 1,
{
    let x = if neg { -m } else { m };
    assert(r % n == x % n) by {
        lemma_fundamental_div_mod(m, n);
        lemma_mod_bound(m, n);
        let q = m / n;
        let k = m % n;
        if neg {
            lemma_mod_twice(n - k, n);
            assert(n - k == x + (q + 1) * n) by (nonlinear_arith)
                requires
                    m == n * q + k,
                    x == -m,
            ;
            lemma_mod_multiples_vanish(q + 1, x, n);
        } else {
            lemma_mod_twice(m, n);
        }
    }
    lemma_mul_mod_noop_right(a, r, n);
    lemma_mul_mod_noop_right(a, x, n);
    assert((a * r) % n == (a * x) % n);
    assert(a * x == n * (-y) + 1) by (nonlinear_arith)
        requires
            a * x + n * y == 1,
    ;
    lemma_mod_multiples_vanish(-y, 1, n);
    lemma_small_mod(1, n as nat);
    assert((a * x) % n == 1);
}

} // verus!
