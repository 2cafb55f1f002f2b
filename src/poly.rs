//! Dense polynomials over `Zn<N>`, least significant coefficient first,
//! without trailing zero coefficients.
use vstd::prelude::*;
use vstd::arithmetic::div_mod::*;

use crate::algo::gcd;
use crate::zn::{BigPrime, Zn};

verus! {

/// The residues of a sequence of coefficients.
pub open spec fn vals<N: BigPrime>(s: Seq<Zn<N>>) -> Seq<nat> {
    Seq::new(s.len(), |i: int| s[i].val())
}

/// No trailing zero coefficient.
pub open spec fn trimmed(s: Seq<nat>) -> bool {
    s.len() == 0 || s.last() != 0
}

/// `s` without its trailing zero coefficients.
pub open spec fn trim(s: Seq<nat>) -> Seq<nat>
    decreases s.len(),
{
    if s.len() > 0 && s.last() == 0 {
        trim(s.drop_last())
    } else {
        s
    }
}

/// Coefficient `i`, zero beyond the end.
pub open spec fn coeff(s: Seq<nat>, i: int) -> nat {
    if 0 <= i < s.len() {
        s[i]
    } else {
        0
    }
}

/// Coefficientwise sum modulo `n`.
pub open spec fn poly_add(a: Seq<nat>, b: Seq<nat>, n: nat) -> Seq<nat> {
    let len = if a.len() >= b.len() { a.len() } else { b.len() };
    trim(Seq::new(len, |i: int| (((coeff(a, i) + coeff(b, i)) as int) % (n as int)) as nat))
}

/// Coefficientwise difference modulo `n`.
pub open spec fn poly_sub(a: Seq<nat>, b: Seq<nat>, n: nat) -> Seq<nat> {
    let len = if a.len() >= b.len() { a.len() } else { b.len() };
    trim(Seq::new(len, |i: int| ((coeff(a, i) - coeff(b, i)) % (n as int)) as nat))
}

/// `Σ_{i < m} a_i · b_{k−i}`.
pub open spec fn conv(a: Seq<nat>, b: Seq<nat>, k: int, m: nat) -> nat
    decreases m,
{
    if m == 0 {
        0
    } else {
        conv(a, b, k, (m - 1) as nat) + coeff(a, m - 1) * coeff(b, k - (m - 1))
    }
}

/// The product modulo `n`: coefficient `k` is `Σ_{i+j=k} a_i · b_j`.
pub open spec fn poly_mul(a: Seq<nat>, b: Seq<nat>, n: nat) -> Seq<nat> {
    if a.len() == 0 || b.len() == 0 {
        Seq::empty()
    } else {
        trim(Seq::new((a.len() + b.len() - 1) as nat, |k: int| conv(a, b, k, a.len()) % n))
    }
}

proof fn lemma_vals_push<N: BigPrime>(s: Seq<Zn<N>>, x: Zn<N>)
    ensures
        vals(s.push(x)) =~= vals(s).push(x.val()),
{
}

proof fn lemma_trim(s: Seq<nat>)
    ensures
        trimmed(trim(s)),
        trim(s).len() <= s.len(),
        trim(s) =~= s.take(trim(s).len() as int),
    decreases s.len(),
{
    if s.len() > 0 && s.last() == 0 {
        lemma_trim(s.drop_last());
    }
}


proof fn lemma_coeff_trim(s: Seq<nat>, k: int)
    ensures
        coeff(trim(s), k) == coeff(s, k),
    decreases s.len(),
{
    if s.len() > 0 && s.last() == 0 {
        lemma_coeff_trim(s.drop_last(), k);
    }
}

/// Trimmed sequences with the same coefficients are equal.
proof fn lemma_trim_ext(x: Seq<nat>, y: Seq<nat>)
    requires
        trimmed(x),
        trimmed(y),
        forall|k: int| 0 <= k ==> #[trigger] coeff(x, k) == coeff(y, k),
    ensures
        x == y,
{
    if x.len() < y.len() {
        assert(coeff(y, y.len() - 1) == coeff(x, y.len() - 1));
    } else if y.len() < x.len() {
        assert(coeff(x, x.len() - 1) == coeff(y, x.len() - 1));
    } else {
        assert forall|i: int| 0 <= i < x.len() implies x[i] == y[i] by {
            assert(coeff(x, i) == coeff(y, i));
        }
        assert(x =~= y);
    }
}

proof fn lemma_conv_zero(a: Seq<nat>, b: Seq<nat>, k: int, m: nat)
    requires
        forall|i: int| 0 <= i < m ==> #[trigger] (coeff(a, i) * coeff(b, k - i)) == 0,
    ensures
        conv(a, b, k, m) == 0,
    decreases m,
{
    if m > 0 {
        lemma_conv_zero(a, b, k, (m - 1) as nat);
        assert(coeff(a, m - 1) * coeff(b, k - (m - 1)) == 0);
    }
}

/// Coefficients that agree below `m` give the same partial sum.
proof fn lemma_conv_agree(a: Seq<nat>, a2: Seq<nat>, b: Seq<nat>, k: int, m: nat)
    requires
        forall|i: int| 0 <= i < m ==> #[trigger] coeff(a, i) == coeff(a2, i),
    ensures
        conv(a, b, k, m) == conv(a2, b, k, m),
    decreases m,
{
    if m > 0 {
        lemma_conv_agree(a, a2, b, k, (m - 1) as nat);
        assert(coeff(a, m - 1) == coeff(a2, m - 1));
    }
}

/// Zero coefficients from `m1` to `m2` add nothing.
proof fn lemma_conv_extend(a: Seq<nat>, b: Seq<nat>, k: int, m1: nat, m2: nat)
    requires
        m1 <= m2,
        forall|i: int| m1 <= i < m2 ==> #[trigger] coeff(a, i) == 0,
    ensures
        conv(a, b, k, m2) == conv(a, b, k, m1),
    decreases m2,
{
    if m2 > m1 {
        lemma_conv_extend(a, b, k, m1, (m2 - 1) as nat);
        assert(coeff(a, m2 - 1) == 0);
        vstd::arithmetic::mul::lemma_mul_basics(coeff(b, k - (m2 - 1)) as int);
    }
}

/// Setting a zero coefficient `d` to `c` adds `c · b_{k−d}`.
proof fn lemma_conv_update(a: Seq<nat>, b: Seq<nat>, k: int, m: nat, d: int, c: nat)
    requires
        0 <= d < a.len(),
        d < m,
        a[d] == 0,
    ensures
        conv(a.update(d, c), b, k, m) == conv(a, b, k, m) + c * coeff(b, k - d),
    decreases m,
{
    let a2 = a.update(d, c);
    if m - 1 > d {
        lemma_conv_update(a, b, k, (m - 1) as nat, d, c);
        assert(coeff(a2, m - 1) == coeff(a, m - 1));
    } else {
        assert forall|i: int| 0 <= i < m - 1 implies #[trigger] coeff(a, i) == coeff(a2, i) by {}
        lemma_conv_agree(a, a2, b, k, (m - 1) as nat);
        assert(coeff(a, d) == 0);
        vstd::arithmetic::mul::lemma_mul_basics(coeff(b, k - d) as int);
    }
}

proof fn lemma_add_trimmed(a: Seq<nat>, b: Seq<nat>, n: nat)
    ensures
        trimmed(poly_add(a, b, n)),
{
    let len = if a.len() >= b.len() { a.len() } else { b.len() };
    lemma_trim(Seq::new(len, |i: int| (((coeff(a, i) + coeff(b, i)) as int) % (n as int)) as nat));
}

proof fn lemma_mul_coeff(a: Seq<nat>, b: Seq<nat>, n: nat, k: int)
    requires
        n > 0,
        k >= 0,
    ensures
        coeff(poly_mul(a, b, n), k) == conv(a, b, k, a.len()) % n,
{
    if a.len() == 0 {
        lemma_small_mod(0, n);
    } else if b.len() == 0 {
        assert forall|i: int| 0 <= i < a.len() implies #[trigger] (coeff(a, i) * coeff(b, k - i)) == 0 by {
            vstd::arithmetic::mul::lemma_mul_basics(coeff(a, i) as int);
        }
        lemma_conv_zero(a, b, k, a.len());
        lemma_small_mod(0, n);
    } else {
        let raw = Seq::new((a.len() + b.len() - 1) as nat, |j: int| conv(a, b, j, a.len()) % n);
        lemma_coeff_trim(raw, k);
        if k >= a.len() + b.len() - 1 {
            assert forall|i: int| 0 <= i < a.len() implies #[trigger] (coeff(a, i) * coeff(b, k - i)) == 0 by {
                assert(coeff(b, k - i) == 0);
                vstd::arithmetic::mul::lemma_mul_basics(coeff(a, i) as int);
            }
            lemma_conv_zero(a, b, k, a.len());
            lemma_small_mod(0, n);
        }
    }
}

proof fn lemma_add_coeff(a: Seq<nat>, b: Seq<nat>, n: nat, k: int)
    requires
        n > 0,
        k >= 0,
    ensures
        coeff(poly_add(a, b, n), k) == (((coeff(a, k) + coeff(b, k)) as int) % (n as int)) as nat,
{
    let len = if a.len() >= b.len() { a.len() } else { b.len() };
    let raw = Seq::new(len, |i: int| (((coeff(a, i) + coeff(b, i)) as int) % (n as int)) as nat);
    lemma_coeff_trim(raw, k);
    lemma_small_mod(0, n);
}

proof fn lemma_sub_coeff(a: Seq<nat>, b: Seq<nat>, n: nat, k: int)
    requires
        n > 0,
        k >= 0,
    ensures
        coeff(poly_sub(a, b, n), k) == ((coeff(a, k) - coeff(b, k)) % (n as int)) as nat,
{
    let len = if a.len() >= b.len() { a.len() } else { b.len() };
    let raw = Seq::new(len, |i: int| ((coeff(a, i) - coeff(b, i)) % (n as int)) as nat);
    lemma_coeff_trim(raw, k);
    lemma_small_mod(0, n);
}

proof fn lemma_shifted_coeff(c: nat, d: nat, p: Seq<nat>, n: nat, k: int)
    requires
        n > 0,
        k >= 0,
    ensures
        coeff(trim(shifted(c, d, p, n)), k) == (c * coeff(p, k - d)) % n,
{
    lemma_coeff_trim(shifted(c, d, p, n), k);
    vstd::arithmetic::mul::lemma_mul_basics(c as int);
    lemma_small_mod(0, n);
}

/// Taking `x` off and putting `x % n` back changes nothing modulo `n`.
proof fn lemma_mod_step(c: int, x: int, r: int, n: int)
    requires
        n > 0,
    ensures
        (c + x + ((r - x % n) % n)) % n == (c + r) % n,
{
    lemma_fundamental_div_mod(x, n);
    lemma_fundamental_div_mod(r - x % n, n);
    let q1 = x / n;
    let q2 = (r - x % n) / n;
    assert(c + x + ((r - x % n) % n) == (c + r) + n * (q1 - q2)) by (nonlinear_arith)
        requires
            x == n * q1 + x % n,
            r - x % n == n * q2 + (r - x % n) % n,
    ;
    assert(n * (q1 - q2) == (q1 - q2) * n) by (nonlinear_arith);
    lemma_mod_multiples_vanish(q1 - q2, c + r, n);
}

/// `coeff · x^degree`.
pub struct Monome<N: BigPrime> {
    pub coeff: Zn<N>,
    pub degree: usize,
}

/// A polynomial over `Zn<N>`.
pub struct Poly<N: BigPrime> {
    coeffs: Vec<Zn<N>>,
}

impl<N: BigPrime> Poly<N> {
    #[verifier::type_invariant]
    spec fn is_trimmed(&self) -> bool {
        trimmed(vals(self.coeffs@))
    }

    /// The coefficients, least significant first.
    pub closed spec fn spec_coeffs(&self) -> Seq<nat> {
        vals(self.coeffs@)
    }

    /// The coefficients; the last one, if any, is nonzero.
    pub fn coefficients(&self) -> (r: Vec<Zn<N>>)
        ensures
            vals(r@) == self.spec_coeffs(),
            trimmed(self.spec_coeffs()),
    {
        proof {
            use_type_invariant(self);
        }
        let mut r: Vec<Zn<N>> = Vec::new();
        let mut i: usize = 0;
        while i < self.coeffs.len()
            invariant
                i <= self.coeffs@.len(),
                vals(r@) == vals(self.coeffs@).take(i as int),
            decreases self.coeffs@.len() - i,
        {
            let ghost prev = r@;
            let x = self.coeffs[i].copy();
            r.push(x);
            proof {
                lemma_vals_push(prev, x);
            }
            i = i + 1;
            assert(vals(r@) =~= vals(self.coeffs@).take(i as int));
        }
        assert(vals(self.coeffs@).take(i as int) =~= vals(self.coeffs@));
        r
    }

    /// The polynomial with the given coefficients, trailing zeros dropped.
    pub fn from_vec(coeffs: Vec<Zn<N>>) -> (r: Self)
        ensures
            r.spec_coeffs() == trim(vals(coeffs@)),
    {
        let mut coeffs = coeffs;
        let ghost c0 = vals(coeffs@);
        let mut n = coeffs.len();
        assert(c0.take(n as int) =~= c0);
        while n > 0 && coeffs[n - 1].is_zero()
            invariant
                n <= coeffs@.len(),
                vals(coeffs@) == c0,
                trim(c0.take(n as int)) == trim(c0),
            decreases n,
        {
            proof {
                assert(c0.take(n as int).drop_last() =~= c0.take(n - 1));
            }
            n = n - 1;
        }
        coeffs.truncate(n);
        proof {
            assert(vals(coeffs@) =~= c0.take(n as int));
        }
        Poly { coeffs }
    }

    pub fn zero() -> (r: Self)
        ensures
            r.spec_coeffs() == Seq::<nat>::empty(),
    {
        let r = Poly { coeffs: Vec::new() };
        assert(r.spec_coeffs() =~= Seq::<nat>::empty());
        r
    }

    /// `len − 1`, and `0` for the zero polynomial.
    pub fn degree(&self) -> (r: usize)
        ensures
            r == (if self.spec_coeffs().len() == 0 { 0 } else { self.spec_coeffs().len() - 1 }),
    {
        if self.coeffs.len() == 0 {
            0
        } else {
            self.coeffs.len() - 1
        }
    }

    pub fn is_zero(&self) -> (r: bool)
        ensures
            r == (self.spec_coeffs().len() == 0),
    {
        self.coeffs.len() == 0
    }

    /// The leading term, for a nonzero polynomial.
    pub fn eldest_monome(&self) -> (r: Option<Monome<N>>)
        ensures
            self.spec_coeffs().len() == 0 ==> r.is_none(),
            self.spec_coeffs().len() > 0 ==> r.is_some() && r->0.degree == self.spec_coeffs().len()
                - 1 && r->0.coeff.val() == self.spec_coeffs().last(),
    {
        if self.coeffs.len() == 0 {
            None
        } else {
            let d = self.coeffs.len() - 1;
            Some(Monome { coeff: self.coeffs[d].copy(), degree: d })
        }
    }

    /// Coefficient `i`, zero beyond the end.
    fn coeff_at(&self, i: usize) -> (r: Zn<N>)
        ensures
            r.val() == coeff(self.spec_coeffs(), i as int),
    {
        if i < self.coeffs.len() {
            self.coeffs[i].copy()
        } else {
            Zn::zero()
        }
    }

    pub fn add(&self, o: &Self) -> (r: Self)
        ensures
            r.spec_coeffs() == poly_add(self.spec_coeffs(), o.spec_coeffs(), N::spec_value()),
    {
        let len = if self.coeffs.len() >= o.coeffs.len() { self.coeffs.len() } else { o.coeffs.len() };
        let ghost (a, b, n) = (self.spec_coeffs(), o.spec_coeffs(), N::spec_value());
        let mut c: Vec<Zn<N>> = Vec::new();
        let mut i: usize = 0;
        while i < len
            invariant
                i <= len,
                len == (if a.len() >= b.len() { a.len() } else { b.len() }),
                a == self.spec_coeffs(),
                b == o.spec_coeffs(),
                n == N::spec_value(),
                vals(c@).len() == i,
                forall|k: int| 0 <= k < i ==> #[trigger] vals(c@)[k] == (coeff(a, k) + coeff(b, k)) % n,
            decreases len - i,
        {
            let ghost prev = c@;
            let x = self.coeff_at(i).add(&o.coeff_at(i));
            c.push(x);
            proof {
                lemma_vals_push(prev, x);
            }
            i = i + 1;
        }
        assert(vals(c@) =~= Seq::new(len as nat, |k: int| (((coeff(a, k) + coeff(b, k)) as int) % (n as int)) as nat));
        Self::from_vec(c)
    }

    pub fn sub(&self, o: &Self) -> (r: Self)
        ensures
            r.spec_coeffs() == poly_sub(self.spec_coeffs(), o.spec_coeffs(), N::spec_value()),
    {
        let len = if self.coeffs.len() >= o.coeffs.len() { self.coeffs.len() } else { o.coeffs.len() };
        let mut c: Vec<Zn<N>> = Vec::new();
        let mut i: usize = 0;
        assert(vals(c@) =~= Seq::new(0nat, |k: int| ((coeff(self.spec_coeffs(), k) - coeff(o.spec_coeffs(), k)) % (N::spec_value() as int)) as nat));
        while i < len
            invariant
                i <= len,
                len == (if self.spec_coeffs().len() >= o.spec_coeffs().len() { self.spec_coeffs().len() } else { o.spec_coeffs().len() }),
                vals(c@) == Seq::new(i as nat, |k: int| ((coeff(self.spec_coeffs(), k) - coeff(o.spec_coeffs(), k)) % (N::spec_value() as int)) as nat),
            decreases len - i,
        {
            let ghost prev = c@;
            let x = self.coeff_at(i).sub(&o.coeff_at(i));
            c.push(x);
            proof {
                lemma_vals_push(prev, x);
            }
            i = i + 1;
            assert(vals(c@) =~= Seq::new(i as nat, |k: int| ((coeff(self.spec_coeffs(), k) - coeff(o.spec_coeffs(), k)) % (N::spec_value() as int)) as nat));
        }
        Self::from_vec(c)
    }
}


impl<N: BigPrime> Poly<N> {
    /// Schoolbook multiplication: `a_i · b_j` is added into coefficient `i + j`.
    pub fn mul(&self, o: &Self) -> (r: Self)
        requires
            self.spec_coeffs().len() + o.spec_coeffs().len() <= usize::MAX,
        ensures
            r.spec_coeffs() == poly_mul(self.spec_coeffs(), o.spec_coeffs(), N::spec_value()),
    {
        let ghost (a, b, n) = (self.spec_coeffs(), o.spec_coeffs(), N::spec_value());
        if self.coeffs.len() == 0 || o.coeffs.len() == 0 {
            return Self::zero();
        }
        let m = N::value();
        let la = self.coeffs.len();
        let lb = o.coeffs.len();
        let total = la + lb - 1;
        let mut c: Vec<Zn<N>> = Vec::new();
        while c.len() < total
            invariant
                c@.len() <= total,
                forall|k: int| 0 <= k < c@.len() ==> #[trigger] vals(c@)[k] == conv(a, b, k, 0) % n,
                n > 1,
            decreases total - c@.len(),
        {
            let ghost prev = c@;
            let z = Zn::<N>::zero();
            c.push(z);
            proof {
                lemma_vals_push(prev, z);
                lemma_small_mod(0, n);
            }
        }
        let mut i: usize = 0;
        while i < la
            invariant
                la == a.len(),
                lb == b.len(),
                total == la + lb - 1,
                a == self.spec_coeffs(),
                b == o.spec_coeffs(),
                n == N::spec_value(),
                n > 1,
                i <= la,
                c@.len() == total,
                forall|k: int| 0 <= k < total ==> #[trigger] vals(c@)[k] == conv(a, b, k, i as nat) % n,
            decreases la - i,
        {
            let ai = self.coeffs[i].copy();
            let mut j: usize = 0;
            while j < lb
                invariant
                    la == a.len(),
                    lb == b.len(),
                    total == la + lb - 1,
                    a == self.spec_coeffs(),
                    b == o.spec_coeffs(),
                    n == N::spec_value(),
                    n > 1,
                    i < la,
                    j <= lb,
                    ai.val() == a[i as int],
                    c@.len() == total,
                    forall|k: int|
                        0 <= k < total ==> #[trigger] vals(c@)[k] == (if i <= k < i + j {
                            conv(a, b, k, (i + 1) as nat)
                        } else {
                            conv(a, b, k, i as nat)
                        }) % n,
                decreases lb - j,
            {
                let k = i + j;
                let prod = ai.mul(&o.coeffs[j]);
                let sum = c[k].add(&prod);
                proof {
                    let x = conv(a, b, k as int, i as nat);
                    let y = a[i as int] * b[j as int];
                    assert(vals(c@)[k as int] == c@[k as int].val());
                    lemma_add_mod_noop(x as int, y as int, n as int);
                    lemma_mod_twice(y as int, n as int);
                    lemma_mod_twice(x as int, n as int);
                    assert(conv(a, b, k as int, (i + 1) as nat) == x + coeff(a, i as int) * coeff(b, k - i));
                }
                let ghost prev = c@;
                c.set(k, sum);
                proof {
                    assert forall|t: int| 0 <= t < total implies #[trigger] vals(c@)[t] == (if i <= t < i + j + 1 {
                        conv(a, b, t, (i + 1) as nat)
                    } else {
                        conv(a, b, t, i as nat)
                    }) % n by {
                        if t != k {
                            assert(vals(c@)[t] == vals(prev)[t]);
                        }
                    }
                }
                j = j + 1;
            }
            proof {
                assert(j == lb);
                assert forall|t: int| 0 <= t < total implies #[trigger] vals(c@)[t] == conv(a, b, t, (i + 1) as nat) % n by {
                    if !(i <= t < i + lb) {
                        let ca = coeff(a, i as int);
                        assert(conv(a, b, t, (i + 1) as nat) == conv(a, b, t, i as nat) + ca * coeff(b, t - i));
                        assert(coeff(b, t - i) == 0);
                        vstd::arithmetic::mul::lemma_mul_basics(ca as int);
                        assert(conv(a, b, t, (i + 1) as nat) == conv(a, b, t, i as nat));
                    } else {
                        assert(i <= t < i + j);
                    }
                }
            }
            i = i + 1;
        }
        assert(vals(c@) =~= Seq::new((a.len() + b.len() - 1) as nat, |k: int| conv(a, b, k, a.len()) % n));
        Self::from_vec(c)
    }
}


impl<N: BigPrime> PartialEq for Poly<N> {
    fn eq(&self, o: &Self) -> (r: bool) {
        self.equals(o)
    }
}

impl<N: BigPrime> vstd::std_specs::cmp::PartialEqSpecImpl for Poly<N> {
    open spec fn obeys_eq_spec() -> bool {
        true
    }

    open spec fn eq_spec(&self, o: &Self) -> bool {
        self.spec_coeffs() == o.spec_coeffs()
    }
}

/// `c · x^d · p` written out, before trimming.
pub open spec fn shifted(c: nat, d: nat, p: Seq<nat>, n: nat) -> Seq<nat> {
    Seq::new(d + p.len(), |k: int| if k < d { 0 } else { (((c * p[k - d]) as int) % (n as int)) as nat })
}

impl<N: BigPrime> Monome<N> {
    pub fn copy(&self) -> (r: Self)
        ensures
            r.coeff.val() == self.coeff.val(),
            r.degree == self.degree,
    {
        Monome { coeff: self.coeff.copy(), degree: self.degree }
    }

    /// The quotient of two terms, for a divisor of no higher degree whose
    /// coefficient is a unit.
    pub fn div(&self, rhs: &Self) -> (r: Self)
        requires
            self.degree >= rhs.degree,
            gcd(rhs.coeff.val(), N::spec_value()) == 1,
        ensures
            r.degree == self.degree - rhs.degree,
            (r.coeff.val() * rhs.coeff.val()) % N::spec_value() == self.coeff.val(),
    {
        Monome { coeff: self.coeff.div(&rhs.coeff), degree: self.degree - rhs.degree }
    }

    /// `coeff · x^degree · p`.
    pub fn mul(&self, p: &Poly<N>) -> (r: Poly<N>)
        requires
            self.degree + p.spec_coeffs().len() <= usize::MAX,
        ensures
            r.spec_coeffs() == trim(shifted(self.coeff.val(), self.degree as nat, p.spec_coeffs(), N::spec_value())),
    {
        let ghost target = shifted(self.coeff.val(), self.degree as nat, p.spec_coeffs(), N::spec_value());
        let mut c: Vec<Zn<N>> = Vec::new();
        let m = N::value();
        while c.len() < self.degree
            invariant
                c@.len() <= self.degree,
                forall|k: int| 0 <= k < c@.len() ==> #[trigger] vals(c@)[k] == target[k],
                target == shifted(self.coeff.val(), self.degree as nat, p.spec_coeffs(), N::spec_value()),
                N::spec_value() > 1,
            decreases self.degree - c@.len(),
        {
            let ghost prev = c@;
            let z = Zn::<N>::zero();
            c.push(z);
            proof {
                lemma_vals_push(prev, z);
            }
        }
        let mut i: usize = 0;
        while i < p.coeffs.len()
            invariant
                c@.len() == self.degree + i,
                i <= p.coeffs@.len(),
                self.degree + p.spec_coeffs().len() <= usize::MAX,
                forall|k: int| 0 <= k < c@.len() ==> #[trigger] vals(c@)[k] == target[k],
                target == shifted(self.coeff.val(), self.degree as nat, p.spec_coeffs(), N::spec_value()),
            decreases p.coeffs@.len() - i,
        {
            let ghost prev = c@;
            let x = self.coeff.mul(&p.coeffs[i]);
            c.push(x);
            proof {
                lemma_vals_push(prev, x);
            }
            i = i + 1;
        }
        assert(vals(c@) =~= target);
        Poly::from_vec(c)
    }
}

proof fn lemma_trim_keeps(s: Seq<nat>)
    requires
        s.len() > 0,
        s.last() != 0,
    ensures
        trim(s) == s,
{
}

proof fn lemma_trim_drops(s: Seq<nat>)
    requires
        s.len() > 0,
        s.last() == 0,
    ensures
        trim(s).len() < s.len(),
{
    lemma_trim(s.drop_last());
}

impl<N: BigPrime> Poly<N> {
    pub fn copy(&self) -> (r: Self)
        ensures
            r.spec_coeffs() == self.spec_coeffs(),
    {
        proof {
            use_type_invariant(self);
        }
        let c = self.coefficients();
        Poly { coeffs: c }
    }

    /// The quotient of `rem_div`.
    pub fn div(&self, rhs: &Self) -> (r: Self)
        requires
            rhs.spec_coeffs().len() > 0,
            gcd(rhs.spec_coeffs().last(), N::spec_value()) == 1,
        ensures
            exists|rest: Self|
                rest.spec_coeffs().len() < rhs.spec_coeffs().len() && #[trigger] poly_add(
                    poly_mul(r.spec_coeffs(), rhs.spec_coeffs(), N::spec_value()),
                    rest.spec_coeffs(),
                    N::spec_value(),
                ) == self.spec_coeffs(),
    {
        self.rem_div(rhs).1
    }

    /// The remainder of `rem_div`: of lower degree than `rhs`.
    pub fn rem(&self, rhs: &Self) -> (r: Self)
        requires
            rhs.spec_coeffs().len() > 0,
            gcd(rhs.spec_coeffs().last(), N::spec_value()) == 1,
        ensures
            r.spec_coeffs().len() < rhs.spec_coeffs().len(),
            exists|q: Self|
                #[trigger] poly_add(
                    poly_mul(q.spec_coeffs(), rhs.spec_coeffs(), N::spec_value()),
                    r.spec_coeffs(),
                    N::spec_value(),
                ) == self.spec_coeffs(),
    {
        self.rem_div(rhs).0
    }

    pub fn equals(&self, o: &Self) -> (r: bool)
        ensures
            r == (self.spec_coeffs() == o.spec_coeffs()),
    {
        if self.coeffs.len() != o.coeffs.len() {
            assert(vals(self.coeffs@).len() != vals(o.coeffs@).len());
            return false;
        }
        let mut i: usize = 0;
        while i < self.coeffs.len()
            invariant
                i <= self.coeffs@.len(),
                self.coeffs@.len() == o.coeffs@.len(),
                forall|k: int| 0 <= k < i ==> #[trigger] vals(self.coeffs@)[k] == vals(o.coeffs@)[k],
            decreases self.coeffs@.len() - i,
        {
            if !self.coeffs[i].equals(&o.coeffs[i]) {
                assert(vals(self.coeffs@)[i as int] != vals(o.coeffs@)[i as int]);
                return false;
            }
            i = i + 1;
        }
        assert(vals(self.coeffs@) =~= vals(o.coeffs@));
        true
    }

    /// Every coefficient is a residue below `N`.
    fn coefficients_reduced(&self)
        ensures
            forall|i: int| 0 <= i < self.spec_coeffs().len() ==> #[trigger] self.spec_coeffs()[i] < N::spec_value(),
    {
        let mut i: usize = 0;
        while i < self.coeffs.len()
            invariant
                i <= self.coeffs@.len(),
                forall|j: int| 0 <= j < i ==> #[trigger] self.spec_coeffs()[j] < N::spec_value(),
            decreases self.coeffs@.len() - i,
        {
            let _ = self.coeffs[i].to_natural();
            i = i + 1;
        }
    }

    /// Long division by a nonzero divisor whose leading coefficient is a
    /// unit modulo `N`. Returns `(remainder, quotient)`: `self = q·rhs + r`,
    /// with the remainder of lower degree than the divisor.
    pub fn rem_div(&self, rhs: &Self) -> (r: (Self, Self))
        requires
            rhs.spec_coeffs().len() > 0,
            gcd(rhs.spec_coeffs().last(), N::spec_value()) == 1,
        ensures
            r.0.spec_coeffs().len() < rhs.spec_coeffs().len(),
            poly_add(
                poly_mul(r.1.spec_coeffs(), rhs.spec_coeffs(), N::spec_value()),
                r.0.spec_coeffs(),
                N::spec_value(),
            ) == self.spec_coeffs(),
    {
        proof {
            use_type_invariant(rhs);
            use_type_invariant(self);
        }
        let m = N::value();
        let ghost n = N::spec_value();
        let ghost a = self.spec_coeffs();
        let ghost bs = rhs.spec_coeffs();
        self.coefficients_reduced();
        let lead = match rhs.eldest_monome() {
            Some(l) => l,
            None => vstd::pervasive::unreached(),
        };
        let mut quot: Vec<Zn<N>> = Vec::new();
        while quot.len() < self.coeffs.len()
            invariant
                quot@.len() <= a.len(),
                a == self.spec_coeffs(),
                forall|j: int| 0 <= j < quot@.len() ==> #[trigger] vals(quot@)[j] == 0,
                n == N::spec_value(),
                n > 1,
            decreases a.len() - quot@.len(),
        {
            let ghost prev = quot@;
            let z = Zn::<N>::zero();
            quot.push(z);
            proof {
                lemma_vals_push(prev, z);
            }
        }
        let mut rem = self.copy();
        proof {
            assert forall|k: int| 0 <= k implies #[trigger] (((conv(vals(quot@), bs, k, vals(quot@).len())
                + coeff(rem.spec_coeffs(), k)) as int) % (n as int)) == coeff(a, k) by {
                assert forall|i: int| 0 <= i < vals(quot@).len() implies #[trigger] (coeff(vals(quot@), i)
                    * coeff(bs, k - i)) == 0 by {
                    vstd::arithmetic::mul::lemma_mul_basics(coeff(bs, k - i) as int);
                }
                lemma_conv_zero(vals(quot@), bs, k, vals(quot@).len());
                lemma_small_mod(coeff(a, k), n);
            }
        }
        while rem.coeffs.len() >= rhs.coeffs.len()
            invariant
                rhs.spec_coeffs() == bs,
                bs.len() > 0,
                lead.degree == bs.len() - 1,
                lead.coeff.val() == bs.last(),
                gcd(lead.coeff.val(), n) == 1,
                n == N::spec_value(),
                n > 1,
                a == self.spec_coeffs(),
                forall|i: int| 0 <= i < a.len() ==> #[trigger] a[i] < n,
                vals(quot@).len() == a.len(),
                rem.spec_coeffs().len() <= a.len(),
                forall|j: int|
                    0 <= j < a.len() && j + bs.len() <= rem.spec_coeffs().len() ==> #[trigger] vals(quot@)[j] == 0,
                forall|k: int|
                    0 <= k ==> #[trigger] (((conv(vals(quot@), bs, k, a.len()) + coeff(rem.spec_coeffs(), k)) as int)
                        % (n as int)) == coeff(a, k),
            decreases rem.spec_coeffs().len(),
        {
            proof {
                use_type_invariant(&rem);
            }
            let top = match rem.eldest_monome() {
                Some(t) => t,
                None => vstd::pervasive::unreached(),
            };
            let q = top.div(&lead);
            let len = rem.coeffs.len();
            let ghost rs = rem.spec_coeffs();
            let ghost qs = vals(quot@);
            let sub = q.mul(rhs);
            let ghost sh = shifted(q.coeff.val(), q.degree as nat, bs, n);
            let ghost d = q.degree as int;
            let ghost c = q.coeff.val();
            proof {
                assert(sh.len() == len);
                assert(sh.last() == (q.coeff.val() * bs.last()) % n);
                assert(sh.last() == rs.last());
                lemma_trim_keeps(sh);
            }
            let next = rem.sub(&sub);
            proof {
                let ss = sub.spec_coeffs();
                let raw = Seq::new(len as nat, |i: int| ((coeff(rs, i) - coeff(ss, i)) % (n as int)) as nat);
                assert(ss == sh);
                assert(coeff(ss, len - 1) == rs.last());
                assert(coeff(rs, len - 1) == rs.last());
                assert(raw.len() == len);
                assert(raw[len - 1] == ((coeff(rs, len - 1) - coeff(ss, len - 1)) % (n as int)) as nat);
                lemma_small_mod(0, n);
                assert(raw[len - 1] == 0);
                assert(raw.last() == 0);
                lemma_trim_drops(raw);
            }
            let ghost prevq = quot@;
            quot.set(q.degree, q.coeff.copy());
            proof {
                assert(vals(quot@) =~= qs.update(d, c));
                assert(qs[d] == 0);
                let ns = next.spec_coeffs();
                assert forall|k: int| 0 <= k implies #[trigger] (((conv(vals(quot@), bs, k, a.len())
                    + coeff(ns, k)) as int) % (n as int)) == coeff(a, k) by {
                    lemma_conv_update(qs, bs, k, a.len(), d, c);
                    lemma_sub_coeff(rs, sub.spec_coeffs(), n, k);
                    lemma_shifted_coeff(c, d as nat, bs, n, k);
                    let x = c * coeff(bs, k - d);
                    lemma_mod_step(conv(qs, bs, k, a.len()) as int, x as int, coeff(rs, k) as int, n as int);
                    assert((((conv(qs, bs, k, a.len()) + coeff(rs, k)) as int) % (n as int)) == coeff(a, k));
                }
                assert forall|j: int|
                    0 <= j < a.len() && j + bs.len() <= ns.len() implies #[trigger] vals(quot@)[j] == 0 by {
                    assert(j != d);
                    assert(vals(quot@)[j] == qs[j]);
                }
            }
            rem = next;
        }
        let ghost qs = vals(quot@);
        assert(forall|k: int|
            0 <= k ==> #[trigger] (((conv(qs, bs, k, a.len()) + coeff(rem.spec_coeffs(), k)) as int) % (n as int))
                == coeff(a, k));
        assert(qs.len() == a.len());
        rem.coefficients_reduced();
        let quotient = Self::from_vec(quot);
        proof {
            let qt = quotient.spec_coeffs();
            let rs = rem.spec_coeffs();
            lemma_trim(qs);
            let lhs = poly_add(poly_mul(qt, bs, n), rs, n);
            assert forall|k: int| 0 <= k implies #[trigger] coeff(lhs, k) == coeff(a, k) by {
                lemma_add_coeff(poly_mul(qt, bs, n), rs, n, k);
                lemma_mul_coeff(qt, bs, n, k);
                assert forall|i: int| 0 <= i < qt.len() implies #[trigger] coeff(qt, i) == coeff(qs, i) by {}
                lemma_conv_agree(qt, qs, bs, k, qt.len());
                assert forall|i: int| qt.len() <= i < qs.len() implies #[trigger] coeff(qs, i) == 0 by {
                    lemma_coeff_trim(qs, i);
                }
                lemma_conv_extend(qs, bs, k, qt.len(), qs.len());
                let cv = conv(qs, bs, k, qs.len()) as int;
                let rk = coeff(rs, k);
                if k < rs.len() {
                    assert(rs[k] < n);
                }
                assert(rk < n);
                assert(coeff(poly_mul(qt, bs, n), k) == cv % (n as int));
                lemma_add_mod_noop(cv, rk as int, n as int);
                lemma_small_mod(rk, n);
                assert(((cv % (n as int)) + rk) % (n as int) == (cv + rk) % (n as int));
                assert((((conv(qs, bs, k, a.len()) + coeff(rs, k)) as int) % (n as int)) == coeff(a, k));
                assert((cv + rk) % (n as int) == coeff(a, k));
            }
            lemma_add_trimmed(poly_mul(qt, bs, n), rs, n);
            lemma_trim_ext(lhs, a);
        }
        (rem, quotient)
    }
}

} // verus!
