//! Extended Euclid, repeated application of an associative operation, and
//! trial-division primality.
use vstd::prelude::*;

use crate::natural::{Integer, Natural};

verus! {

/// Greatest common divisor, by Euclid's recursion.
pub open spec fn gcd(a: nat, b: nat) -> nat
    decreases b,
{
    if b == 0 {
        a
    } else {
        gcd(b, a % b)
    }
}

/// Returns `(g, x, y)` such that `a * x + b * y = g = gcd(a, b)`.
pub fn extended_gcd(a: &Integer, b: &Integer) -> (res: (Integer, Integer, Integer))
    requires
        a.val() >= 0,
        b.val() >= 0,
    ensures
        a.val() * res.1.val() + b.val() * res.2.val() == res.0.val(),
        res.0.val() == gcd(a.val() as nat, b.val() as nat),
{
    let mut old_r = a.copy();
    let mut r = b.copy();
    let mut old_s = Integer::from_u64(1);
    let mut s = Integer::from_u64(0);
    let mut old_t = Integer::from_u64(0);
    let mut t = Integer::from_u64(1);
    while !r.is_zero()
        invariant
            old_r.val() >= 0,
            r.val() >= 0,
            a.val() * old_s.val() + b.val() * old_t.val() == old_r.val(),
            a.val() * s.val() + b.val() * t.val() == r.val(),
            gcd(old_r.val() as nat, r.val() as nat) == gcd(a.val() as nat, b.val() as nat),
        decreases r.val(),
    {
        let quot = old_r.div(&r);
        let next_r = old_r.sub(&quot.mul(&r));
        let next_s = old_s.sub(&quot.mul(&s));
        let next_t = old_t.sub(&quot.mul(&t));
        proof {
            let (ov, rv, q) = (old_r.val(), r.val(), quot.val());
            assert(ov == q * rv + ov % rv) by {
                vstd::arithmetic::div_mod::lemma_fundamental_div_mod(ov, rv);
            }
            assert(next_r.val() == ov % rv);
            let (av, bv) = (a.val(), b.val());
            let (os, ss, ot, tt) = (old_s.val(), s.val(), old_t.val(), t.val());
            assert(av * (os - q * ss) + bv * (ot - q * tt) == ov - q * rv) by (nonlinear_arith)
                requires
                    av * os + bv * ot == ov,
                    av * ss + bv * tt == rv,
            ;
        }
        old_r = r;
        r = next_r;
        old_s = s;
        s = next_s;
        old_t = t;
        t = next_t;
    }
    (old_r, old_s, old_t)
}

/// Bezout: `gcd(a, b)` is an integer combination of `a` and `b`.
pub proof fn lemma_bezout(a: nat, b: nat)
    ensures
        exists|x: int, y: int| #[trigger] (a * x) + #[trigger] (b * y) == gcd(a, b) as int,
    decreases b,
{
    if b == 0 {
        assert(a * 1 + b * 0 == gcd(a, b) as int);
    } else {
        let r = a % b;
        lemma_bezout(b, r);
        let (x1, y1) = choose|x: int, y: int| #[trigger] (b * x) + #[trigger] (r * y) == gcd(b, r) as int;
        let q = a / b;
        vstd::arithmetic::div_mod::lemma_fundamental_div_mod(a as int, b as int);
        let x = y1;
        let y = x1 - q * y1;
        assert(a * x + b * y == b * x1 + r * y1) by (nonlinear_arith)
            requires
                a == b * q + r,
                x == y1,
                y == x1 - q * y1,
        ;
    }
}

/// `gcd(a, b)` divides both `a` and `b`.
pub proof fn lemma_gcd_divides(a: nat, b: nat)
    ensures
        exists|k: int| a == #[trigger] (gcd(a, b) * k),
        exists|k: int| b == #[trigger] (gcd(a, b) * k),
    decreases b,
{
    let g = gcd(a, b);
    if b == 0 {
        assert(a == g * 1);
        assert(b == g * 0);
    } else {
        let r = a % b;
        lemma_gcd_divides(b, r);
        let k1 = choose|k: int| b == #[trigger] (gcd(b, r) * k);
        let k2 = choose|k: int| r == #[trigger] (gcd(b, r) * k);
        let q = a / b;
        vstd::arithmetic::div_mod::lemma_fundamental_div_mod(a as int, b as int);
        assert(a == g * (q * k1 + k2)) by (nonlinear_arith)
            requires
                a == b * q + r,
                b == g * k1,
                r == g * k2,
        ;
    }
}

/// Every common divisor of `a` and `b` divides `gcd(a, b)`.
pub proof fn lemma_gcd_greatest(a: nat, b: nat, d: int, ka: int, kb: int)
    requires
        a == d * ka,
        b == d * kb,
    ensures
        exists|k: int| gcd(a, b) == #[trigger] (d * k),
{
    lemma_bezout(a, b);
    let (x, y) = choose|x: int, y: int| #[trigger] (a * x) + #[trigger] (b * y) == gcd(a, b) as int;
    assert(gcd(a, b) == d * (ka * x + kb * y)) by (nonlinear_arith)
        requires
            a * x + b * y == gcd(a, b),
            a == d * ka,
            b == d * kb,
    ;
}

/// A combination `a·x + n·y = 1` makes `a` and `n` coprime.
pub proof fn lemma_coprime_from_combination(a: nat, n: nat, x: int, y: int)
    requires
        a * x + n * y == 1,
    ensures
        gcd(a, n) == 1,
{
    lemma_gcd_divides(a, n);
    let g = gcd(a, n);
    let k1 = choose|k: int| a == #[trigger] (g * k);
    let k2 = choose|k: int| n == #[trigger] (g * k);
    assert(g * (k1 * x + k2 * y) == 1) by (nonlinear_arith)
        requires
            a * x + n * y == 1,
            a == g * k1,
            n == g * k2,
    ;
    assert(g == 1) by (nonlinear_arith)
        requires
            g * (k1 * x + k2 * y) == 1,
            g >= 0,
    ;
}

/// `arg` has no inverse modulo `modulo`.
pub struct NotInvertible;

/// The Bezout coefficient `x` with `arg·x + modulo·y = 1`, where
/// `gcd(arg, modulo) = 1`.
pub fn modular_inverse(arg: &Integer, modulo: &Integer) -> (r: Result<Integer, NotInvertible>)
    requires
        arg.val() >= 0,
        modulo.val() >= 0,
    ensures
        r.is_ok() == (gcd(arg.val() as nat, modulo.val() as nat) == 1),
        r.is_ok() ==> exists|y: int| arg.val() * r->Ok_0.val() + #[trigger] (modulo.val() * y) == 1,
{
    let (g, x, y) = extended_gcd(arg, modulo);
    if !g.equals(&Integer::from_u64(1)) {
        Err(NotInvertible)
    } else {
        proof {
            assert(arg.val() * x.val() + modulo.val() * y.val() == 1);
        }
        Ok(x)
    }
}

/// `n` is prime: above 1, with no divisor strictly between 1 and `n`.
pub open spec fn spec_prime(n: nat) -> bool {
    n > 1 && forall|d: nat| 1 < d < n ==> #[trigger] (n % d) != 0
}

proof fn lemma_small_divisor(n: nat, d: nat, x: nat)
    requires
        1 < d < n,
        n % d == 0,
        x * x > n,
        d >= x,
    ensures
        1 < n / d < x,
        n % (n / d) == 0,
{
    let e = n / d;
    vstd::arithmetic::div_mod::lemma_fundamental_div_mod(n as int, d as int);
    assert(n == d * e);
    assert(e > 1) by (nonlinear_arith)
        requires
            n == d * e,
            d < n,
            e >= 0,
    ;
    assert(e < x) by (nonlinear_arith)
        requires
            n == d * e,
            x * x > n,
            d >= x,
            e >= 0,
    ;
    assert(n == e * d) by (nonlinear_arith)
        requires
            n == d * e,
    ;
    vstd::arithmetic::div_mod::lemma_mod_multiples_basic(d as int, e as int);
}

/// Trial division by every `x` with `x² ≤ value`.
pub fn is_prime(value: &Natural) -> (r: bool)
    ensures
        r == spec_prime(value.val()),
{
    let one = Natural::from_u64(1);
    if value.less_than(&Natural::from_u64(2)) {
        return false;
    }
    let mut x = Natural::from_u64(2);
    loop
        invariant
            value.val() > 1,
            2 <= x.val() <= value.val(),
            one.val() == 1,
            forall|d: nat| 1 < d < x.val() ==> #[trigger] (value.val() % d) != 0,
        decreases value.val() - x.val(),
    {
        if value.less_than(&x.mul(&x)) {
            proof {
                let n = value.val();
                assert forall|d: nat| 1 < d < n implies #[trigger] (n % d) != 0 by {
                    if d >= x.val() && n % d == 0 {
                        lemma_small_divisor(n, d, x.val());
                        let e = n / d;
                        assert(n % e != 0);
                    }
                }
            }
            return true;
        }
        if value.rem(&x).is_zero() {
            proof {
                assert(x.val() < value.val()) by (nonlinear_arith)
                    requires
                        x.val() * x.val() <= value.val(),
                        x.val() >= 2,
                ;
                assert((value.val() % x.val()) == 0);
            }
            return false;
        }
        let next = x.add(&one);
        proof {
            assert(x.val() * x.val() <= value.val());
            assert(x.val() < value.val()) by (nonlinear_arith)
                requires
                    x.val() * x.val() <= value.val(),
                    x.val() >= 2,
            ;
        }
        x = next;
    }
}

/// A binary operation on `T`, stated over a view of the values (their
/// coordinates, their residue).
pub trait Operation<T> {
    type View;

    spec fn view(&self, a: T) -> Self::View;

    spec fn combine(&self, a: Self::View, b: Self::View) -> Self::View;

    fn apply(&self, a: &T, b: &T) -> (r: T)
        ensures
            self.view(r) == self.combine(self.view(*a), self.view(*b)),
    ;
}

/// `combine` is associative.
pub open spec fn associative<T, F: Operation<T>>(app: F) -> bool {
    forall|a: F::View, b: F::View, c: F::View|
        #[trigger] app.combine(app.combine(a, b), c) == app.combine(a, #[trigger] app.combine(b, c))
}

/// `result` followed by `cnt` copies of `value`, combined from the left.
pub open spec fn fold_copies<T, F: Operation<T>>(app: F, cnt: nat, value: F::View, result: F::View) -> F::View
    decreases cnt,
{
    if cnt == 0 {
        result
    } else {
        app.combine(fold_copies(app, (cnt - 1) as nat, value, result), value)
    }
}

/// What the doubling loop of `repeat_monoid` computes.
pub open spec fn repeat_doubling<T, F: Operation<T>>(
    app: F,
    cnt: nat,
    value: F::View,
    result: F::View,
) -> F::View
    decreases cnt,
{
    if cnt == 0 {
        result
    } else if cnt % 2 == 0 {
        repeat_doubling(app, cnt / 2, app.combine(value, value), result)
    } else {
        repeat_doubling(app, (cnt - 1) as nat, value, app.combine(result, value))
    }
}

proof fn lemma_fold_shift<T, F: Operation<T>>(app: F, n: nat, value: F::View, result: F::View)
    ensures
        fold_copies(app, n, value, app.combine(result, value)) == fold_copies(
            app,
            n + 1,
            value,
            result,
        ),
    decreases n,
{
    assert(fold_copies(app, n + 1, value, result) == app.combine(
        fold_copies(app, n, value, result),
        value,
    ));
    if n > 0 {
        lemma_fold_shift(app, (n - 1) as nat, value, result);
    }
}

proof fn lemma_fold_double<T, F: Operation<T>>(app: F, k: nat, value: F::View, result: F::View)
    requires
        associative(app),
    ensures
        fold_copies(app, k, app.combine(value, value), result) == fold_copies(
            app,
            2 * k,
            value,
            result,
        ),
    decreases k,
{
    if k > 0 {
        let k1 = (k - 1) as nat;
        lemma_fold_double(app, k1, value, result);
        let p = fold_copies(app, 2 * k1, value, result);
        assert(app.combine(app.combine(p, value), value) == app.combine(
            p,
            app.combine(value, value),
        ));
        assert(fold_copies(app, (2 * k1 + 1) as nat, value, result) == app.combine(p, value));
        assert(2 * k == (2 * k1 + 1) + 1);
    }
}

/// For an associative operation, the doubling loop combines `result` with
/// exactly `cnt` copies of `value`.
pub proof fn lemma_repeat_is_fold<T, F: Operation<T>>(
    app: F,
    cnt: nat,
    value: F::View,
    result: F::View,
)
    requires
        associative(app),
    ensures
        repeat_doubling(app, cnt, value, result) == fold_copies(app, cnt, value, result),
    decreases cnt,
{
    if cnt == 0 {
    } else if cnt % 2 == 0 {
        lemma_repeat_is_fold(app, cnt / 2, app.combine(value, value), result);
        lemma_fold_double(app, cnt / 2, value, result);
    } else {
        lemma_repeat_is_fold(app, (cnt - 1) as nat, value, app.combine(result, value));
        lemma_fold_shift(app, (cnt - 1) as nat, value, result);
    }
}

/// Combines `result` with `cnt` copies of `value` by doubling: `value` is
/// squared while `cnt` is even, and folded into `result` while it is odd.
pub fn repeat_monoid<T, F: Operation<T>>(app: F, cnt: Natural, value: T, result: T) -> (r: T)
    ensures
        app.view(r) == repeat_doubling(app, cnt.val(), app.view(value), app.view(result)),
        associative(app) ==> app.view(r) == fold_copies(
            app,
            cnt.val(),
            app.view(value),
            app.view(result),
        ),
{
    let ghost goal = repeat_doubling(app, cnt.val(), app.view(value), app.view(result));
    proof {
        if associative(app) {
            lemma_repeat_is_fold(app, cnt.val(), app.view(value), app.view(result));
        }
    }
    let one = Natural::from_u64(1);
    let two = Natural::from_u64(2);
    let mut cnt = cnt;
    let mut value = value;
    let mut result = result;
    while !cnt.is_zero()
        invariant
            repeat_doubling(app, cnt.val(), app.view(value), app.view(result)) == goal,
            one.val() == 1,
            two.val() == 2,
        decreases cnt.val(),
    {
        if cnt.rem(&two).is_zero() {
            cnt = cnt.div(&two);
            value = app.apply(&value, &value);
        } else {
            cnt = cnt.sub(&one);
            result = app.apply(&result, &value);
        }
    }
    result
}

/// Addition of `usize` values modulo `2^64`.
pub struct WrappingAdd;

pub open spec fn usize_modulus() -> int {
    usize::MAX as int + 1
}

impl Operation<usize> for WrappingAdd {
    type View = usize;

    open spec fn view(&self, a: usize) -> usize {
        a
    }

    open spec fn combine(&self, a: usize, b: usize) -> usize {
        ((a + b) % usize_modulus()) as usize
    }

    fn apply(&self, a: &usize, b: &usize) -> (r: usize) {
        let ghost m = usize_modulus();
        if *a <= usize::MAX - *b {
            proof {
                vstd::arithmetic::div_mod::lemma_small_mod((*a + *b) as nat, m as nat);
            }
            *a + *b
        } else {
            proof {
                let d = *a + *b - m;
                vstd::arithmetic::div_mod::lemma_mod_add_multiples_vanish(d, m);
                vstd::arithmetic::div_mod::lemma_small_mod(d as nat, m as nat);
            }
            *a - (usize::MAX - *b) - 1
        }
    }
}

proof fn lemma_wrapping_add_associative()
    ensures
        associative(WrappingAdd),
{
    let m = usize_modulus();
    assert forall|a: usize, b: usize, c: usize|
        true implies #[trigger] WrappingAdd.combine(
            WrappingAdd.combine(a, b),
            c,
        ) == WrappingAdd.combine(a, #[trigger] WrappingAdd.combine(b, c)) by {
        vstd::arithmetic::div_mod::lemma_add_mod_noop(a + b, c as int, m);
        vstd::arithmetic::div_mod::lemma_add_mod_noop(a as int, b + c, m);
        vstd::arithmetic::div_mod::lemma_small_mod(c as nat, m as nat);
        vstd::arithmetic::div_mod::lemma_small_mod(a as nat, m as nat);
        assert((a + b) + c == a + (b + c));
    }
}

proof fn lemma_fold_counts(n: nat)
    requires
        n < usize_modulus(),
    ensures
        fold_copies(WrappingAdd, n, 1usize, 0usize) == n,
    decreases n,
{
    if n > 0 {
        lemma_fold_counts((n - 1) as nat);
        vstd::arithmetic::div_mod::lemma_small_mod(n, usize_modulus() as nat);
    }
}

/// Repeating `+` on `usize` `n` times with value `1` from `0` gives `n`.
pub proof fn lemma_repeat_counts(n: nat)
    requires
        n <= 100000,
    ensures
        repeat_doubling(WrappingAdd, n, 1usize, 0usize) == n,
{
    lemma_wrapping_add_associative();
    lemma_repeat_is_fold(WrappingAdd, n, 1usize, 0usize);
    lemma_fold_counts(n);
}

} // verus!
