//! Arbitrary-precision natural numbers and integers.
//!
//! A `Natural` holds its little-endian bytes; its meaning is `le_value` of
//! them. The arithmetic itself is done by `num_bigint`: each operation below
//! converts to a `BigUint`, calls the one operation it is named after, and
//! converts the result back.
use vstd::prelude::*;
use vstd::arithmetic::power::pow;

use num_bigint::{BigInt, BigUint, RandBigInt, Sign};
use num_traits::Num;
use rand::rngs::StdRng;

verus! {

/// The value of a little-endian byte string.
pub open spec fn le_value(b: Seq<u8>) -> nat
    decreases b.len(),
{
    if b.len() == 0 {
        0
    } else {
        b[0] as nat + 256 * le_value(b.subrange(1, b.len() as int))
    }
}

/// A byte string without trailing zero bytes, except for the single byte of zero.
pub open spec fn canonical_bytes(b: Seq<u8>) -> bool {
    b.len() >= 1 && (b.len() == 1 || b[b.len() - 1] != 0)
}

/// Value of one hexadecimal digit.
pub open spec fn hex_digit_value(c: char) -> nat {
    if '0' <= c && c <= '9' {
        (c as nat - '0' as nat) as nat
    } else if 'a' <= c && c <= 'f' {
        (c as nat - 'a' as nat + 10) as nat
    } else {
        0
    }
}

pub open spec fn is_lower_hex_digit(c: char) -> bool {
    ('0' <= c && c <= '9') || ('a' <= c && c <= 'f')
}

/// Big-endian value of a string of hexadecimal digits.
pub open spec fn hex_value(s: Seq<char>) -> nat
    decreases s.len(),
{
    if s.len() == 0 {
        0
    } else {
        hex_value(s.drop_last()) * 16 + hex_digit_value(s.last())
    }
}

#[verifier::external_type_specification]
#[verifier::external_body]
pub struct ExStdRng(StdRng);

/// A natural number of any size.
pub struct Natural {
    pub bytes: Vec<u8>,
}

impl Natural {
    pub open spec fn val(&self) -> nat {
        le_value(self.bytes@)
    }

    /// Relies on `BigUint::from(u64)` and `BigUint::to_bytes_le`.
    #[verifier::external_body]
    pub fn from_u64(v: u64) -> (r: Natural)
        ensures
            r.val() == v as nat,
            canonical_bytes(r.bytes@),
    {
        Natural { bytes: BigUint::from(v).to_bytes_le() }
    }

    /// Relies on `BigUint::from_bytes_le` and `BigUint::to_bytes_le`: the same
    /// value, written without trailing zero bytes.
    #[verifier::external_body]
    pub fn normalized(&self) -> (r: Natural)
        ensures
            r.val() == self.val(),
            canonical_bytes(r.bytes@),
    {
        Natural { bytes: BigUint::from_bytes_le(&self.bytes).to_bytes_le() }
    }

    /// Relies on `<BigUint as Add>::add`.
    #[verifier::external_body]
    pub fn add(&self, o: &Natural) -> (r: Natural)
        ensures
            r.val() == self.val() + o.val(),
            canonical_bytes(r.bytes@),
    {
        let s = BigUint::from_bytes_le(&self.bytes) + BigUint::from_bytes_le(&o.bytes);
        Natural { bytes: s.to_bytes_le() }
    }

    /// Relies on `<BigUint as Sub>::sub`, which panics below zero.
    #[verifier::external_body]
    pub fn sub(&self, o: &Natural) -> (r: Natural)
        requires
            self.val() >= o.val(),
        ensures
            r.val() == self.val() - o.val(),
            canonical_bytes(r.bytes@),
    {
        let s = BigUint::from_bytes_le(&self.bytes) - BigUint::from_bytes_le(&o.bytes);
        Natural { bytes: s.to_bytes_le() }
    }

    /// Relies on `<BigUint as Mul>::mul`.
    #[verifier::external_body]
    pub fn mul(&self, o: &Natural) -> (r: Natural)
        ensures
            r.val() == self.val() * o.val(),
            canonical_bytes(r.bytes@),
    {
        let s = BigUint::from_bytes_le(&self.bytes) * BigUint::from_bytes_le(&o.bytes);
        Natural { bytes: s.to_bytes_le() }
    }

    /// Relies on `<BigUint as Div>::div`, which panics on a zero divisor.
    #[verifier::external_body]
    pub fn div(&self, o: &Natural) -> (r: Natural)
        requires
            o.val() > 0,
        ensures
            r.val() == self.val() / o.val(),
            canonical_bytes(r.bytes@),
    {
        let s = BigUint::from_bytes_le(&self.bytes) / BigUint::from_bytes_le(&o.bytes);
        Natural { bytes: s.to_bytes_le() }
    }

    /// Relies on `<BigUint as Rem>::rem`, which panics on a zero divisor.
    #[verifier::external_body]
    pub fn rem(&self, o: &Natural) -> (r: Natural)
        requires
            o.val() > 0,
        ensures
            r.val() == self.val() % o.val(),
            canonical_bytes(r.bytes@),
    {
        let s = BigUint::from_bytes_le(&self.bytes) % BigUint::from_bytes_le(&o.bytes);
        Natural { bytes: s.to_bytes_le() }
    }

    /// Relies on `BigUint::modpow`, which panics on a zero modulus.
    #[verifier::external_body]
    pub fn modpow(&self, e: &Natural, m: &Natural) -> (r: Natural)
        requires
            m.val() > 1,
        ensures
            r.val() == pow(self.val() as int, e.val()) % (m.val() as int),
            canonical_bytes(r.bytes@),
    {
        let b = BigUint::from_bytes_le(&self.bytes);
        let s = b.modpow(&BigUint::from_bytes_le(&e.bytes), &BigUint::from_bytes_le(&m.bytes));
        Natural { bytes: s.to_bytes_le() }
    }

    /// Relies on `<BigUint as PartialEq>::eq`.
    #[verifier::external_body]
    pub fn equals(&self, o: &Natural) -> (r: bool)
        ensures
            r == (self.val() == o.val()),
    {
        BigUint::from_bytes_le(&self.bytes) == BigUint::from_bytes_le(&o.bytes)
    }

    /// Relies on `<BigUint as PartialOrd>::lt`.
    #[verifier::external_body]
    pub fn less_than(&self, o: &Natural) -> (r: bool)
        ensures
            r == (self.val() < o.val()),
    {
        BigUint::from_bytes_le(&self.bytes) < BigUint::from_bytes_le(&o.bytes)
    }

    /// Relies on `<BigUint as Num>::from_str_radix` with radix 16: a nonempty
    /// string of hexadecimal digits is read as a big-endian number.
    #[verifier::external_body]
    pub fn from_hex(s: &str) -> (r: Option<Natural>)
        ensures
            s@.len() > 0 && (forall|i: int| 0 <= i < s@.len() ==> is_lower_hex_digit(#[trigger] s@[i]))
                ==> r.is_some() && r->0.val() == hex_value(s@) && canonical_bytes(r->0.bytes@),
    {
        BigUint::from_str_radix(s, 16).ok().map(|v| Natural { bytes: v.to_bytes_le() })
    }

    /// Relies on `RandBigInt::gen_biguint_range`: a value in `[lo, hi)`,
    /// which panics on an empty range.
    #[verifier::external_body]
    pub fn random_range(rng: &mut StdRng, lo: &Natural, hi: &Natural) -> (r: Natural)
        requires
            lo.val() < hi.val(),
        ensures
            lo.val() <= r.val() < hi.val(),
            canonical_bytes(r.bytes@),
    {
        let v = rng.gen_biguint_range(&BigUint::from_bytes_le(&lo.bytes), &BigUint::from_bytes_le(&hi.bytes));
        Natural { bytes: v.to_bytes_le() }
    }

    pub fn is_zero(&self) -> (r: bool)
        ensures
            r == (self.val() == 0),
    {
        let zero = Natural::from_u64(0);
        self.equals(&zero)
    }

    pub fn copy(&self) -> (r: Natural)
        ensures
            r.bytes@ == self.bytes@,
    {
        Natural { bytes: self.bytes.clone() }
    }
}

impl Clone for Natural {
    fn clone(&self) -> (r: Natural)
        ensures
            r.bytes@ == self.bytes@,
    {
        Natural { bytes: self.bytes.clone() }
    }
}

impl PartialEq for Natural {
    fn eq(&self, o: &Natural) -> (r: bool) {
        self.equals(o)
    }
}

impl vstd::std_specs::cmp::PartialEqSpecImpl for Natural {
    open spec fn obeys_eq_spec() -> bool {
        true
    }

    open spec fn eq_spec(&self, o: &Natural) -> bool {
        self.val() == o.val()
    }
}

/// A signed integer of any size: `magnitude`, negated when `negative` is set.
pub struct Integer {
    pub negative: bool,
    pub magnitude: Natural,
}

impl Integer {
    pub open spec fn val(&self) -> int {
        if self.negative {
            -(self.magnitude.val() as int)
        } else {
            self.magnitude.val() as int
        }
    }

    pub fn from_natural(n: Natural) -> (r: Integer)
        ensures
            r.val() == n.val(),
    {
        Integer { negative: false, magnitude: n }
    }

    pub fn from_u64(v: u64) -> (r: Integer)
        ensures
            r.val() == v as int,
    {
        Integer { negative: false, magnitude: Natural::from_u64(v) }
    }

    /// Relies on `<BigInt as Sub>::sub`.
    #[verifier::external_body]
    pub fn sub(&self, o: &Integer) -> (r: Integer)
        ensures
            r.val() == self.val() - o.val(),
    {
        let x = BigInt::from_biguint(if self.negative { Sign::Minus } else { Sign::Plus }, BigUint::from_bytes_le(&self.magnitude.bytes));
        let y = BigInt::from_biguint(if o.negative { Sign::Minus } else { Sign::Plus }, BigUint::from_bytes_le(&o.magnitude.bytes));
        let (sign, m) = (x - y).into_parts();
        Integer { negative: sign == Sign::Minus, magnitude: Natural { bytes: m.to_bytes_le() } }
    }

    /// Relies on `<BigInt as Mul>::mul`.
    #[verifier::external_body]
    pub fn mul(&self, o: &Integer) -> (r: Integer)
        ensures
            r.val() == self.val() * o.val(),
    {
        let x = BigInt::from_biguint(if self.negative { Sign::Minus } else { Sign::Plus }, BigUint::from_bytes_le(&self.magnitude.bytes));
        let y = BigInt::from_biguint(if o.negative { Sign::Minus } else { Sign::Plus }, BigUint::from_bytes_le(&o.magnitude.bytes));
        let (sign, m) = (x * y).into_parts();
        Integer { negative: sign == Sign::Minus, magnitude: Natural { bytes: m.to_bytes_le() } }
    }

    /// Relies on `<BigInt as Div>::div`, which rounds toward zero (here on
    /// a nonnegative dividend and a positive divisor, so downward).
    #[verifier::external_body]
    pub fn div(&self, o: &Integer) -> (r: Integer)
        requires
            self.val() >= 0,
            o.val() > 0,
        ensures
            r.val() == self.val() / o.val(),
    {
        let x = BigInt::from_biguint(if self.negative { Sign::Minus } else { Sign::Plus }, BigUint::from_bytes_le(&self.magnitude.bytes));
        let y = BigInt::from_biguint(if o.negative { Sign::Minus } else { Sign::Plus }, BigUint::from_bytes_le(&o.magnitude.bytes));
        let (sign, m) = (x / y).into_parts();
        Integer { negative: sign == Sign::Minus, magnitude: Natural { bytes: m.to_bytes_le() } }
    }

    pub fn is_zero(&self) -> (r: bool)
        ensures
            r == (self.val() == 0),
    {
        self.magnitude.is_zero()
    }

    pub fn equals(&self, o: &Integer) -> (r: bool)
        ensures
            r == (self.val() == o.val()),
    {
        let same_mag = self.magnitude.equals(&o.magnitude);
        if !same_mag {
            false
        } else if self.magnitude.is_zero() {
            true
        } else {
            self.negative == o.negative
        }
    }

    pub fn copy(&self) -> (r: Integer)
        ensures
            r.val() == self.val(),
    {
        Integer { negative: self.negative, magnitude: self.magnitude.copy() }
    }
}

} // verus!
