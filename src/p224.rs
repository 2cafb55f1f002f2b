//! The NIST P-224 curve (FIPS 186-4) and its embedding of plaintext bytes
//! into curve points.
use vstd::prelude::*;
use vstd::pervasive::unreached;

use crate::algo::{fold_copies, repeat_doubling, Operation};
use crate::bytes::Stream;
use crate::curve::{
    fmul, on_curve, proj_eq, right_side, root_candidate_works, solve, Curve, EllipticPoint, Encoder,
    PointAddition,
};
use crate::natural::{canonical_bytes, hex_value, is_lower_hex_digit, le_value, Integer, Natural};
use crate::zn::{byte_width, spec_inverse, BigPrime, Zn};
use crate::algo::gcd;
use vstd::arithmetic::power::pow;
use vstd::arithmetic::div_mod::*;

use std::marker::PhantomData;

verus! {

pub open spec fn all_hex(s: Seq<char>) -> bool {
    s.len() > 0 && forall|i: int| 0 <= i < s.len() ==> is_lower_hex_digit(#[trigger] s[i])
}

/// Reads a nonempty string of lowercase hexadecimal digits.
pub fn hex(s: &str) -> (r: Natural)
    requires
        all_hex(s@),
    ensures
        r.val() == hex_value(s@),
{
    match Natural::from_hex(s) {
        Some(v) => v,
        None => unreached(),
    }
}

proof fn lemma_hex_prefix(s: Seq<char>, k: int)
    requires
        1 <= k <= s.len(),
    ensures
        hex_value(s.take(k)) <= hex_value(s),
    decreases s.len(),
{
    if k < s.len() {
        assert(s.drop_last().take(k) =~= s.take(k));
        lemma_hex_prefix(s.drop_last(), k);
    } else {
        assert(s.take(k) =~= s);
    }
}

/// The prime `2^224 − 2^96 + 1`.
pub open spec fn p224_prime() -> nat {
    let t = 4294967296nat;
    (t * t * t * t * t * t * t - t * t * t + 1) as nat
}

/// The field of P-224.
pub struct N224;

impl BigPrime for N224 {
    open spec fn spec_value() -> nat {
        p224_prime()
    }

    /// The prime as its 28 little-endian bytes: `1`, eleven zeros, sixteen `0xff`.
    fn value() -> (r: Natural) {
        let bytes: Vec<u8> = vec![1, 0, 0, 0, 0, 0, 0, 0, 0, 0, 0, 0, 255, 255, 255, 255, 255, 255, 255, 255, 255, 255, 255, 255, 255, 255, 255, 255];
        proof {
            reveal_with_fuel(le_value, 29);
        }
        Natural { bytes }
    }
}

pub type Z224 = Zn<N224>;

/// The curve P-224: `a = −3`, `b` and the group order from the standard.
pub struct P224;

impl Curve<N224> for P224 {
    open spec fn spec_a() -> nat {
        (p224_prime() - 3) as nat
    }

    open spec fn spec_b() -> nat {
        hex_value("b4050a850c04b3abf54132565044b0b7d7bfd8ba270b39432355ffb4"@) % p224_prime()
    }

    open spec fn spec_order() -> nat {
        hex_value("ffffffffffffffffffffffffffff16a2e0b8f03e13dd29455c5c2a3d"@)
    }

    fn a() -> (r: Z224) {
        let three = Z224::from_u64(3);
        proof {
            vstd::arithmetic::div_mod::lemma_small_mod(3, p224_prime());
            vstd::arithmetic::div_mod::lemma_small_mod((p224_prime() - 3) as nat, p224_prime());
        }
        three.neg()
    }

    fn b() -> (r: Z224) {
        let s = "b4050a850c04b3abf54132565044b0b7d7bfd8ba270b39432355ffb4";
        proof {
            reveal_strlit("b4050a850c04b3abf54132565044b0b7d7bfd8ba270b39432355ffb4");
            assert(all_hex(s@));
        }
        Z224::from_natural(&hex(s))
    }

    fn group_order() -> (r: Natural) {
        let s = "ffffffffffffffffffffffffffff16a2e0b8f03e13dd29455c5c2a3d";
        proof {
            reveal_strlit("ffffffffffffffffffffffffffff16a2e0b8f03e13dd29455c5c2a3d");
            assert(all_hex(s@));
            lemma_hex_prefix(s@, 1);
            assert(s@.take(1).drop_last() =~= Seq::<char>::empty());
            assert(hex_value(Seq::<char>::empty()) == 0);
        }
        hex(s)
    }
}

pub type Point = EllipticPoint<N224, P224>;

pub open spec fn generator_coords() -> (nat, nat, nat) {
    (
        hex_value("b70e0cbd6bb4bf7f321390b94a03c1d356c21122343280d6115c1d21"@) % p224_prime(),
        hex_value("bd376388b5f723fb4c22dfe6cd4375a05a07476444d5819985007e34"@) % p224_prime(),
        1nat,
    )
}

/// The standard base point `G` of P-224.
pub fn generator() -> (r: Point)
    ensures
        r.coords() == generator_coords(),
{
    let sx = "b70e0cbd6bb4bf7f321390b94a03c1d356c21122343280d6115c1d21";
    let sy = "bd376388b5f723fb4c22dfe6cd4375a05a07476444d5819985007e34";
    proof {
        reveal_strlit("b70e0cbd6bb4bf7f321390b94a03c1d356c21122343280d6115c1d21");
        reveal_strlit("bd376388b5f723fb4c22dfe6cd4375a05a07476444d5819985007e34");
        assert(all_hex(sx@));
        assert(all_hex(sy@));
    }
    Point::affine(Z224::from_natural(&hex(sx)), Z224::from_natural(&hex(sy)))
}

/// Number of message bytes carried by one point.
pub open spec fn spec_bytevec_len() -> nat {
    25
}

/// Each message value `m` is embedded as some `x` in `[m·2^16, (m+1)·2^16)`.
pub const BUCKET: u64 = 65536;

/// The byte width of the field (28) less one, less the two bytes of the bucket.
pub fn bytevec_len() -> (r: usize)
    ensures
        r == spec_bytevec_len(),
{
    25
}

/// Embeds up to `bytevec_len()` bytes `m` as a point whose `x` is the first
/// of `m·2^16, m·2^16 + 1, …` that solves the curve equation; `None` for an
/// empty stream, and where none of the `2^16` candidates does. The square
/// root `x^((p+1)/4)` finds roots only for a prime `p ≡ 3 (mod 4)`, which the
/// prime of P-224 is not (it is `≡ 1 (mod 4)`), so this search fails there
/// and `Encoder for P224` embeds single bytes with `encode_byte` instead.
pub fn bucket_encode(stream: &mut Stream) -> (r: Option<Point>)
    ensures
        ({
            let k = if old(stream).rest().len() < 25 { old(stream).rest().len() } else { 25 };
            let m = le_value(old(stream).rest().take(k as int));
            &&& final(stream).rest() == old(stream).rest().skip(k as int)
            &&& k == 0 ==> r.is_none()
            &&& r matches Some(pt) ==> pt.coords().0 / 65536 == m && pt.coords().2 == 1 && on_curve(
                p224_prime(),
                P224::spec_a(),
                P224::spec_b(),
                pt.coords().0,
                pt.coords().1,
            )
            &&& (k > 0 && r.is_none()) ==> forall|i: nat|
                i < 65536 ==> !root_candidate_works(
                    p224_prime(),
                    #[trigger] right_side(p224_prime(), P224::spec_a(), P224::spec_b(), m * 65536 + i),
                )
        }),
{
    let bytes = stream.take(bytevec_len());
    if bytes.len() == 0 {
        return None;
    }
    let ghost m = le_value(bytes@);
    let ghost p = p224_prime();
    let ghost after = stream.rest();
    let ghost kk = bytes@.len() as int;
    proof {
        crate::zn::lemma_le_value_bound(bytes@);
        vstd::arithmetic::power::lemma_pow_increases(256, bytes@.len(), 25);
        lemma_bucket_room();
        lemma_small_mod(m, p);
        lemma_small_mod(m * 65536, p);
        lemma_small_mod(65536, p);
    }
    let bucket = Z224::from_u64(BUCKET);
    let mut x = Z224::from_natural(&Natural { bytes }).mul(&bucket);
    let one = Z224::one();
    let mut i: u64 = 0;
    while i < BUCKET
        invariant
            p == p224_prime(),
            stream.rest() == after,
            after == old(stream).rest().skip(kk),
            kk == (if old(stream).rest().len() < 25 { old(stream).rest().len() } else { 25 }),
            kk > 0,
            m == le_value(old(stream).rest().take(kk)),
            m < pow(256, 25),
            pow(256, 25) * 65536 < p,
            i <= BUCKET,
            x.val() == m * 65536 + i,
            one.val() == 1,
            forall|j: nat|
                j < i ==> !root_candidate_works(
                    p,
                    #[trigger] right_side(p, P224::spec_a(), P224::spec_b(), m * 65536 + j),
                ),
        decreases BUCKET - i,
    {
        match solve::<N224, P224>(&x) {
            Some(y) => {
                let pt = Point::affine(x, y);
                proof {
                    assert(m * 65536 == 65536 * m) by (nonlinear_arith);
                    lemma_div_multiples_vanish_fancy(m as int, i as int, 65536);
                    assert(pt.coords().0 / 65536 == m);
                }
                return Some(pt);
            },
            None => {},
        }
        proof {
            assert((m * 65536 + i) + 1 < p) by (nonlinear_arith)
                requires
                    m < pow(256, 25),
                    pow(256, 25) * 65536 < p,
                    i < 65536,
            ;
            lemma_small_mod((m * 65536 + i + 1) as nat, p);
        }
        x = x.add(&one);
        i = i + 1;
    }
    None
}

/// There is room for `2^16` candidates per value of 25 bytes below the prime.
proof fn lemma_bucket_room()
    ensures
        pow(256, 25) * 65536 < p224_prime(),
{
    reveal_with_fuel(pow, 26);
    let t = 4294967296nat;
    assert(pow(256, 25) * 65536 == t * t * t * t * t * t * 16777216);
}

/// Failure to read message bytes back from a point.
pub enum DecodingError {
    /// The point is at infinity (or, for a composite modulus, has no affine form).
    IsZero,
    /// The bucket index `x / 2^16` needs more than `bytevec_len()` bytes.
    TooBig,
}

/// The message bytes of an affine `x`: the shortest little-endian writing
/// of `x / 2^16`, when it fits in `bytevec_len()` bytes.
pub fn decode_x(x: &Z224) -> (r: Result<Vec<u8>, DecodingError>)
    ensures
        r matches Ok(b) ==> le_value(b@) == x.val() / 65536 && canonical_bytes(b@) && b@.len()
            <= spec_bytevec_len(),
        r matches Err(e) ==> e is TooBig,
        r.is_ok() == (x.val() / 65536 < pow(256, 25)),
{
    let v = x.to_natural().div(&Natural::from_u64(BUCKET)).normalized();
    proof {
        crate::zn::lemma_canonical_width(v.bytes@);
        crate::zn::lemma_le_value_bound(v.bytes@);
        if v.bytes@.len() > 25 {
            if v.val() == 0 {
                assert(byte_width(0) == 1);
            }
            crate::zn::lemma_width_floor(v.val());
            vstd::arithmetic::power::lemma_pow_increases(256, 25, (v.bytes@.len() - 1) as nat);
        } else {
            vstd::arithmetic::power::lemma_pow_increases(256, v.bytes@.len(), 25);
        }
    }
    if v.bytes.len() > bytevec_len() {
        Err(DecodingError::TooBig)
    } else {
        Ok(v.bytes)
    }
}

/// The message bytes of a point: `decode_x` of its affine `x`.
pub fn bucket_decode(item: &Point) -> (r: Result<Vec<u8>, DecodingError>)
    ensures
        item.coords().2 == 0 ==> r matches Err(DecodingError::IsZero),
        r matches Err(DecodingError::IsZero) ==> item.coords().2 == 0 || gcd(item.coords().2, p224_prime()) != 1,
        item.coords().2 != 0 && gcd(item.coords().2, p224_prime()) == 1 ==> r.is_ok() == (fmul(
            p224_prime(),
            item.coords().0,
            spec_inverse(p224_prime(), item.coords().2),
        ) / 65536 < pow(256, 25)),
        r matches Ok(b) ==> canonical_bytes(b@) && le_value(b@) == fmul(
            p224_prime(),
            item.coords().0,
            spec_inverse(p224_prime(), item.coords().2),
        ) / 65536,
{
    if item.is_infinite() {
        return Err(DecodingError::IsZero);
    }
    let z = item.z();
    if !z.has_inverse() {
        return Err(DecodingError::IsZero);
    }
    let i = z.inv();
    proof {
        crate::zn::lemma_inverse_unique(p224_prime(), z.val(), i.val());
    }
    decode_x(&item.x().mul(&i))
}

/// No byte `x` has `x·G` equal to the point.
pub struct NotFound;

/// The group addition of P-224.
pub open spec fn p224_addition() -> PointAddition<N224, P224> {
    PointAddition { curve: PhantomData }
}

/// Embeds the next byte `x` as `x·G`; `None` on an empty stream.
pub fn encode_byte(stream: &mut Stream) -> (r: Option<Point>)
    ensures
        old(stream).rest().len() == 0 ==> r.is_none() && final(stream).rest() == old(stream).rest(),
        old(stream).rest().len() > 0 ==> r.is_some() && final(stream).rest() == old(stream).rest().skip(1)
            && r->0.coords() == repeat_doubling(
            p224_addition(),
            old(stream).rest()[0] as nat,
            generator_coords(),
            (0nat, 1nat, 0nat),
        ),
{
    match stream.next() {
        None => None,
        Some(x) => Some(generator().mul(&Integer::from_u64(x as u64))),
    }
}

/// The byte `x` whose multiple `x·G`, reached by adding `G` to itself, equals
/// the point projectively; the smallest such byte.
pub fn decode_byte(item: &Point) -> (r: Result<Vec<u8>, NotFound>)
    ensures
        r matches Ok(v) ==> v@.len() == 1 && proj_eq(
            p224_prime(),
            item.coords(),
            fold_copies(p224_addition(), v@[0] as nat, generator_coords(), (0nat, 1nat, 0nat)),
        ),
        r is Err ==> forall|x: nat|
            x < 256 ==> !proj_eq(
                p224_prime(),
                item.coords(),
                #[trigger] fold_copies(p224_addition(), x, generator_coords(), (0nat, 1nat, 0nat)),
            ),
{
    let g = generator();
    let mut acc = Point::zero();
    let mut x: u64 = 0;
    let ghost app = p224_addition();
    while x < 256
        invariant
            g.coords() == generator_coords(),
            acc.coords() == fold_copies(app, x as nat, generator_coords(), (0nat, 1nat, 0nat)),
            app == p224_addition(),
            x <= 256,
            forall|y: nat|
                y < x ==> !proj_eq(
                    p224_prime(),
                    item.coords(),
                    #[trigger] fold_copies(app, y, generator_coords(), (0nat, 1nat, 0nat)),
                ),
        decreases 256 - x,
    {
        if item.equals(&acc) {
            return Ok(vec![x as u8]);
        }
        let ghost prev = fold_copies(app, x as nat, generator_coords(), (0nat, 1nat, 0nat));
        acc = acc.add(&g);
        proof {
            assert(fold_copies(app, (x + 1) as nat, generator_coords(), (0nat, 1nat, 0nat))
                == app.combine(prev, generator_coords()));
        }
        x = x + 1;
    }
    Err(NotFound)
}

/// P-224 embeds one byte `x` as `x·G`. The bucket search of `bucket_encode`
/// cannot serve here: its square root `x^((p+1)/4)` needs `p ≡ 3 (mod 4)`,
/// and the prime of P-224 is `≡ 1 (mod 4)`.
impl Encoder<Point> for P224 {
    type Error = NotFound;

    /// One byte, unless the stream is empty.
    open spec fn consumed(bytes: Seq<u8>) -> nat {
        if bytes.len() == 0 { 0 } else { 1 }
    }

    open spec fn succeeds(bytes: Seq<u8>) -> bool {
        bytes.len() > 0
    }

    /// `x·G` for the first byte `x`.
    open spec fn encodes(bytes: Seq<u8>, e: Point) -> bool {
        e.coords() == repeat_doubling(p224_addition(), bytes[0] as nat, generator_coords(), (0nat, 1nat, 0nat))
    }

    fn encode(stream: &mut Stream) -> (r: Option<Point>) {
        encode_byte(stream)
    }

    /// The smallest byte `x` with `x·G` (by repeated addition) equal to the point.
    open spec fn decoding(item: Point, r: Result<Vec<u8>, NotFound>) -> bool {
        r matches Ok(v) ==> v@.len() == 1 && proj_eq(
            p224_prime(),
            item.coords(),
            fold_copies(p224_addition(), v@[0] as nat, generator_coords(), (0nat, 1nat, 0nat)),
        )
    }

    fn decode(item: &Point) -> (r: Result<Vec<u8>, Self::Error>) {
        decode_byte(item)
    }
}

} // verus!
