//! Short-Weierstrass curves `y² = x³ + a·x + b` over `Zn<N>`, with points in
//! projective coordinates.
use vstd::prelude::*;

use std::marker::PhantomData;

use vstd::arithmetic::div_mod::*;
use vstd::arithmetic::power::pow;

use crate::algo::{gcd, repeat_doubling, repeat_monoid, Operation};
use crate::bytes::{is_prefix, Decoding, Deserialize, Encoding, Serialize, Stream};
use crate::natural::{le_value, Integer, Natural};
use crate::zn::{
    byte_width, invertible, le_bytes, lemma_inverse_unique, lemma_le_bytes_value, lemma_width_bound,
    spec_inverse, BigPrime, Zn,
};

verus! {

pub open spec fn fadd(p: nat, a: nat, b: nat) -> nat {
    (a + b) % p
}

pub open spec fn fsub(p: nat, a: nat, b: nat) -> nat {
    ((a - b) % (p as int)) as nat
}

pub open spec fn fmul(p: nat, a: nat, b: nat) -> nat {
    (a * b) % p
}

pub open spec fn fneg(p: nat, a: nat) -> nat {
    ((p - a) % (p as int)) as nat
}

pub open spec fn fsq(p: nat, a: nat) -> nat {
    fmul(p, a, a)
}

pub open spec fn fcube(p: nat, a: nat) -> nat {
    fmul(p, fsq(p, a), a)
}

/// Projective equality: both at infinity, or equal cross products.
pub open spec fn proj_eq(p: nat, s: (nat, nat, nat), o: (nat, nat, nat)) -> bool {
    if s.2 == 0 {
        o.2 == 0
    } else {
        fmul(p, s.0, o.2) == fmul(p, o.0, s.2) && fmul(p, s.1, o.2) == fmul(p, o.1, s.2)
    }
}

pub open spec fn proj_neg(p: nat, s: (nat, nat, nat)) -> (nat, nat, nat) {
    (s.0, fneg(p, s.1), s.2)
}

/// Doubling: with `q = 2yz`, `n = 3x² + az²`, `t = 4xy²z`, `u = n² − 2t`, the
/// result is `(u·q, n·(t − u) − 8·(y²z)², q³)`.
pub open spec fn proj_double(p: nat, a: nat, s: (nat, nat, nat)) -> (nat, nat, nat) {
    let (x, y, z) = s;
    let q = fmul(p, fmul(p, y, z), 2nat % p);
    let n = fadd(p, fmul(p, fsq(p, x), 3nat % p), fmul(p, a, fsq(p, z)));
    let t = fmul(p, fmul(p, fmul(p, x, fsq(p, y)), z), 4nat % p);
    let u = fsub(p, fsq(p, n), fmul(p, t, 2nat % p));
    let nx = fmul(p, u, q);
    let nz = fcube(p, q);
    let ny = fsub(p, fmul(p, n, fsub(p, t, u)), fmul(p, fsq(p, fmul(p, fsq(p, y), z)), 8nat % p));
    (nx, ny, nz)
}

/// Addition of distinct points: with `u = y₂z₁ − y₁z₂`, `v = x₂z₁ − x₁z₂`,
/// `w = u²z₁z₂ − v³ − 2v²x₁z₂`, the result is
/// `(v·w, u·(v²x₁z₂ − w) − v³y₁z₂, z₁z₂v³)`.
pub open spec fn proj_general(p: nat, s: (nat, nat, nat), o: (nat, nat, nat)) -> (nat, nat, nat) {
    let (x1, y1, z1) = s;
    let (x2, y2, z2) = o;
    let u = fsub(p, fmul(p, y2, z1), fmul(p, y1, z2));
    let v = fsub(p, fmul(p, x2, z1), fmul(p, x1, z2));
    let w = fsub(
        p,
        fsub(p, fmul(p, fmul(p, fsq(p, u), z1), z2), fcube(p, v)),
        fmul(p, fmul(p, fmul(p, fsq(p, v), 2nat % p), x1), z2),
    );
    let q = fmul(p, fmul(p, fcube(p, v), y1), z2);
    let nx = fmul(p, v, w);
    let nz = fmul(p, fmul(p, z1, z2), fcube(p, v));
    let ny = fsub(p, fmul(p, u, fsub(p, fmul(p, fmul(p, fsq(p, v), x1), z2), w)), q);
    (nx, ny, nz)
}

/// The addition law of the curve group.
pub open spec fn proj_add(p: nat, a: nat, s: (nat, nat, nat), o: (nat, nat, nat)) -> (nat, nat, nat) {
    if s.2 == 0 {
        o
    } else if o.2 == 0 {
        s
    } else if proj_eq(p, s, proj_neg(p, o)) {
        (0nat, 1nat % p, 0nat)
    } else if proj_eq(p, s, o) {
        proj_double(p, a, s)
    } else {
        proj_general(p, s, o)
    }
}

/// `x³ + a·x + b`.
pub open spec fn right_side(p: nat, a: nat, b: nat, x: nat) -> nat {
    fadd(p, fadd(p, fcube(p, x), fmul(p, a, x)), b)
}

/// `(x, y)` solves `y² = x³ + a·x + b`.
pub open spec fn on_curve(p: nat, a: nat, b: nat, x: nat, y: nat) -> bool {
    fsq(p, y) == right_side(p, a, b, x)
}

/// The point does not solve the curve equation.
pub struct NotOnCurve;

/// The parameters of a curve over `Zn<N>`.
pub trait Curve<N: BigPrime> {
    spec fn spec_a() -> nat;

    spec fn spec_b() -> nat;

    spec fn spec_order() -> nat;

    fn a() -> (r: Zn<N>)
        ensures
            r.val() == Self::spec_a(),
    ;

    fn b() -> (r: Zn<N>)
        ensures
            r.val() == Self::spec_b(),
    ;

    /// The number of points of the curve group.
    fn group_order() -> (r: Natural)
        ensures
            r.val() == Self::spec_order(),
            r.val() > 1,
    ;
}

/// Whether `2` and `3` are nonzero in `Zn<N>`, as the addition law needs.
pub fn check_char<N: BigPrime>() -> (r: bool)
    ensures
        r == (2nat % N::spec_value() != 0 && 3nat % N::spec_value() != 0),
{
    !Zn::<N>::from_u64(2).is_zero() && !Zn::<N>::from_u64(3).is_zero()
}

/// Whether the curve is usable: `2` and `3` are nonzero, and the
/// discriminant `4a³ + 27b²` is nonzero.
pub fn check_curve<N: BigPrime, C: Curve<N>>() -> (r: bool)
    ensures
        r == (2nat % N::spec_value() != 0 && 3nat % N::spec_value() != 0 && fadd(
            N::spec_value(),
            fmul(N::spec_value(), fcube(N::spec_value(), C::spec_a()), 4nat % N::spec_value()),
            fmul(N::spec_value(), fsq(N::spec_value(), C::spec_b()), 27nat % N::spec_value()),
        ) != 0),
{
    if !check_char::<N>() {
        return false;
    }
    let prop = cube(&C::a()).mul(&Zn::from_u64(4)).add(&sq(&C::b()).mul(&Zn::from_u64(27)));
    !prop.is_zero()
}

/// `x³ + a·x + b` on the curve `C`.
pub fn right_side_of<N: BigPrime, C: Curve<N>>(x: &Zn<N>) -> (r: Zn<N>)
    ensures
        r.val() == right_side(N::spec_value(), C::spec_a(), C::spec_b(), x.val()),
{
    cube(x).add(&C::a().mul(x)).add(&C::b())
}

/// Whether `(x, y)` lies on the curve `C`.
pub fn check_solution<N: BigPrime, C: Curve<N>>(x: &Zn<N>, y: &Zn<N>) -> (r: bool)
    ensures
        r == on_curve(N::spec_value(), C::spec_a(), C::spec_b(), x.val(), y.val()),
{
    sq(y).equals(&right_side_of::<N, C>(x))
}

/// The candidate `x^((p+1)/4)` for a square root of `x` squares back to `x`.
pub open spec fn root_candidate_works(p: nat, x: nat) -> bool {
    let c = pow(x as int, (p + 1) / 4) % (p as int);
    (c * c) % (p as int) == x
}

/// A `y` with `(x, y)` on the curve, where the square root finds one.
pub fn solve<N: BigPrime, C: Curve<N>>(x: &Zn<N>) -> (r: Option<Zn<N>>)
    ensures
        r.is_some() ==> on_curve(N::spec_value(), C::spec_a(), C::spec_b(), x.val(), r->0.val()),
        r.is_none() ==> !root_candidate_works(
            N::spec_value(),
            right_side(N::spec_value(), C::spec_a(), C::spec_b(), x.val()),
        ),
{
    right_side_of::<N, C>(x).sqrt()
}

/// The affine point `(x, y)`, checked against the curve equation.
pub fn curve_affine<N: BigPrime, C: Curve<N>>(x: Zn<N>, y: Zn<N>) -> (r: Result<
    EllipticPoint<N, C>,
    NotOnCurve,
>)
    ensures
        r.is_ok() == on_curve(N::spec_value(), C::spec_a(), C::spec_b(), x.val(), y.val()),
        r.is_ok() ==> r->Ok_0.coords() == (x.val(), y.val(), 1nat),
{
    if check_solution::<N, C>(&x, &y) {
        Ok(EllipticPoint::affine(x, y))
    } else {
        Err(NotOnCurve)
    }
}

/// A point of the curve `C`, as `(x, y, z)`; `z = 0` is the point at infinity.
pub struct EllipticPoint<N: BigPrime, C> {
    coords: (Zn<N>, Zn<N>, Zn<N>),
    curve: PhantomData<C>,
}

pub fn sq<N: BigPrime>(x: &Zn<N>) -> (r: Zn<N>)
    ensures
        r.val() == fsq(N::spec_value(), x.val()),
{
    x.mul(x)
}

pub fn cube<N: BigPrime>(x: &Zn<N>) -> (r: Zn<N>)
    ensures
        r.val() == fcube(N::spec_value(), x.val()),
{
    sq(x).mul(x)
}

impl<N: BigPrime, C: Curve<N>> EllipticPoint<N, C> {
    pub closed spec fn coords(&self) -> (nat, nat, nat) {
        (self.coords.0.val(), self.coords.1.val(), self.coords.2.val())
    }

    pub(crate) fn new(x: Zn<N>, y: Zn<N>, z: Zn<N>) -> (r: Self)
        ensures
            r.coords() == (x.val(), y.val(), z.val()),
    {
        Self::from_coords((x, y, z))
    }

    pub(crate) fn from_coords(coords: (Zn<N>, Zn<N>, Zn<N>)) -> (r: Self)
        ensures
            r.coords() == (coords.0.val(), coords.1.val(), coords.2.val()),
    {
        EllipticPoint { coords, curve: PhantomData }
    }

    /// The point `(x, y, 1)`, unchecked.
    pub(crate) fn affine(x: Zn<N>, y: Zn<N>) -> (r: Self)
        ensures
            r.coords() == (x.val(), y.val(), 1nat),
    {
        let one = Zn::one();
        Self::new(x, y, one)
    }

    pub fn x(&self) -> (r: Zn<N>)
        ensures
            r.val() == self.coords().0,
    {
        self.coords.0.copy()
    }

    pub fn y(&self) -> (r: Zn<N>)
        ensures
            r.val() == self.coords().1,
    {
        self.coords.1.copy()
    }

    pub fn z(&self) -> (r: Zn<N>)
        ensures
            r.val() == self.coords().2,
    {
        self.coords.2.copy()
    }

    pub fn copy(&self) -> (r: Self)
        ensures
            r.coords() == self.coords(),
    {
        Self::new(self.x(), self.y(), self.z())
    }

    /// The identity `(0, 1, 0)`.
    pub fn zero() -> (r: Self)
        ensures
            r.coords() == (0nat, 1nat, 0nat),
    {
        Self::new(Zn::zero(), Zn::one(), Zn::zero())
    }

    pub fn is_infinite(&self) -> (r: bool)
        ensures
            r == (self.coords().2 == 0),
    {
        self.coords.2.is_zero()
    }

    pub fn is_zero(&self) -> (r: bool)
        ensures
            r == (self.coords().2 == 0),
    {
        self.is_infinite()
    }

    /// Projective comparison.
    pub fn equals(&self, o: &Self) -> (r: bool)
        ensures
            r == proj_eq(N::spec_value(), self.coords(), o.coords()),
    {
        if self.is_zero() {
            o.is_zero()
        } else {
            self.x().mul(&o.z()).equals(&o.x().mul(&self.z())) && self.y().mul(&o.z()).equals(
                &o.y().mul(&self.z()),
            )
        }
    }

    pub fn neg(&self) -> (r: Self)
        ensures
            r.coords() == proj_neg(N::spec_value(), self.coords()),
    {
        Self::new(self.x(), self.y().neg(), self.z())
    }

    fn double(&self) -> (r: Self)
        ensures
            r.coords() == proj_double(N::spec_value(), C::spec_a(), self.coords()),
    {
        let (x, y, z) = (self.x(), self.y(), self.z());
        let two = Zn::<N>::from_u64(2);
        let three = Zn::<N>::from_u64(3);
        let four = Zn::<N>::from_u64(4);
        let eight = Zn::<N>::from_u64(8);
        let q = y.mul(&z).mul(&two);
        let n = sq(&x).mul(&three).add(&C::a().mul(&sq(&z)));
        let t = x.mul(&sq(&y)).mul(&z).mul(&four);
        let u = sq(&n).sub(&t.mul(&two));
        let nx = u.mul(&q);
        let nz = cube(&q);
        let ny = n.mul(&t.sub(&u)).sub(&sq(&sq(&y).mul(&z)).mul(&eight));
        Self::new(nx, ny, nz)
    }

    fn add_distinct(&self, o: &Self) -> (r: Self)
        ensures
            r.coords() == proj_general(N::spec_value(), self.coords(), o.coords()),
    {
        let (x1, y1, z1) = (self.x(), self.y(), self.z());
        let (x2, y2, z2) = (o.x(), o.y(), o.z());
        let two = Zn::<N>::from_u64(2);
        let u = y2.mul(&z1).sub(&y1.mul(&z2));
        let v = x2.mul(&z1).sub(&x1.mul(&z2));
        let w = sq(&u).mul(&z1).mul(&z2).sub(&cube(&v)).sub(&sq(&v).mul(&two).mul(&x1).mul(&z2));
        let q = cube(&v).mul(&y1).mul(&z2);
        let nx = v.mul(&w);
        let nz = z1.mul(&z2).mul(&cube(&v));
        let ny = u.mul(&sq(&v).mul(&x1).mul(&z2).sub(&w)).sub(&q);
        Self::new(nx, ny, nz)
    }

    /// The group law: identity cases, inverse points, doubling, and the
    /// general formula, with equality tested projectively first.
    pub fn add(&self, o: &Self) -> (r: Self)
        ensures
            r.coords() == proj_add(N::spec_value(), C::spec_a(), self.coords(), o.coords()),
    {
        if self.is_zero() {
            o.copy()
        } else if o.is_zero() {
            self.copy()
        } else if self.equals(&o.neg()) {
            let m = N::value();
            proof {
                vstd::arithmetic::div_mod::lemma_small_mod(1, m.val());
            }
            Self::zero()
        } else if self.equals(o) {
            self.double()
        } else {
            self.add_distinct(o)
        }
    }

    pub fn sub(&self, o: &Self) -> (r: Self)
        ensures
            r.coords() == proj_add(
                N::spec_value(),
                C::spec_a(),
                self.coords(),
                proj_neg(N::spec_value(), o.coords()),
            ),
    {
        self.add(&o.neg())
    }

    /// `k·P` by doubling and adding; a negative `k` negates `P` first.
    pub fn mul(&self, k: &Integer) -> (r: Self)
        ensures
            r.coords() == repeat_doubling(
                PointAddition::<N, C> { curve: PhantomData },
                k.magnitude.val(),
                if k.negative { proj_neg(N::spec_value(), self.coords()) } else { self.coords() },
                (0nat, 1nat, 0nat),
            ),
    {
        let base = if k.negative { self.neg() } else { self.copy() };
        let app = PointAddition::<N, C> { curve: PhantomData };
        repeat_monoid(app, k.magnitude.copy(), base, Self::zero())
    }
}

impl<N: BigPrime, C: Curve<N>> PartialEq for EllipticPoint<N, C> {
    fn eq(&self, o: &Self) -> (r: bool) {
        self.equals(o)
    }
}

impl<N: BigPrime, C: Curve<N>> vstd::std_specs::cmp::PartialEqSpecImpl for EllipticPoint<N, C> {
    open spec fn obeys_eq_spec() -> bool {
        true
    }

    open spec fn eq_spec(&self, o: &Self) -> bool {
        proj_eq(N::spec_value(), self.coords(), o.coords())
    }
}

/// The group addition of `C`, as an operation for `repeat_monoid`, over
/// the coordinates of points.
pub struct PointAddition<N: BigPrime, C> {
    pub curve: PhantomData<(N, C)>,
}

impl<N: BigPrime, C: Curve<N>> Operation<EllipticPoint<N, C>> for PointAddition<N, C> {
    type View = (nat, nat, nat);

    open spec fn view(&self, a: EllipticPoint<N, C>) -> (nat, nat, nat) {
        a.coords()
    }

    open spec fn combine(&self, a: (nat, nat, nat), b: (nat, nat, nat)) -> (nat, nat, nat) {
        proj_add(N::spec_value(), C::spec_a(), a, b)
    }

    fn apply(&self, a: &EllipticPoint<N, C>, b: &EllipticPoint<N, C>) -> (r: EllipticPoint<N, C>) {
        a.add(b)
    }
}


/// Scaling back by `z` undoes division by `z`.
proof fn lemma_unscale(p: nat, x: nat, z: nat, i: nat)
    requires
        p > 1,
        x < p,
        (z * i) % p == 1,
    ensures
        fmul(p, fmul(p, x, i), z) == fmul(p, x, 1),
{
    let (pi, xi, zi, ii) = (p as int, x as int, z as int, i as int);
    lemma_mul_mod_noop_left(xi * ii, zi, pi);
    assert((xi * ii) * zi == xi * (zi * ii)) by (nonlinear_arith);
    lemma_mul_mod_noop_right(xi, zi * ii, pi);
}

impl<N: BigPrime, C: Curve<N>> Serialize for EllipticPoint<N, C> {
    /// `0x00` at infinity; else `0x01` and the affine `x` and `y`.
    open spec fn wire(&self) -> Seq<u8> {
        let p = N::spec_value();
        let (x, y, z) = self.coords();
        let w = byte_width(p);
        if z == 0 || gcd(z, p) != 1 {
            seq![0u8]
        } else {
            let i = spec_inverse(p, z);
            seq![1u8] + le_bytes(fmul(p, x, i), w) + le_bytes(fmul(p, y, i), w)
        }
    }

    open spec fn wire_ok(&self) -> bool {
        let p = N::spec_value();
        let (x, y, z) = self.coords();
        &&& x < p && y < p && z < p
        &&& z != 0 ==> gcd(z, p) == 1 && invertible(p, z) && on_curve(
            p,
            C::spec_a(),
            C::spec_b(),
            fmul(p, x, spec_inverse(p, z)),
            fmul(p, y, spec_inverse(p, z)),
        )
    }

    open spec fn same(&self, o: &Self) -> bool {
        proj_eq(N::spec_value(), self.coords(), o.coords())
    }

    open spec fn self_delimiting() -> bool {
        true
    }

    /// A point whose `z` has no inverse (only possible for a composite
    /// modulus) is written as the point at infinity.
    fn serialize(&self) -> (r: Vec<u8>) {
        if self.is_infinite() {
            vec![0u8]
        } else {
            let z = self.z();
            if !z.has_inverse() {
                vec![0u8]
            } else {
                let m = N::value();
                let i = z.inv();
                proof {
                    lemma_inverse_unique(N::spec_value(), z.val(), i.val());
                }
                let mut r = vec![1u8];
                let mut bx = self.x().mul(&i).to_bytes();
                let mut by = self.y().mul(&i).to_bytes();
                r.append(&mut bx);
                r.append(&mut by);
                r
            }
        }
    }
}

/// How a curve embeds message bytes in its points.
pub trait Encoder<T> {
    type Error;

    spec fn consumed(bytes: Seq<u8>) -> nat;

    spec fn succeeds(bytes: Seq<u8>) -> bool;

    spec fn encodes(bytes: Seq<u8>, e: T) -> bool;

    /// As `Encoding::encode`.
    fn encode(stream: &mut Stream) -> (r: Option<T>)
        ensures
            Self::consumed(old(stream).rest()) <= old(stream).rest().len(),
            final(stream).rest() == old(stream).rest().skip(Self::consumed(old(stream).rest()) as int),
            r.is_some() == Self::succeeds(old(stream).rest()),
            r matches Some(e) ==> Self::encodes(old(stream).rest(), e),
            Self::succeeds(old(stream).rest()) && old(stream).rest().len() > 0 ==> Self::consumed(
                old(stream).rest(),
            ) > 0,
    ;

    /// `r` is what `decode` gives for `item`.
    spec fn decoding(item: T, r: Result<Vec<u8>, Self::Error>) -> bool;

    fn decode(item: &T) -> (r: Result<Vec<u8>, Self::Error>)
        ensures
            Self::decoding(*item, r),
    ;
}

impl<N: BigPrime, C: Curve<N> + Encoder<EllipticPoint<N, C>>> Encoding for EllipticPoint<N, C> {
    open spec fn consumed(bytes: Seq<u8>) -> nat {
        C::consumed(bytes)
    }

    open spec fn succeeds(bytes: Seq<u8>) -> bool {
        C::succeeds(bytes)
    }

    open spec fn encodes(bytes: Seq<u8>, e: Self) -> bool {
        C::encodes(bytes, e)
    }

    fn encode(stream: &mut Stream) -> (r: Option<Self>) {
        C::encode(stream)
    }
}

impl<N: BigPrime, C: Curve<N> + Encoder<EllipticPoint<N, C>>> Decoding for EllipticPoint<N, C> {
    type Error = C::Error;

    open spec fn decoding(&self, r: Result<Vec<u8>, C::Error>) -> bool {
        C::decoding(*self, r)
    }

    fn decode(&self) -> (r: Result<Vec<u8>, Self::Error>) {
        C::decode(self)
    }
}

/// Error of reading a point.
pub enum PointDeserError {
    NotEnoughBytes,
    NotOnCurve(NotOnCurve),
}

impl<N: BigPrime, C: Curve<N>> Deserialize for EllipticPoint<N, C> {
    type Error = PointDeserError;

    /// `None` on no byte; the tag `0` is the point at infinity; any other
    /// tag needs two fields of `width(N)` bytes (else `NotEnoughBytes`),
    /// read modulo `N` as the affine `x` and `y`, which must solve the curve
    /// equation (else `NotOnCurve`).
    open spec fn reads(bytes: Seq<u8>, r: Result<Option<Self>, Self::Error>, rest: Seq<u8>) -> bool {
        let p = N::spec_value();
        let w = byte_width(p) as int;
        if bytes.len() == 0 {
            (r matches Ok(None)) && rest == bytes
        } else if bytes[0] == 0 {
            (r matches Ok(Some(q)) && q.coords() == (0nat, 1nat, 0nat)) && rest == bytes.skip(1)
        } else if bytes.len() < 1 + 2 * w {
            r matches Err(PointDeserError::NotEnoughBytes)
        } else {
            let x = le_value(bytes.subrange(1, 1 + w as int)) % p;
            let y = le_value(bytes.subrange(1 + w as int, 1 + 2 * w as int)) % p;
            &&& rest == bytes.skip(1 + 2 * w as int)
            &&& on_curve(p, C::spec_a(), C::spec_b(), x, y) ==> (r matches Ok(Some(q)) && q.coords() == (
                x,
                y,
                1nat,
            ))
            &&& !on_curve(p, C::spec_a(), C::spec_b(), x, y) ==> (r matches Err(
                PointDeserError::NotOnCurve(_),
            ))
        }
    }

    /// A finite point is checked against the curve equation.
    fn deserialize(stream: &mut Stream) -> (r: Result<Option<Self>, Self::Error>) {
        let m = N::value();
        let mn = m.normalized();
        let width = mn.bytes.len();
        let ghost p = N::spec_value();
        let ghost w = byte_width(p);
        let ghost s0 = stream.rest();
        proof {
            crate::zn::lemma_canonical_width(mn.bytes@);
            lemma_width_bound(p);
            assert forall|q: Self|
                #![trigger q.wire()]
                q.wire_ok() && s0 == q.wire() implies is_prefix(q.wire(), s0) by {
                assert(q.wire().take(q.wire().len() as int) =~= q.wire());
            }
        }
        match stream.next() {
            None => Ok(None),
            Some(tag) => {
                if tag == 0 {
                    let r = Self::zero();
                    proof {
                        assert forall|q: Self|
                            #![trigger q.wire()]
                            q.wire_ok() && is_prefix(q.wire(), s0) implies q.coords().2 == 0
                                && q.wire().len() == 1 by {
                            let (x, y, z) = q.coords();
                            if z != 0 {
                                let i = spec_inverse(p, z);
                                assert(q.wire()[0] == 1u8);
                                assert(s0.take(q.wire().len() as int)[0] == s0[0]);
                            }
                        }
                    }
                    Ok(Some(r))
                } else {
                    let ghost s1 = stream.rest();
                    if stream.remaining() / 2 < width {
                        proof {
                            assert forall|q: Self|
                                #![trigger q.wire()]
                                q.wire_ok() && is_prefix(q.wire(), s0) implies false by {
                                let (qx, qy, qz) = q.coords();
                                let wq = q.wire();
                                assert(s0.take(wq.len() as int)[0] == s0[0]);
                                if qz != 0 {
                                    let i = spec_inverse(p, qz);
                                    lemma_le_bytes_value(fmul(p, qx, i), w);
                                    lemma_le_bytes_value(fmul(p, qy, i), w);
                                }
                            }
                        }
                        return Err(PointDeserError::NotEnoughBytes);
                    }
                    proof {
                        assert forall|q: Self|
                            #![trigger q.wire()]
                            q.wire_ok() && is_prefix(q.wire(), s0) implies q.coords().2 != 0 && s1.len()
                                >= 2 * w by {
                            let (qx, qy, qz) = q.coords();
                            let wq = q.wire();
                            assert(s0.take(wq.len() as int)[0] == s0[0]);
                            if qz != 0 {
                                let i = spec_inverse(p, qz);
                                lemma_le_bytes_value(fmul(p, qx, i), w);
                                lemma_le_bytes_value(fmul(p, qy, i), w);
                            }
                        }
                    }
                    let x = match Zn::<N>::read(stream) {
                        None => return Err(PointDeserError::NotEnoughBytes),
                        Some(x) => x,
                    };
                    let ghost s2 = stream.rest();
                    let y = match Zn::<N>::read(stream) {
                        None => return Err(PointDeserError::NotEnoughBytes),
                        Some(y) => y,
                    };
                    proof {
                        assert forall|q: Self|
                            #![trigger q.wire()]
                            q.wire_ok() && is_prefix(q.wire(), s0) implies ({
                                let (qx, qy, qz) = q.coords();
                                let i = spec_inverse(p, qz);
                                &&& qz != 0
                                &&& x.val() == fmul(p, qx, i)
                                &&& y.val() == fmul(p, qy, i)
                                &&& stream.rest() == s0.skip(q.wire().len() as int)
                            }) by {
                            let (qx, qy, qz) = q.coords();
                            let wq = q.wire();
                            if qz == 0 {
                                assert(wq[0] == 0u8);
                                assert(s0.take(wq.len() as int)[0] == s0[0]);
                            } else {
                                let i = spec_inverse(p, qz);
                                let ax = fmul(p, qx, i);
                                let ay = fmul(p, qy, i);
                                let bx = le_bytes(ax, w);
                                let by = le_bytes(ay, w);
                                lemma_le_bytes_value(ax, w);
                                lemma_le_bytes_value(ay, w);
                                assert(wq == seq![1u8] + bx + by);
                                assert(s0.take(wq.len() as int) == wq);
                                assert(s1 == s0.skip(1));
                                assert(s1.take(w as int) =~= bx) by {
                                    assert forall|j: int| 0 <= j < w implies s1.take(w as int)[j] == bx[j] by {
                                        assert(s0.take(wq.len() as int)[1 + j] == wq[1 + j]);
                                    }
                                }
                                lemma_small_mod(ax, p);
                                lemma_small_mod(ay, p);
                                assert(s2 == s1.skip(w as int));
                                assert(s2.take(w as int) =~= by) by {
                                    assert forall|j: int| 0 <= j < w implies s2.take(w as int)[j] == by[j] by {
                                        assert(s0.take(wq.len() as int)[1 + w + j] == wq[1 + w + j]);
                                    }
                                }
                                assert(stream.rest() =~= s0.skip(wq.len() as int));
                            }
                        }
                    }
                    proof {
                        assert(s1.take(w as int) =~= s0.subrange(1, 1 + w as int));
                        assert(s2.take(w as int) =~= s0.subrange(1 + w as int, 1 + 2 * w as int));
                        assert(stream.rest() =~= s0.skip(1 + 2 * w as int));
                    }
                    match curve_affine::<N, C>(x, y) {
                        Ok(point) => {
                            proof {
                                assert forall|q: Self|
                                    #![trigger q.wire()]
                                    q.wire_ok() && is_prefix(q.wire(), s0) implies proj_eq(p, point.coords(), q.coords()) by {
                                    let (qx, qy, qz) = q.coords();
                                    let i = spec_inverse(p, qz);
                                    assert(invertible(p, qz));
                                    assert(i < p && (qz * i) % p == 1);
                                    lemma_unscale(p, qx, qz, i);
                                    lemma_unscale(p, qy, qz, i);
                                }
                            }
                            Ok(Some(point))
                        },
                        Err(e) => Err(PointDeserError::NotOnCurve(e)),
                    }
                }
            },
        }
    }
}

} // verus!
