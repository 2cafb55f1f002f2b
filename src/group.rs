//! Finite groups, written additively, with scalar multiplication.
use vstd::prelude::*;

use crate::algo::repeat_doubling;
use crate::curve::{proj_add, proj_neg, Curve, EllipticPoint, PointAddition};
use crate::natural::{Integer, Natural};
use crate::zn::BigPrime;

use std::marker::PhantomData;

verus! {

/// A finite group: `add`, `neg`, and `k·a` as `k`-fold addition, stated
/// over a view of the elements (coordinates of a point, a residue).
pub trait FinGroup: Sized {
    type View;

    spec fn group_view(&self) -> Self::View;

    spec fn spec_order() -> nat;

    spec fn spec_add(a: Self::View, b: Self::View) -> Self::View;

    spec fn spec_neg(a: Self::View) -> Self::View;

    spec fn spec_mul(a: Self::View, k: nat) -> Self::View;

    /// The number of elements.
    fn order() -> (r: Natural)
        ensures
            r.val() == Self::spec_order(),
            r.val() > 1,
    ;

    fn add(&self, o: &Self) -> (r: Self)
        ensures
            r.group_view() == Self::spec_add(self.group_view(), o.group_view()),
    ;

    fn neg(&self) -> (r: Self)
        ensures
            r.group_view() == Self::spec_neg(self.group_view()),
    ;

    fn mul_scalar(&self, k: &Natural) -> (r: Self)
        ensures
            r.group_view() == Self::spec_mul(self.group_view(), k.val()),
    ;

    fn copy(&self) -> (r: Self)
        ensures
            r.group_view() == self.group_view(),
    ;
}

/// `a − b`.
pub fn subtract<G: FinGroup>(a: &G, b: &G) -> (r: G)
    ensures
        r.group_view() == G::spec_add(a.group_view(), G::spec_neg(b.group_view())),
{
    let n = b.neg();
    a.add(&n)
}

impl<N: BigPrime, C: Curve<N>> FinGroup for EllipticPoint<N, C> {
    type View = (nat, nat, nat);

    open spec fn group_view(&self) -> (nat, nat, nat) {
        self.coords()
    }

    open spec fn spec_order() -> nat {
        C::spec_order()
    }

    open spec fn spec_add(a: (nat, nat, nat), b: (nat, nat, nat)) -> (nat, nat, nat) {
        proj_add(N::spec_value(), C::spec_a(), a, b)
    }

    open spec fn spec_neg(a: (nat, nat, nat)) -> (nat, nat, nat) {
        proj_neg(N::spec_value(), a)
    }

    open spec fn spec_mul(a: (nat, nat, nat), k: nat) -> (nat, nat, nat) {
        repeat_doubling(PointAddition::<N, C> { curve: PhantomData }, k, a, (0nat, 1nat, 0nat))
    }

    fn order() -> (r: Natural) {
        C::group_order()
    }

    fn add(&self, o: &Self) -> (r: Self) {
        EllipticPoint::add(self, o)
    }

    fn neg(&self) -> (r: Self) {
        EllipticPoint::neg(self)
    }

    fn mul_scalar(&self, k: &Natural) -> (r: Self) {
        EllipticPoint::mul(self, &Integer::from_natural(k.copy()))
    }

    fn copy(&self) -> (r: Self) {
        EllipticPoint::copy(self)
    }
}

} // verus!
