use crate::point::Point;
use vstd::prelude::*;

verus! {

/// Provides approximate equality for scalar values.
pub trait ApproxEq: Copy + Sized {
    /// Whether `self` and `other` are within the type's tolerance of each other.
    spec fn spec_approx_eq(self, other: Self) -> bool;

    fn approx_eq(self, other: Self) -> (r: bool)
        ensures
            r == self.spec_approx_eq(other),
    ;
}

/// An unsigned integer type used to store indices in a triangulation.
///
/// Its largest value is reserved to mean "no index".
pub trait Index: Copy + Sized {
    /// The largest value of the type.
    spec fn spec_max() -> nat;

    /// The value as a natural number.
    spec fn to_nat(self) -> nat;

    proof fn lemma_range(x: Self)
        ensures
            x.to_nat() <= Self::spec_max(),
            Self::spec_max() <= usize::MAX,
    ;

    proof fn lemma_max_fits()
        ensures
            Self::spec_max() <= usize::MAX,
    ;

    /// Two indices with the same value are equal.
    proof fn lemma_to_nat_injective(x: Self, y: Self)
        ensures
            x.to_nat() == y.to_nat() ==> x == y,
    ;

    fn max_value() -> (r: Self)
        ensures
            r.to_nat() == Self::spec_max(),
    ;

    fn from_usize(n: usize) -> (r: Self)
        requires
            n <= Self::spec_max(),
        ensures
            r.to_nat() == n,
    ;

    fn as_usize(self) -> (r: usize)
        ensures
            r == self.to_nat(),
    ;
}

impl Index for u16 {
    open spec fn spec_max() -> nat {
        u16::MAX as nat
    }

    open spec fn to_nat(self) -> nat {
        self as nat
    }

    proof fn lemma_range(x: Self) {
    }

    proof fn lemma_max_fits() {
    }

    proof fn lemma_to_nat_injective(x: Self, y: Self) {
    }

    fn max_value() -> (r: Self) {
        u16::MAX
    }

    fn from_usize(n: usize) -> (r: Self) {
        n as u16
    }

    fn as_usize(self) -> (r: usize) {
        self as usize
    }
}

impl Index for u32 {
    open spec fn spec_max() -> nat {
        u32::MAX as nat
    }

    open spec fn to_nat(self) -> nat {
        self as nat
    }

    proof fn lemma_range(x: Self) {
    }

    proof fn lemma_max_fits() {
    }

    proof fn lemma_to_nat_injective(x: Self, y: Self) {
    }

    fn max_value() -> (r: Self) {
        u32::MAX
    }

    fn from_usize(n: usize) -> (r: Self) {
        n as u32
    }

    fn as_usize(self) -> (r: usize) {
        self as usize
    }
}

impl Index for usize {
    open spec fn spec_max() -> nat {
        usize::MAX as nat
    }

    open spec fn to_nat(self) -> nat {
        self as nat
    }

    proof fn lemma_range(x: Self) {
    }

    proof fn lemma_max_fits() {
    }

    proof fn lemma_to_nat_injective(x: Self, y: Self) {
    }

    fn max_value() -> (r: Self) {
        usize::MAX
    }

    fn from_usize(n: usize) -> (r: Self) {
        n
    }

    fn as_usize(self) -> (r: usize) {
        self
    }
}

/// The arithmetic that the triangulation computes with.
///
/// Each operation is a function of its arguments, named by a spec function;
/// the geometric predicates are stated over these names. Integer conversions
/// stand for the constants and the hash-key rounding of the algorithm:
/// `from_usize` converts a small integer exactly, `to_usize` truncates toward
/// zero, saturating at the ends of the `usize` range.
pub trait Scalar: Copy + Sized {
    spec fn spec_add(self, rhs: Self) -> Self;

    spec fn spec_sub(self, rhs: Self) -> Self;

    spec fn spec_mul(self, rhs: Self) -> Self;

    spec fn spec_div(self, rhs: Self) -> Self;

    spec fn spec_neg(self) -> Self;

    spec fn spec_lt(self, rhs: Self) -> bool;

    spec fn spec_abs(self) -> Self;

    spec fn spec_min(self, rhs: Self) -> Self;

    spec fn spec_max(self, rhs: Self) -> Self;

    spec fn spec_infinity() -> Self;

    spec fn spec_from_usize(n: usize) -> Self;

    spec fn spec_to_usize(self) -> usize;

    fn add(self, rhs: Self) -> (r: Self)
        ensures
            r == self.spec_add(rhs),
    ;

    fn sub(self, rhs: Self) -> (r: Self)
        ensures
            r == self.spec_sub(rhs),
    ;

    fn mul(self, rhs: Self) -> (r: Self)
        ensures
            r == self.spec_mul(rhs),
    ;

    fn div(self, rhs: Self) -> (r: Self)
        ensures
            r == self.spec_div(rhs),
    ;

    fn neg(self) -> (r: Self)
        ensures
            r == self.spec_neg(),
    ;

    fn lt(self, rhs: Self) -> (r: bool)
        ensures
            r == self.spec_lt(rhs),
    ;

    fn abs(self) -> (r: Self)
        ensures
            r == self.spec_abs(),
    ;

    fn min(self, other: Self) -> (r: Self)
        ensures
            r == self.spec_min(other),
    ;

    fn max(self, other: Self) -> (r: Self)
        ensures
            r == self.spec_max(other),
    ;

    fn infinity() -> (r: Self)
        ensures
            r == Self::spec_infinity(),
    ;

    fn from_usize(n: usize) -> (r: Self)
        ensures
            r == Self::spec_from_usize(n),
    ;

    fn to_usize(self) -> (r: usize)
        ensures
            r == self.spec_to_usize(),
    ;
}

/// A value with a position in the plane.
pub trait HasPosition<T: Scalar> {
    spec fn spec_pos(&self) -> Point<T>;

    fn pos(&self) -> (r: Point<T>)
        ensures
            r == self.spec_pos(),
    ;
}

impl<T: Scalar> HasPosition<T> for Point<T> {
    open spec fn spec_pos(&self) -> Point<T> {
        *self
    }

    fn pos(&self) -> (r: Point<T>) {
        *self
    }
}

} // verus!
