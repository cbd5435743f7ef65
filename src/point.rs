use crate::traits::{ApproxEq, Scalar};
use vstd::prelude::*;

verus! {

/// A point (or vector) in the plane.
#[derive(Clone, Copy, PartialEq, Debug)]
pub struct Point<T: Scalar> {
    pub x: T,
    pub y: T,
}

/// The scalar `n`, for a small integer constant `n`.
pub open spec fn konst<T: Scalar>(n: usize) -> T {
    T::spec_from_usize(n)
}

impl<T: Scalar> Point<T> {
    pub open spec fn spec_add(self, p: Self) -> Self {
        Point { x: self.x.spec_add(p.x), y: self.y.spec_add(p.y) }
    }

    pub open spec fn spec_sub(self, p: Self) -> Self {
        Point { x: self.x.spec_sub(p.x), y: self.y.spec_sub(p.y) }
    }

    pub open spec fn spec_mul(self, k: T) -> Self {
        Point { x: self.x.spec_mul(k), y: self.y.spec_mul(k) }
    }

    pub open spec fn spec_length_squared(self) -> T {
        self.x.spec_mul(self.x).spec_add(self.y.spec_mul(self.y))
    }

    pub open spec fn spec_perp(self) -> Self {
        Point { x: self.y.spec_neg(), y: self.x }
    }

    pub open spec fn spec_perp_dot(self, p: Self) -> T {
        self.x.spec_mul(p.y).spec_sub(self.y.spec_mul(p.x))
    }

    pub open spec fn spec_distance_squared(self, p: Self) -> T {
        self.spec_sub(p).spec_length_squared()
    }

    /// `(r - q) x (q - self) > 0`.
    pub open spec fn spec_is_clockwise(self, q: Self, r: Self) -> bool {
        konst::<T>(0).spec_lt(r.spec_sub(q).spec_perp_dot(q.spec_sub(self)))
    }

    /// `k * perp(cl * d - bl * e)` with `d = b - self`, `e = c - self`,
    /// `bl = |d|^2`, `cl = |e|^2` and `k = 0.5 / (d x e)`.
    pub open spec fn spec_circumdelta(self, b: Self, c: Self) -> Self {
        let d = b.spec_sub(self);
        let e = c.spec_sub(self);
        let bl = d.spec_length_squared();
        let cl = e.spec_length_squared();
        let k = konst::<T>(1).spec_div(konst::<T>(2)).spec_div(d.spec_perp_dot(e));
        d.spec_mul(cl).spec_sub(e.spec_mul(bl)).spec_perp().spec_mul(k)
    }

    pub open spec fn spec_circumradius_squared(self, b: Self, c: Self) -> T {
        self.spec_circumdelta(b, c).spec_length_squared()
    }

    pub open spec fn spec_circumcenter(self, b: Self, c: Self) -> Self {
        self.spec_add(self.spec_circumdelta(b, c))
    }

    /// The sign of the in-circle determinant, relative to `self`.
    pub open spec fn spec_is_in_circle(self, a: Self, b: Self, c: Self) -> bool {
        let d = a.spec_sub(self);
        let e = b.spec_sub(self);
        let f = c.spec_sub(self);
        let ap = d.spec_length_squared();
        let bp = e.spec_length_squared();
        let cp = f.spec_length_squared();
        let g = e.spec_mul(cp).spec_sub(f.spec_mul(bp));
        konst::<T>(0).spec_lt(d.spec_perp_dot(g).spec_add(ap.spec_mul(e.spec_perp_dot(f))))
    }

    pub open spec fn spec_nearly_equals(self, p: Self) -> bool
        where T: ApproxEq
    {
        self.x.spec_approx_eq(p.x) && self.y.spec_approx_eq(p.y)
    }

    pub fn new(x: T, y: T) -> (r: Self)
        ensures
            r == (Point { x, y }),
    {
        Point { x, y }
    }

    /// The sum of two vectors.
    pub fn add(self, p: Self) -> (r: Self)
        ensures
            r == self.spec_add(p),
    {
        Point { x: self.x.add(p.x), y: self.y.add(p.y) }
    }

    /// The difference of two vectors.
    pub fn sub(self, p: Self) -> (r: Self)
        ensures
            r == self.spec_sub(p),
    {
        Point { x: self.x.sub(p.x), y: self.y.sub(p.y) }
    }

    /// The vector scaled by `k`.
    pub fn mul(self, k: T) -> (r: Self)
        ensures
            r == self.spec_mul(k),
    {
        Point { x: self.x.mul(k), y: self.y.mul(k) }
    }

    /// The square of the length of `self`.
    pub fn length_squared(self) -> (r: T)
        ensures
            r == self.spec_length_squared(),
    {
        self.x.mul(self.x).add(self.y.mul(self.y))
    }

    /// `self` rotated by 90 degrees.
    pub fn perp(self) -> (r: Self)
        ensures
            r == self.spec_perp(),
    {
        Point { x: self.y.neg(), y: self.x }
    }

    /// The perpendicular dot product of `self` and `p`.
    pub fn perp_dot(self, p: Self) -> (r: T)
        ensures
            r == self.spec_perp_dot(p),
    {
        self.x.mul(p.y).sub(self.y.mul(p.x))
    }

    /// The square of the distance between `self` and `p`.
    pub fn distance_squared(self, p: Self) -> (r: T)
        ensures
            r == self.spec_distance_squared(p),
    {
        self.sub(p).length_squared()
    }

    /// Whether the path `self` to `q` to `r` turns clockwise (in a
    /// right-handed coordinate system).
    pub fn is_clockwise(self, q: Self, r: Self) -> (res: bool)
        ensures
            res == self.spec_is_clockwise(q, r),
    {
        let zero = T::from_usize(0);
        zero.lt(r.sub(q).perp_dot(q.sub(self)))
    }

    /// The offset from `self` to the center of the circle through `self`,
    /// `b` and `c`. Collinear points are not guarded against.
    fn circumdelta(self, b: Self, c: Self) -> (r: Self)
        ensures
            r == self.spec_circumdelta(b, c),
    {
        let d = b.sub(self);
        let e = c.sub(self);
        let bl = d.length_squared();
        let cl = e.length_squared();
        let half = T::from_usize(1).div(T::from_usize(2));
        let k = half.div(d.perp_dot(e));
        d.mul(cl).sub(e.mul(bl)).perp().mul(k)
    }

    /// The square of the radius of the circle through `self`, `b` and `c`.
    pub fn circumradius_squared(self, b: Self, c: Self) -> (r: T)
        ensures
            r == self.spec_circumradius_squared(b, c),
    {
        self.circumdelta(b, c).length_squared()
    }

    /// The center of the circle through `self`, `b` and `c`.
    pub fn circumcenter(self, b: Self, c: Self) -> (r: Self)
        ensures
            r == self.spec_circumcenter(b, c),
    {
        self.add(self.circumdelta(b, c))
    }

    /// Whether `self` lies strictly inside the circle through `a`, `b` and
    /// `c`, taken counter-clockwise. A point on the circle is not inside.
    pub fn is_in_circle(self, a: Self, b: Self, c: Self) -> (r: bool)
        ensures
            r == self.spec_is_in_circle(a, b, c),
    {
        let d = a.sub(self);
        let e = b.sub(self);
        let f = c.sub(self);

        let ap = d.length_squared();
        let bp = e.length_squared();
        let cp = f.length_squared();

        let g = e.mul(cp).sub(f.mul(bp));

        let zero = T::from_usize(0);
        zero.lt(d.perp_dot(g).add(ap.mul(e.perp_dot(f))))
    }

    /// Whether both coordinates are approximately equal.
    pub fn nearly_equals(self, p: Self) -> (r: bool)
        where T: ApproxEq
        ensures
            r == self.spec_nearly_equals(p),
    {
        self.x.approx_eq(p.x) && self.y.approx_eq(p.y)
    }
}

} // verus!
