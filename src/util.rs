use crate::point::{konst, Point};
use crate::traits::{HasPosition, Index, Scalar};
use vstd::prelude::*;

verus! {

/// A space-efficient `Option<I>`: the largest value of `I` stands for `None`.
///
/// Holds values from `0` to `I::max_value() - 1`.
#[derive(Clone, Copy, Debug, Eq, PartialEq, Ord, PartialOrd, Hash)]
pub struct OptionIndex<I>(pub(crate) I);

impl<I: Index> View for OptionIndex<I> {
    type V = Option<nat>;

    closed spec fn view(&self) -> Option<nat> {
        if self.0.to_nat() == I::spec_max() {
            None
        } else {
            Some(self.0.to_nat())
        }
    }
}

impl<I: Index> OptionIndex<I> {
    /// Two values that view alike are equal.
    pub proof fn lemma_view_injective(self, other: Self)
        ensures
            self@ == other@ ==> self == other,
    {
        I::lemma_range(self.0);
        I::lemma_range(other.0);
        I::lemma_to_nat_injective(self.0, other.0);
    }

    /// Every present value is below the reserved largest value.
    pub proof fn lemma_below_max(self)
        ensures
            self@ is Some ==> self@->0 < I::spec_max(),
            I::spec_max() <= usize::MAX,
    {
        I::lemma_range(self.0);
    }

    /// Creates a new `OptionIndex`; `None` if `n` is the reserved largest value.
    pub fn new(n: I) -> (r: Option<Self>)
        ensures
            n.to_nat() == I::spec_max() ==> r is None,
            n.to_nat() != I::spec_max() ==> r is Some && r->0@ == Some(n.to_nat()),
    {
        if n.as_usize() == I::max_value().as_usize() {
            None
        } else {
            Some(OptionIndex(n))
        }
    }

    /// The `None` value.
    pub fn none() -> (r: Self)
        ensures
            r@ is None,
    {
        OptionIndex(I::max_value())
    }

    /// The `Some(n)` value; `n` must not be the reserved largest value.
    pub fn some(n: I) -> (r: Self)
        requires
            n.to_nat() != I::spec_max(),
        ensures
            r@ == Some(n.to_nat()),
    {
        OptionIndex(n)
    }

    pub fn is_none(self) -> (r: bool)
        ensures
            r == self@ is None,
    {
        self.0.as_usize() == I::max_value().as_usize()
    }

    pub fn is_some(self) -> (r: bool)
        ensures
            r == self@ is Some,
    {
        !self.is_none()
    }

    /// Converts `self` into an `Option<I>`.
    pub fn get(self) -> (r: Option<I>)
        ensures
            r is None <==> self@ is None,
            r is Some ==> self@ == Some(r->0.to_nat()),
    {
        if self.is_none() {
            None
        } else {
            Some(self.0)
        }
    }

    /// The contained value; `self` must not be `None`.
    pub fn unwrap(self) -> (r: I)
        requires
            self@ is Some,
        ensures
            self@ == Some(r.to_nat()),
    {
        self.0
    }

    /// The contained value; `self` must not be `None`. The message names
    /// the expectation for readers of the calling code.
    pub fn expect(self, msg: &str) -> (r: I)
        requires
            self@ is Some,
        ensures
            self@ == Some(r.to_nat()),
    {
        self.0
    }

    /// `Some(n)` as an index, `None` as the reserved largest value.
    pub fn from_option(n: Option<usize>) -> (r: Self)
        requires
            n is Some ==> n->0 < I::spec_max(),
        ensures
            r@ == (match n {
                Some(v) => Some(v as nat),
                None => None,
            }),
    {
        match n {
            Some(v) => OptionIndex(I::from_usize(v)),
            None => OptionIndex::none(),
        }
    }

    /// The contained value as a `usize`.
    pub fn to_option(self) -> (r: Option<usize>)
        ensures
            r == (match self@ {
                Some(v) => Some(v as usize),
                None => None,
            }),
            self@ is Some ==> self@->0 <= usize::MAX,
    {
        proof {
            I::lemma_range(self.0);
        }
        if self.is_none() {
            None
        } else {
            Some(self.0.as_usize())
        }
    }
}

/// The next half-edge of the same triangle.
#[verifier::opaque]
pub open spec fn spec_next_halfedge(i: int) -> int {
    if i % 3 == 2 {
        i - 2
    } else {
        i + 1
    }
}

/// The previous half-edge of the same triangle.
#[verifier::opaque]
pub open spec fn spec_prev_halfedge(i: int) -> int {
    if i % 3 == 0 {
        i + 2
    } else {
        i - 1
    }
}

/// Half-edge arithmetic: `next` and `prev` stay within the triangle, are
/// inverse to each other, and go once around it in three steps.
pub proof fn lemma_halfedge(k: int)
    requires
        k >= 0,
    ensures
        spec_next_halfedge(k) >= 0,
        spec_prev_halfedge(k) >= 0,
        spec_next_halfedge(k) / 3 == k / 3,
        spec_prev_halfedge(k) / 3 == k / 3,
        spec_next_halfedge(k) != k,
        spec_prev_halfedge(k) != k,
        spec_next_halfedge(k) != spec_prev_halfedge(k),
        spec_prev_halfedge(spec_next_halfedge(k)) == k,
        spec_next_halfedge(spec_prev_halfedge(k)) == k,
        spec_next_halfedge(spec_next_halfedge(k)) == spec_prev_halfedge(k),
        spec_prev_halfedge(spec_prev_halfedge(k)) == spec_next_halfedge(k),
        k % 3 == 0 ==> spec_next_halfedge(k) == k + 1 && spec_prev_halfedge(k) == k + 2,
{
    reveal(spec_next_halfedge);
    reveal(spec_prev_halfedge);
}

/// Half-edge round trips: the half-edges `3t`, `3t + 1` and `3t + 2`
/// belong to triangle `t`, three steps of `next` come back to the start,
/// and `prev` undoes `next`.
pub proof fn lemma_halfedge_round_trip(t: int, k: int, e: int)
    requires
        t >= 0,
        0 <= k < 3,
        e >= 0,
    ensures
        (3 * t + k) / 3 == t,
        spec_next_halfedge(spec_next_halfedge(spec_next_halfedge(e))) == e,
        spec_prev_halfedge(spec_next_halfedge(e)) == e,
{
    lemma_halfedge(e);
    lemma_halfedge(spec_next_halfedge(e));
}

/// The three half-edges of a triangle are `k`, `next(k)` and `prev(k)`.
pub proof fn lemma_same_triangle(j: int, k: int)
    requires
        j >= 0,
        k >= 0,
        j / 3 == k / 3,
    ensures
        j == k || j == spec_next_halfedge(k) || j == spec_prev_halfedge(k),
{
    reveal(spec_next_halfedge);
    reveal(spec_prev_halfedge);
}

/// Next half-edge in a triangle.
pub fn next_halfedge(i: usize) -> (r: usize)
    requires
        i % 3 != 2 ==> i < usize::MAX,
    ensures
        r == spec_next_halfedge(i as int),
        r / 3 == i / 3,
{
    reveal(spec_next_halfedge);
    if i % 3 == 2 {
        i - 2
    } else {
        i + 1
    }
}

/// Previous half-edge in a triangle.
pub fn prev_halfedge(i: usize) -> (r: usize)
    requires
        i % 3 == 0 ==> i + 2 <= usize::MAX,
    ensures
        r == spec_prev_halfedge(i as int),
        r / 3 == i / 3,
{
    reveal(spec_prev_halfedge);
    if i % 3 == 0 {
        i + 2
    } else {
        i - 1
    }
}

/// The positions of `points`.
pub open spec fn positions<T: Scalar, P: HasPosition<T>>(points: Seq<P>) -> Seq<Point<T>> {
    Seq::new(points.len(), |i: int| points[i].spec_pos())
}

/// `(min_x, min_y, max_x, max_y)` over the first `k` points, starting from
/// an empty box (infinite minimum, negated infinite maximum).
pub open spec fn bbox_prefix<T: Scalar>(pts: Seq<Point<T>>, k: nat) -> (T, T, T, T)
    decreases k,
{
    if k == 0 {
        let inf = T::spec_infinity();
        (inf, inf, inf.spec_neg(), inf.spec_neg())
    } else {
        let (min_x, min_y, max_x, max_y) = bbox_prefix(pts, (k - 1) as nat);
        let p = pts[k - 1];
        (min_x.spec_min(p.x), min_y.spec_min(p.y), max_x.spec_max(p.x), max_y.spec_max(p.y))
    }
}

/// The center of the bounding box of `pts`.
pub open spec fn spec_bbox_center<T: Scalar>(pts: Seq<Point<T>>) -> Point<T> {
    let (min_x, min_y, max_x, max_y) = bbox_prefix(pts, pts.len());
    Point {
        x: min_x.spec_add(max_x).spec_div(konst::<T>(2)),
        y: min_y.spec_add(max_y).spec_div(konst::<T>(2)),
    }
}

/// Scanning the first `k` points in order, the point nearest to `p0` among
/// those at a positive distance: `(found, index, distance)`. A later point
/// replaces the current one only when strictly nearer, so ties go to the
/// first.
pub open spec fn closest_prefix<T: Scalar>(pts: Seq<Point<T>>, p0: Point<T>, k: nat) -> (
    bool,
    nat,
    T,
)
    decreases k,
{
    if k == 0 {
        (false, 0, T::spec_infinity())
    } else {
        let (found, i, min_dist) = closest_prefix(pts, p0, (k - 1) as nat);
        let d = p0.spec_distance_squared(pts[k - 1]);
        if konst::<T>(0).spec_lt(d) && d.spec_lt(min_dist) {
            (true, (k - 1) as nat, d)
        } else {
            (found, i, min_dist)
        }
    }
}

/// The index of the point nearest to `p0` at a positive distance, if any.
pub open spec fn spec_closest_point<T: Scalar>(pts: Seq<Point<T>>, p0: Point<T>) -> Option<nat> {
    let (found, i, _) = closest_prefix(pts, p0, pts.len());
    if found {
        Some(i)
    } else {
        None
    }
}

/// Scanning the first `k` points in order, skipping `i0` and `i1`, the one
/// that forms the smallest circumcircle with them: `(found, index, radius²)`.
pub open spec fn radius_prefix<T: Scalar>(pts: Seq<Point<T>>, i0: nat, i1: nat, k: nat) -> (
    bool,
    nat,
    T,
)
    decreases k,
{
    if k == 0 {
        (false, 0, T::spec_infinity())
    } else {
        let (found, i, min_r) = radius_prefix(pts, i0, i1, (k - 1) as nat);
        let j = (k - 1) as nat;
        if j == i0 || j == i1 {
            (found, i, min_r)
        } else {
            let r = pts[i0 as int].spec_circumradius_squared(pts[i1 as int], pts[j as int]);
            if r.spec_lt(min_r) {
                (true, j, r)
            } else {
                (found, i, min_r)
            }
        }
    }
}

/// The seed triangle: the point nearest to the center of the bounding box,
/// the point nearest to it, and the point that forms the smallest
/// circumcircle with those two, ordered so that the three do not turn
/// clockwise.
pub open spec fn spec_seed_triangle<T: Scalar>(pts: Seq<Point<T>>) -> Option<(nat, nat, nat)> {
    match spec_closest_point(pts, spec_bbox_center(pts)) {
        None => None,
        Some(i0) => match spec_closest_point(pts, pts[i0 as int]) {
            None => None,
            Some(i1) => {
                let (found, i2, _) = radius_prefix(pts, i0, i1, pts.len());
                if !found || i1 == i0 {
                    None
                } else if pts[i0 as int].spec_is_clockwise(pts[i1 as int], pts[i2 as int]) {
                    Some((i0, i2, i1))
                } else {
                    Some((i0, i1, i2))
                }
            },
        },
    }
}

/// The center of the bounding box of the points.
pub fn calc_bbox_center<T: Scalar, P: HasPosition<T>>(points: &[P]) -> (r: Point<T>)
    ensures
        r == spec_bbox_center(positions(points@)),
{
    let ghost pts = positions(points@);
    let mut min_x = T::infinity();
    let mut min_y = T::infinity();
    let mut max_x = T::infinity().neg();
    let mut max_y = T::infinity().neg();
    let mut i: usize = 0;
    while i < points.len()
        invariant
            i <= points@.len(),
            pts == positions(points@),
            (min_x, min_y, max_x, max_y) == bbox_prefix(pts, i as nat),
        decreases points@.len() - i,
    {
        let p = points[i].pos();
        min_x = min_x.min(p.x);
        min_y = min_y.min(p.y);
        max_x = max_x.max(p.x);
        max_y = max_y.max(p.y);
        i += 1;
    }
    let two = T::from_usize(2);
    Point { x: min_x.add(max_x).div(two), y: min_y.add(max_y).div(two) }
}

/// The index of the point nearest to `p0` among those at a positive distance
/// from it; `None` when there is none.
pub fn find_closest_point<T: Scalar, P: HasPosition<T>>(points: &[P], p0: Point<T>) -> (r: Option<
    usize,
>)
    ensures
        r matches Some(k) ==> k < points@.len(),
        spec_closest_point(positions(points@), p0) == (match r {
            Some(k) => Some(k as nat),
            None => None,
        }),
{
    let ghost pts = positions(points@);
    let mut min_dist = T::infinity();
    let mut k: usize = 0;
    let mut found = false;
    let zero = T::from_usize(0);
    let mut i: usize = 0;
    while i < points.len()
        invariant
            i <= points@.len(),
            pts == positions(points@),
            zero == konst::<T>(0),
            (found, k as nat, min_dist) == closest_prefix(pts, p0, i as nat),
            found ==> k < i,
        decreases points@.len() - i,
    {
        let d = p0.distance_squared(points[i].pos());
        if zero.lt(d) && d.lt(min_dist) {
            k = i;
            min_dist = d;
            found = true;
        }
        i += 1;
    }
    if found {
        Some(k)
    } else {
        None
    }
}

/// The seed triangle of a triangulation, as three distinct indices that do
/// not turn clockwise; `None` when the points have no such triple.
pub fn find_seed_triangle<T: Scalar, P: HasPosition<T>>(points: &[P]) -> (r: Option<
    (usize, usize, usize),
>)
    ensures
        spec_seed_triangle(positions(points@)) == (match r {
            Some((a, b, c)) => Some((a as nat, b as nat, c as nat)),
            None => None,
        }),
        r matches Some((a, b, c)) ==> a < points@.len() && b < points@.len() && c < points@.len()
            && a != b && b != c && a != c,
{
    let ghost pts = positions(points@);
    // pick a seed point close to the center
    let bbox_center = calc_bbox_center(points);
    let i0 = match find_closest_point(points, bbox_center) {
        Some(i) => i,
        None => return None,
    };
    let p0 = points[i0].pos();

    // find the point closest to the seed
    let i1 = match find_closest_point(points, p0) {
        Some(i) => i,
        None => return None,
    };
    let p1 = points[i1].pos();

    // find the third point which forms the smallest circumcircle with the first two
    let mut min_radius = T::infinity();
    let mut i2: usize = 0;
    let mut found = false;
    let mut i: usize = 0;
    while i < points.len()
        invariant
            i <= points@.len(),
            i0 < points@.len(),
            i1 < points@.len(),
            pts == positions(points@),
            p0 == pts[i0 as int],
            p1 == pts[i1 as int],
            (found, i2 as nat, min_radius) == radius_prefix(pts, i0 as nat, i1 as nat, i as nat),
            found ==> i2 < i && i2 != i0 && i2 != i1,
        decreases points@.len() - i,
    {
        if i != i0 && i != i1 {
            let r = p0.circumradius_squared(p1, points[i].pos());
            if r.lt(min_radius) {
                i2 = i;
                min_radius = r;
                found = true;
            }
        }
        i += 1;
    }

    // a point is at distance zero from itself, so it is never its own
    // nearest neighbour; the index test keeps the seed's points distinct
    if !found || i1 == i0 {
        None
    } else if p0.is_clockwise(p1, points[i2].pos()) {
        // swap the order of the seed points for counter-clockwise orientation
        Some((i0, i2, i1))
    } else {
        Some((i0, i1, i2))
    }
}

/// The multiset of a range grows by the element at its end.
proof fn lemma_range_push<A>(s: Seq<A>, a: int, b: int)
    requires
        0 <= a <= b < s.len(),
    ensures
        s.subrange(a, b + 1).to_multiset() =~= s.subrange(a, b).to_multiset().insert(s[b]),
{
    assert(s.subrange(a, b + 1) =~= s.subrange(a, b).push(s[b]));
    s.subrange(a, b).to_multiset_ensures();
}

/// The multiset of a range is the sum of those of its two parts.
proof fn lemma_range_split<A>(s: Seq<A>, a: int, b: int, c: int)
    requires
        0 <= a <= b <= c <= s.len(),
    ensures
        s.subrange(a, c).to_multiset() =~= s.subrange(a, b).to_multiset().add(
            s.subrange(b, c).to_multiset(),
        ),
{
    assert(s.subrange(a, c) =~= s.subrange(a, b) + s.subrange(b, c));
    vstd::seq_lib::lemma_multiset_commutative(s.subrange(a, b), s.subrange(b, c));
}

/// Appends to `dst` the runs `src[lo..mid]` and `src[mid..hi]` merged by
/// distance; on equal distances the left run goes first.
fn merge_runs<T: Scalar>(
    src: &Vec<usize>,
    lo: usize,
    mid: usize,
    hi: usize,
    dst: &mut Vec<usize>,
    dists: &Vec<T>,
)
    requires
        lo <= mid <= hi <= src@.len(),
        old(dst)@.len() == lo,
        old(dst)@.to_multiset() =~= src@.subrange(0, lo as int).to_multiset(),
        forall|k: int| 0 <= k < src@.len() ==> #[trigger] src@[k] < dists@.len(),
    ensures
        final(dst)@.len() == hi,
        final(dst)@.to_multiset() =~= src@.subrange(0, hi as int).to_multiset(),
{
    let ghost s = src@;
    let mut i = lo;
    let mut j = mid;
    proof {
        let e1 = s.subrange(lo as int, lo as int);
        let e2 = s.subrange(mid as int, mid as int);
        e1.to_multiset_ensures();
        e2.to_multiset_ensures();
        vstd::multiset::lemma_multiset_empty_len(e1.to_multiset());
        vstd::multiset::lemma_multiset_empty_len(e2.to_multiset());
    }
    while i < mid || j < hi
        invariant
            lo <= i <= mid <= j <= hi <= s.len(),
            s == src@,
            forall|k: int| 0 <= k < src@.len() ==> #[trigger] src@[k] < dists@.len(),
            dst@.len() == i + j - mid,
            dst@.to_multiset() =~= s.subrange(0, lo as int).to_multiset().add(
                s.subrange(lo as int, i as int).to_multiset(),
            ).add(s.subrange(mid as int, j as int).to_multiset()),
        decreases mid - i + hi - j,
    {
        let take_left = if i == mid {
            false
        } else if j == hi {
            true
        } else {
            !dists[src[j]].lt(dists[src[i]])
        };
        if take_left {
            proof {
                lemma_range_push(s, lo as int, i as int);
                dst@.to_multiset_ensures();
            }
            dst.push(src[i]);
            i += 1;
        } else {
            proof {
                lemma_range_push(s, mid as int, j as int);
                dst@.to_multiset_ensures();
            }
            dst.push(src[j]);
            j += 1;
        }
    }
    proof {
        lemma_range_split(s, 0, lo as int, mid as int);
        lemma_range_split(s, 0, mid as int, hi as int);
    }
}

/// The indices `0..dists.len()` in ascending order of `dists`, by a stable
/// merge sort.
pub fn sort_by_distance<T: Scalar>(dists: &Vec<T>) -> (order: Vec<usize>)
    requires
        dists@.len() <= usize::MAX / 4,
    ensures
        order@.len() == dists@.len(),
        order@.no_duplicates(),
        forall|k: int| 0 <= k < order@.len() ==> #[trigger] order@[k] < dists@.len(),
        forall|i: usize| i < dists@.len() ==> #[trigger] order@.contains(i),
{
    let n = dists.len();
    let mut src: Vec<usize> = Vec::with_capacity(n);
    let mut i: usize = 0;
    while i < n
        invariant
            i <= n,
            n == dists@.len(),
            src@.len() == i,
            forall|k: int| 0 <= k < i ==> #[trigger] src@[k] == k,
        decreases n - i,
    {
        src.push(i);
        i += 1;
    }
    let ghost base = src@;
    proof {
        assert(base.len() == n);
        assert(base.no_duplicates());
        base.lemma_multiset_has_no_duplicates();
    }
    let mut width: usize = 1;
    while width < n
        invariant
            n == dists@.len(),
            n <= usize::MAX / 4,
            1 <= width,
            src@.len() == n,
            src@.to_multiset() =~= base.to_multiset(),
            forall|k: int| 0 <= k < n ==> #[trigger] src@[k] < n,
        decreases n - width,
    {
        let mut dst: Vec<usize> = Vec::with_capacity(n);
        let mut lo: usize = 0;
        proof {
            assert(src@.subrange(0, 0) =~= Seq::<usize>::empty());
            dst@.to_multiset_ensures();
        }
        while lo < n
            invariant
                n == dists@.len(),
                n <= usize::MAX / 4,
                1 <= width < n,
                lo <= n,
                src@.len() == n,
                forall|k: int| 0 <= k < n ==> #[trigger] src@[k] < n,
                dst@.len() == lo,
                dst@.to_multiset() =~= src@.subrange(0, lo as int).to_multiset(),
            decreases n - lo,
        {
            let mid = if n - lo > width {
                lo + width
            } else {
                n
            };
            let hi = if n - mid > width {
                mid + width
            } else {
                n
            };
            merge_runs(&src, lo, mid, hi, &mut dst, dists);
            lo = hi;
        }
        proof {
            assert(src@.subrange(0, n as int) =~= src@);
            assert forall|k: int| 0 <= k < n implies #[trigger] dst@[k] < n by {
                dst@.to_multiset_ensures();
                assert(dst@.to_multiset().contains(dst@[k]));
                src@.to_multiset_ensures();
                assert(src@.to_multiset().contains(dst@[k]));
                let m = choose|m: int| 0 <= m < n && src@[m] == dst@[k];
            }
        }
        src = dst;
        // a width of `n` or more ends the sort, as any width past `n / 2` does
        width = if width > n / 2 {
            n
        } else {
            width * 2
        };
    }
    proof {
        assert forall|x: usize| src@.to_multiset().contains(x) implies src@.to_multiset().count(x)
            == 1 by {}
        src@.lemma_multiset_has_no_duplicates_conv();
        assert forall|i: usize| i < n implies #[trigger] src@.contains(i) by {
            assert(base[i as int] == i);
            assert(base.contains(i));
            base.to_multiset_ensures();
            assert(base.to_multiset().count(i) > 0);
            assert(src@.to_multiset().count(i) > 0);
            src@.to_multiset_ensures();
        }
    }
    src
}

} // verus!
