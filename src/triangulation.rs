use crate::elem::{HalfEdge, Triangle, Vertex};
use crate::hull::{ring_pred, ring_succ, sees, Hull};
use crate::iter::{HalfEdgeIter, TriangleIter, VertexIter};
use crate::traits::{ApproxEq, HasPosition, Index, Scalar};
use crate::util::{
    find_seed_triangle, sort_by_distance, spec_seed_triangle,
    lemma_halfedge, lemma_same_triangle, next_halfedge, positions, prev_halfedge,
    spec_next_halfedge, spec_prev_halfedge, OptionIndex,
};
use vstd::prelude::*;

verus! {

/// Result of the Delaunay triangulation.
pub struct Triangulation<I> {
    /// For each input point, the index of a half-edge that starts at it, or
    /// the largest value of `I` for a point left out of the triangulation.
    pub vertices: Vec<I>,
    /// A vector of point indices where each triple represents a Delaunay triangle.
    /// All triangles are directed counter-clockwise in a right-handed coordinate system.
    pub triangles: Vec<I>,
    /// A vector of adjacent halfedge indices that allows traversing the triangulation graph.
    ///
    /// `i`-th half-edge in the array corresponds to vertex `triangles[i]`
    /// the half-edge is coming from. `halfedges[i]` is the index of a twin half-edge
    /// in an adjacent triangle (or `None` for outer half-edges on the convex hull).
    pub halfedges: Vec<OptionIndex<I>>,
    /// A vector of indices that reference points on the convex hull of the triangulation,
    /// counter-clockwise in a right-handed coordinate system.
    pub hull: Vec<I>,
}

/// Whether triangle `t` of `tris` has `p` as a vertex.
pub open spec fn has_vertex<I: Index>(tris: Seq<I>, t: int, p: nat) -> bool {
    tris[3 * t].to_nat() == p || tris[3 * t + 1].to_nat() == p || tris[3 * t + 2].to_nat() == p
}

/// The number of the first `k` triangles of `tris` that do not have `p` as
/// a vertex.
pub open spec fn count_missing<I: Index>(tris: Seq<I>, p: nat, k: nat) -> nat
    decreases k,
{
    if k == 0 {
        0
    } else {
        count_missing(tris, p, (k - 1) as nat) + if has_vertex(tris, k - 1, p) {
            0nat
        } else {
            1nat
        }
    }
}

/// A triangle that gains `p` and loses none lowers the count of triangles
/// without `p`.
proof fn lemma_count_missing<I: Index>(s: Seq<I>, s2: Seq<I>, p: nat, k: nat, tb: int)
    requires
        3 * k <= s.len(),
        3 * k <= s2.len(),
        forall|t: int| 0 <= t < k && has_vertex(s, t, p) ==> #[trigger] has_vertex(s2, t, p),
    ensures
        count_missing(s2, p, k) <= count_missing(s, p, k),
        0 <= tb < k && !has_vertex(s, tb, p) && has_vertex(s2, tb, p) ==> count_missing(s2, p, k)
            < count_missing(s, p, k),
    decreases k,
{
    if k > 0 {
        lemma_count_missing(s, s2, p, (k - 1) as nat, tb);
        assert(has_vertex(s, k - 1, p) ==> has_vertex(s2, k - 1, p));
    }
}

/// `ring` rotated to start at position `j`.
pub open spec fn rotate(ring: Seq<nat>, j: int) -> Seq<nat> {
    ring.subrange(j, ring.len() as int) + ring.subrange(0, j)
}

/// The hull while point `i` is being added, with `f` vertices after the first
/// visible edge and `b` before it taken off: `s2` is the hull before, rotated
/// to start at the first visible edge and closed by repeating its first
/// vertex.
pub open spec fn vring(s2: Seq<nat>, i: nat, f: int, b: int) -> Seq<nat> {
    seq![s2[s2.len() - 1 - b], i] + s2.subrange(1 + f, s2.len() - 1 - b)
}

/// The vertices of `v` but `i`.
pub open spec fn vlive(v: Seq<nat>, i: nat) -> Set<nat> {
    Set::new(|u: nat| v.contains(u) && u != i)
}

/// Each vertex of `v` to the one after it.
pub open spec fn vsucc(v: Seq<nat>) -> Map<nat, nat> {
    Map::new(
        |u: nat| v.contains(u),
        |u: nat| ring_succ(v, choose|j: int| 0 <= j < v.len() && v[j] == u),
    )
}

/// Rotating a hull ring keeps its links.
#[verifier::spinoff_prover]
#[verifier::rlimit(100)]
proof fn lemma_rotate<T: Scalar, I: Index>(hull: &Hull<T, I>, ring: Seq<nat>, n: nat, je: int)
    requires
        hull.ring_ok(ring, n),
        0 <= je < ring.len(),
    ensures
        rotate(ring, je).len() == ring.len(),
        rotate(ring, je)[0] == ring[je],
        forall|k1: int, k2: int|
            0 <= k1 < k2 < ring.len() ==> rotate(ring, je)[k1] != rotate(ring, je)[k2],
        forall|k: int| 0 <= k < ring.len() ==> ring.contains(#[trigger] rotate(ring, je)[k]),
        forall|u: nat| ring.contains(u) ==> rotate(ring, je).contains(u),
        forall|k: int|
            0 <= k < ring.len() ==> hull.nxt(#[trigger] rotate(ring, je)[k] as int) == Some(
                ring_succ(rotate(ring, je), k),
            ) && hull.prv(rotate(ring, je)[k] as int) == Some(ring_pred(rotate(ring, je), k)),
{
    let h = ring.len() as int;
    let s = rotate(ring, je);
    assert forall|k: int| 0 <= k < h implies #[trigger] s[k] == ring[if k < h - je {
        je + k
    } else {
        k - (h - je)
    }] by {}
    assert forall|k1: int, k2: int| 0 <= k1 < k2 < h implies s[k1] != s[k2] by {
        assert(ring.no_duplicates());
    }
    assert forall|k: int| 0 <= k < h implies ring.contains(#[trigger] s[k]) by {
        let j = if k < h - je {
            je + k
        } else {
            k - (h - je)
        };
        assert(ring[j] == s[k]);
    }
    assert forall|u: nat| ring.contains(u) implies s.contains(u) by {
        let j = choose|j: int| 0 <= j < h && ring[j] == u;
        let k = if j >= je {
            j - je
        } else {
            j + h - je
        };
        assert(s[k] == u);
    }
    assert forall|k: int| 0 <= k < h implies hull.nxt(#[trigger] s[k] as int) == Some(
        ring_succ(s, k),
    ) && hull.prv(s[k] as int) == Some(ring_pred(s, k)) by {
        let j = if k < h - je {
            je + k
        } else {
            k - (h - je)
        };
        assert(s[k] == ring[j]);
        if k + 1 < h {
            assert(s[k + 1] == ring[if k + 1 < h - je {
                je + k + 1
            } else {
                k + 1 - (h - je)
            }]);
        } else {
            assert(s[0] == ring[je]);
        }
        if k > 0 {
            assert(s[k - 1] == ring[if k - 1 < h - je {
                je + k - 1
            } else {
                k - 1 - (h - je)
            }]);
        } else {
            assert(s[h - 1] == ring[if h - 1 < h - je {
                je + h - 1
            } else {
                h - 1 - (h - je)
            }]);
        }
    }
}

impl<I: Index> Triangulation<I> {
    /// The boundary half-edge of each vertex of `v` is recorded in
    /// `hull.tri` and runs to the next vertex of `v`.
    pub(crate) open spec fn ring_tri_ok<T: Scalar>(&self, hull: &Hull<T, I>, v: Seq<nat>) -> bool {
        forall|j: int|
            0 <= j < v.len() ==> self.hull_edge(
                hull.tri_of(#[trigger] v[j] as int),
                v[j],
                ring_succ(v, j),
            )
    }

    /// A triangulation in progress: a mesh whose boundary is the hull `ring`.
    #[verifier::opaque]
    pub(crate) open spec fn state_ok<T: Scalar>(&self, hull: &Hull<T, I>, ring: Seq<nat>, n: nat) -> bool {
        &&& self.mesh_ok(n)
        &&& hull.ring_ok(ring, n)
        &&& hull.hash_ok(ring, n)
        &&& self.ring_tri_ok(hull, ring)
        &&& self.boundary_recorded(hull, None)
        &&& forall|u: int| 0 <= u < n && (#[trigger] hull.tri_of(u)) is Some ==> ring.contains(u as nat)
    }

    /// The state while point `i` is being added (see `vring`); `total` is
    /// the number of triangles plus the number of hull vertices. The
    /// boundary half-edge recorded for `i` is checked only when `with_i`.
    #[verifier::opaque]
    pub(crate) open spec fn fan_ok<T: Scalar>(
        &self,
        hull: &Hull<T, I>,
        ring: Seq<nat>,
        s2: Seq<nat>,
        i: nat,
        f: int,
        b: int,
        total: nat,
        n: nat,
        with_i: bool,
    ) -> bool {
        let h = ring.len() as int;
        let v = vring(s2, i, f, b);
        &&& self.mesh_ok(n)
        &&& hull.prev_ok(ring, n)
        &&& s2.len() == h + 1
        &&& 0 <= f && 0 <= b && 1 + f < h - b
        &&& s2[h] == s2[0]
        &&& forall|k: int| 0 <= k < h ==> ring.contains(#[trigger] s2[k])
        &&& forall|k1: int, k2: int| 0 <= k1 < k2 < h ==> s2[k1] != s2[k2]
        &&& forall|k: int| 1 + f <= k < h - b ==> hull.nxt(#[trigger] s2[k] as int) == Some(s2[k + 1])
        &&& forall|k: int| 1 <= k <= h ==> hull.prv(#[trigger] s2[k] as int) == Some(s2[k - 1])
        &&& forall|u: int| 0 <= u < n && (#[trigger] hull.nxt(u)) is Some ==> v.contains(u as nat) && u != i
        &&& !ring.contains(i)
        &&& i < n
        &&& forall|j: int|
            0 <= j < v.len() && (with_i || v[j] != i) ==> self.hull_edge(
                hull.tri_of(#[trigger] v[j] as int),
                v[j],
                ring_succ(v, j),
            )
        &&& forall|j: int| 0 <= j < h && !v.contains(#[trigger] ring[j]) ==> hull.tri_of(ring[j] as int) is None
        &&& self.edge_count() / 3 + v.len() == total
        &&& 3 * total < I::spec_max()
        &&& hull.tri@.len() == n && hull.next@.len() == n
        &&& self.boundary_recorded(hull, if with_i { None } else { Some(i) })
        &&& forall|u: int| 0 <= u < n && (#[trigger] hull.tri_of(u)) is Some ==> v.contains(u as nat)
    }

    /// Appending triangle `(i0, i1, i2)` linked to `a`, `b` and `c` keeps a
    /// well-formed mesh: three distinct points, and twins that are boundary
    /// half-edges running the other way.
    pub(crate) open spec fn linkable(
        o: &Self,
        n: nat,
        i0: nat,
        i1: nat,
        i2: nat,
        a: Option<nat>,
        b: Option<nat>,
        c: Option<nat>,
    ) -> bool {
        &&& o.mesh_ok(n)
        &&& i0 < n && i1 < n && i2 < n
        &&& i0 != i1 && i1 != i2 && i2 != i0
        &&& a is Some ==> o.hull_edge(a, i1, i0)
        &&& b is Some ==> o.hull_edge(b, i2, i1)
        &&& c is Some ==> o.hull_edge(c, i0, i2)
    }

    /// `s` is `o` with triangle `(i0, i1, i2)` appended at half-edge `t`,
    /// linked to `a`, `b` and `c`.
    pub(crate) open spec fn appended(
        o: &Self,
        s: &Self,
        t: nat,
        i0: nat,
        i1: nat,
        i2: nat,
        a: Option<nat>,
        b: Option<nat>,
        c: Option<nat>,
    ) -> bool {
        &&& t == o.edge_count()
        &&& s.edge_count() == t + 3
        &&& s.tri(t as int) == i0
        &&& s.tri(t + 1int) == i1
        &&& s.tri(t + 2int) == i2
        &&& s.twin(t as int) == a
        &&& s.twin(t + 1int) == b
        &&& s.twin(t + 2int) == c
        &&& forall|k: int| 0 <= k < t ==> #[trigger] s.tri(k) == o.tri(k)
        &&& forall|k: int|
            0 <= k < t ==> #[trigger] s.twin(k) == if a == Some(k as nat) {
                Some(t as nat)
            } else if b == Some(k as nat) {
                Some((t + 1) as nat)
            } else if c == Some(k as nat) {
                Some((t + 2) as nat)
            } else {
                o.twin(k)
            }
    }
}

/// Facts about the vertices of `vring`.
proof fn lemma_vring(ring: Seq<nat>, s2: Seq<nat>, i: nat, f: int, b: int, n: nat)
    requires
        s2.len() == ring.len() + 1,
        0 <= f && 0 <= b && 1 + f < ring.len() - b,
        s2[ring.len() as int] == s2[0],
        forall|k: int| 0 <= k < ring.len() ==> ring.contains(#[trigger] s2[k]),
        forall|k1: int, k2: int| 0 <= k1 < k2 < ring.len() ==> s2[k1] != s2[k2],
        !ring.contains(i),
    ensures
        vring(s2, i, f, b).len() == ring.len() + 1 - b - f,
        vring(s2, i, f, b)[0] == s2[ring.len() - b],
        vring(s2, i, f, b)[1] == i,
        vring(s2, i, f, b)[2] == s2[1 + f],
        forall|j: int|
            2 <= j < vring(s2, i, f, b).len() ==> #[trigger] vring(s2, i, f, b)[j] == s2[j - 1 + f],
        vring(s2, i, f, b).no_duplicates(),
        forall|j: int| 0 <= j < vring(s2, i, f, b).len() && j != 1 ==> ring.contains(#[trigger] vring(s2, i, f, b)[j]),
        forall|u: nat| #[trigger] vring(s2, i, f, b).contains(u) ==> u == i || ring.contains(u),
{
    let h = ring.len() as int;
    let v = vring(s2, i, f, b);
    assert(s2[h] == s2[0]);
    assert forall|j: int| 2 <= j < v.len() implies #[trigger] v[j] == s2[j - 1 + f] by {}
    assert forall|j: int| 0 <= j < v.len() && j != 1 implies ring.contains(#[trigger] v[j]) by {
        if j == 0 {
            if b == 0 {
                assert(s2[h] == s2[0]);
                assert(ring.contains(s2[0]));
            } else {
                assert(ring.contains(s2[h - b]));
            }
        } else {
            assert(ring.contains(s2[j - 1 + f]));
        }
    }
    assert forall|j1: int, j2: int| 0 <= j1 < j2 < v.len() implies v[j1] != v[j2] by {
        if j1 == 1 {
            assert(ring.contains(v[j2]));
        } else if j2 == 1 {
            assert(ring.contains(v[j1]));
        } else if j1 == 0 {
            if b == 0 {
                assert(v[j1] == s2[0]);
            }
        }
    }
    assert forall|u: nat| #[trigger] v.contains(u) implies u == i || ring.contains(u) by {
        let j = choose|j: int| 0 <= j < v.len() && v[j] == u;
        if j != 1 {
            assert(ring.contains(v[j]));
        }
    }
}

/// Reading the boundary records of a hull in progress as those that
/// `legalize` keeps.
proof fn lemma_live_of_vring<T: Scalar, I: Index>(
    tr: &Triangulation<I>,
    hull: &Hull<T, I>,
    ring: Seq<nat>,
    v: Seq<nat>,
    i: nat,
)
    requires
        v.no_duplicates(),
        forall|j: int|
            0 <= j < v.len() && v[j] != i ==> tr.hull_edge(
                hull.tri_of(#[trigger] v[j] as int),
                v[j],
                ring_succ(v, j),
            ),
        forall|j: int| 0 <= j < ring.len() && !v.contains(#[trigger] ring[j]) ==> hull.tri_of(ring[j] as int) is None,
        !ring.contains(i),
    ensures
        tr.hull_tri_ok(hull, ring, vlive(v, i), vsucc(v)),
{
    assert forall|j: int| 0 <= j < ring.len() implies if vlive(v, i).contains(#[trigger] ring[j]) {
        tr.hull_edge(hull.tri_of(ring[j] as int), ring[j], vsucc(v)[ring[j]])
    } else {
        hull.tri_of(ring[j] as int) is None
    } by {
        if vlive(v, i).contains(ring[j]) {
            let k = choose|k: int| 0 <= k < v.len() && v[k] == ring[j];
            assert(v[k] != i);
            let c = choose|c: int| 0 <= c < v.len() && v[c] == ring[j];
            assert(c == k);
        } else {
            assert(ring[j] != i);
        }
    }
}

/// The converse of `lemma_live_of_vring`.
proof fn lemma_vring_of_live<T: Scalar, I: Index>(
    tr: &Triangulation<I>,
    hull: &Hull<T, I>,
    ring: Seq<nat>,
    v: Seq<nat>,
    i: nat,
)
    requires
        v.no_duplicates(),
        tr.hull_tri_ok(hull, ring, vlive(v, i), vsucc(v)),
        forall|j: int| 0 <= j < v.len() && v[j] != i ==> ring.contains(#[trigger] v[j]),
    ensures
        forall|j: int|
            0 <= j < v.len() && v[j] != i ==> tr.hull_edge(
                hull.tri_of(#[trigger] v[j] as int),
                v[j],
                ring_succ(v, j),
            ),
        forall|j: int| 0 <= j < ring.len() && !v.contains(#[trigger] ring[j]) ==> hull.tri_of(ring[j] as int) is None,
{
    assert forall|j: int|
        0 <= j < v.len() && v[j] != i implies tr.hull_edge(
        hull.tri_of(#[trigger] v[j] as int),
        v[j],
        ring_succ(v, j),
    ) by {
        assert(ring.contains(v[j]));
        let k = choose|k: int| 0 <= k < ring.len() && ring[k] == v[j];
        assert(vlive(v, i).contains(ring[k]));
        let c = choose|c: int| 0 <= c < v.len() && v[c] == v[j];
        assert(c == j);
    }
}

/// The hull's points, going once around the ring from `start`.
fn collect_hull<T: Scalar, I: Index>(hull: &Hull<T, I>, Ghost(ring): Ghost<Seq<nat>>, Ghost(n): Ghost<
    nat,
>) -> (r: Vec<I>)
    requires
        hull.ring_ok(ring, n),
        n <= I::spec_max(),
    ensures
        r@.len() == ring.len(),
        forall|j: int| 0 <= j < ring.len() ==> (#[trigger] r@[j]).to_nat() == ring[j],
{
    let ghost h = ring.len() as int;
    let start = hull.start;
    let mut e = start;
    let mut r: Vec<I> = Vec::new();
    let ghost mut j: int = 0;
    loop
        invariant_except_break
            0 <= j < h,
            e == ring[j],
        invariant
            hull.ring_ok(ring, n),
            n <= I::spec_max(),
            h == ring.len(),
            start == hull.start,
            start == ring[0],
            0 <= j <= h,
            r@.len() == j,
            forall|j2: int| 0 <= j2 < j ==> (#[trigger] r@[j2]).to_nat() == ring[j2],
        ensures
            r@.len() == h,
            forall|j2: int| 0 <= j2 < h ==> (#[trigger] r@[j2]).to_nat() == ring[j2],
        decreases h - j,
    {
        r.push(I::from_usize(e));
        e = hull.next[e].unwrap();
        if e == start {
            proof {
                if j + 1 < h {
                    assert(ring[j + 1] != ring[0]);
                }
                j = j + 1;
            }
            break ;
        }
        proof {
            j = j + 1;
        }
    }
    r
}

/// For each of the `n` points, the first half-edge of `triangles` that
/// starts at it, or the reserved largest value where there is none.
fn first_edges<I: Index>(triangles: &Vec<I>, n: usize) -> (r: Vec<I>)
    requires
        forall|k: int| 0 <= k < triangles@.len() ==> (#[trigger] triangles@[k]).to_nat() < n,
        triangles@.len() < I::spec_max(),
        n <= I::spec_max(),
    ensures
        r@.len() == n,
        forall|u: int|
            0 <= u < n ==> if (#[trigger] r@[u]).to_nat() == I::spec_max() {
                forall|k2: int| 0 <= k2 < triangles@.len() ==> triangles@[k2].to_nat() != u
            } else {
                r@[u].to_nat() < triangles@.len() && triangles@[r@[u].to_nat() as int].to_nat() == u
                    && forall|k2: int| 0 <= k2 < r@[u].to_nat() ==> triangles@[k2].to_nat() != u
            },
{
    let none = I::max_value();
    let mut r: Vec<I> = Vec::with_capacity(n);
    let mut v: usize = 0;
    while v < n
        invariant
            v <= n,
            r@.len() == v,
            forall|u: int| 0 <= u < v ==> (#[trigger] r@[u]).to_nat() == I::spec_max(),
            none.to_nat() == I::spec_max(),
        decreases n - v,
    {
        r.push(none);
        v += 1;
    }
    let len = triangles.len();
    let mut k: usize = 0;
    while k < len
        invariant
            k <= len,
            len == triangles@.len(),
            len < I::spec_max(),
            r@.len() == n,
            none.to_nat() == I::spec_max(),
            forall|k: int| 0 <= k < triangles@.len() ==> (#[trigger] triangles@[k]).to_nat() < n,
            forall|u: int|
                0 <= u < n ==> if (#[trigger] r@[u]).to_nat() == I::spec_max() {
                    forall|k2: int| 0 <= k2 < k ==> triangles@[k2].to_nat() != u
                } else {
                    r@[u].to_nat() < k && triangles@[r@[u].to_nat() as int].to_nat() == u && forall|
                        k2: int,
                    | 0 <= k2 < r@[u].to_nat() ==> triangles@[k2].to_nat() != u
                },
        decreases len - k,
    {
        let j = triangles[k].as_usize();
        if r[j].as_usize() == none.as_usize() {
            r.set(j, I::from_usize(k));
        }
        k += 1;
    }
    r
}

/// What a triangulation covers, one that keeps its vertices covers too.
proof fn lemma_covers_kept<T: Scalar + ApproxEq, P: HasPosition<T>, I: Index>(
    o: &Triangulation<I>,
    s: &Triangulation<I>,
    points: Seq<P>,
    i: nat,
)
    requires
        Triangulation::keeps_vertices(o, s),
        o.covers(points, i),
    ensures
        s.covers(points, i),
{
    if o.unseen_by(points, i) && !o.is_vertex(i) {
        let cyc = choose|cyc: Seq<nat>|
            cyc.len() >= 3 && forall|j: int|
                0 <= j < cyc.len() ==> o.is_vertex(#[trigger] cyc[j]) && !sees(
                    points[i as int].spec_pos(),
                    points,
                    cyc[j],
                    ring_succ(cyc, j),
                );
        assert forall|j: int| 0 <= j < cyc.len() implies s.is_vertex(#[trigger] cyc[j]) && !sees(
            points[i as int].spec_pos(),
            points,
            cyc[j],
            ring_succ(cyc, j),
        ) by {
            assert(o.is_vertex(cyc[j]));
        }
    }
}

/// Relies on `Vec::shrink_to_fit`, which lowers the capacity and keeps the
/// contents.
#[verifier::external_body]
fn shrink<X>(v: &mut Vec<X>)
    ensures
        final(v)@ == old(v)@,
{
    v.shrink_to_fit();
}

/// Appending a triangle keeps each other boundary half-edge, with its ends.
proof fn lemma_appended_keeps<I: Index>(
    o: &Triangulation<I>,
    s: &Triangulation<I>,
    t: nat,
    i0: nat,
    i1: nat,
    i2: nat,
    a: Option<nat>,
    b: Option<nat>,
    c: Option<nat>,
    n: nat,
    k: int,
)
    requires
        o.mesh_ok(n),
        Triangulation::appended(o, s, t, i0, i1, i2, a, b, c),
        0 <= k < t,
        o.twin(k) is None,
        a != Some(k as nat),
        b != Some(k as nat),
        c != Some(k as nat),
    ensures
        s.twin(k) is None,
        s.tri(k) == o.tri(k),
        s.edge_end(k) == o.edge_end(k),
{
    o.lemma_mesh_len(n);
    lemma_halfedge(k);
}

/// What the forward walk reads from the state.
#[verifier::spinoff_prover]
#[verifier::rlimit(100)]
proof fn lemma_fan_fwd_pre<T: Scalar, I: Index>(
    tr: &Triangulation<I>,
    hull: &Hull<T, I>,
    ring: Seq<nat>,
    s2: Seq<nat>,
    i: nat,
    f: int,
    total: nat,
    n: nat,
)
    requires
        tr.fan_ok(hull, ring, s2, i, f, 0, total, n, true),
    ensures
        1 + f < ring.len(),
        tr.mesh_ok(n),
        hull.tri@.len() == n,
        hull.next@.len() == n,
        s2[0] < n,
        s2[1 + f] < n,
        s2[2 + f] < n,
        hull.nxt(s2[1 + f] as int) == Some(s2[2 + f]),
        (s2[2 + f] == s2[0]) == (2 + f == ring.len()),
        i != s2[1 + f],
        i != s2[2 + f],
        s2[1 + f] != s2[2 + f],
        2 + f < ring.len() ==> tr.hull_edge(hull.tri_of(i as int), i, s2[1 + f]) && tr.hull_edge(
            hull.tri_of(s2[1 + f] as int),
            s2[1 + f],
            s2[2 + f],
        ),
        tr.edge_count() + 3 < I::spec_max(),
        i < n,
{
    reveal(Triangulation::fan_ok);
    let h = ring.len() as int;
    let v = vring(s2, i, f, 0);
    lemma_vring(ring, s2, i, f, 0, n);
    assert(hull.prev_ok(ring, n));
    assert(ring.contains(s2[0]) && ring.contains(s2[1 + f]));
    assert(ring.contains(s2[2 + f])) by {
        if 2 + f == h {
            assert(s2[h] == s2[0]);
        }
    }
    assert(s2[0] < n && s2[1 + f] < n && s2[2 + f] < n) by {
        let j0 = choose|j: int| 0 <= j < h && ring[j] == s2[0];
        let j1 = choose|j: int| 0 <= j < h && ring[j] == s2[1 + f];
        let j2 = choose|j: int| 0 <= j < h && ring[j] == s2[2 + f];
    }
    if 2 + f < h {
        assert(v[1] == i && v[2] == s2[1 + f] && v[3] == s2[2 + f]);
    }
}

/// The forward walk's new triangle leaves the state of one more vertex
/// taken off, with the record of `i` to be renewed.
#[verifier::spinoff_prover]
#[verifier::rlimit(100)]
proof fn lemma_fan_fwd_add<T: Scalar, I: Index>(
    o: &Triangulation<I>,
    oh: &Hull<T, I>,
    s: &Triangulation<I>,
    sh: &Hull<T, I>,
    ring: Seq<nat>,
    s2: Seq<nat>,
    i: nat,
    f: int,
    total: nat,
    n: nat,
    t: nat,
)
    requires
        o.fan_ok(oh, ring, s2, i, f, 0, total, n, true),
        2 + f < ring.len(),
        Triangulation::appended(
            o,
            s,
            t,
            s2[1 + f],
            i,
            s2[2 + f],
            oh.tri_of(i as int),
            None,
            oh.tri_of(s2[1 + f] as int),
        ),
        s.mesh_ok(n),
        sh.prev == oh.prev,
        sh.start == oh.start,
        sh.next@.len() == n,
        sh.tri@.len() == n,
        forall|u: int|
            0 <= u < n ==> #[trigger] sh.nxt(u) == if u == s2[1 + f] {
                None
            } else {
                oh.nxt(u)
            },
        forall|u: int|
            0 <= u < n ==> #[trigger] sh.tri_of(u) == if u == s2[1 + f] {
                None
            } else {
                oh.tri_of(u)
            },
    ensures
        s.fan_ok(sh, ring, s2, i, f + 1, 0, total, n, false),
        s.tri(t + 1int) == i,
        s.twin(t + 1int) is None,
        s.edge_end(t + 1int) == s2[2 + f],
        t + 2 < s.edge_count(),
        spec_prev_halfedge(t + 2int) == t + 1,
        forall|g: int|
            0 <= g < s.edge_count() && (#[trigger] s.twin(g)) is None && s.tri(g) == i ==> g == t + 1,
{
    reveal(Triangulation::fan_ok);
    let h = ring.len() as int;
    let v = vring(s2, i, f, 0);
    let v2 = vring(s2, i, f + 1, 0);
    let nn = s2[1 + f];
    lemma_fan_fwd_pre(o, oh, ring, s2, i, f, total, n);
    lemma_vring(ring, s2, i, f, 0, n);
    lemma_vring(ring, s2, i, f + 1, 0, n);
    o.lemma_mesh_len(n);
    s.lemma_mesh_len(n);
    lemma_halfedge(t as int);
    lemma_halfedge(t + 1int);
    lemma_halfedge(t + 2int);
    assert(spec_next_halfedge(t + 1int) == t + 2) by {
        lemma_same_triangle(t + 1int, t as int);
    }
    assert(sh.prev_ok(ring, n));
    let ti = oh.tri_of(i as int)->0;
    let tn = oh.tri_of(nn as int)->0;
    assert forall|j: int|
        0 <= j < v2.len() && v2[j] != i implies s.hull_edge(
        sh.tri_of(#[trigger] v2[j] as int),
        v2[j],
        ring_succ(v2, j),
    ) by {
        let jj = if j == 0 {
            0
        } else {
            j + 1
        };
        assert(v2[j] == v[jj]);
        assert(ring_succ(v2, j) == ring_succ(v, jj));
        assert(v[jj] != nn);
        let fe = oh.tri_of(v[jj] as int)->0;
        assert(o.hull_edge(oh.tri_of(v[jj] as int), v[jj], ring_succ(v, jj)));
        assert(fe != ti && fe != tn);
        lemma_appended_keeps(
            o,
            s,
            t,
            nn,
            i,
            s2[2 + f],
            oh.tri_of(i as int),
            None,
            oh.tri_of(nn as int),
            n,
            fe as int,
        );
    }
    assert forall|j: int| 0 <= j < h && !v2.contains(#[trigger] ring[j]) implies sh.tri_of(
        ring[j] as int,
    ) is None by {
        if ring[j] != nn {
            assert(!v.contains(ring[j])) by {
                if v.contains(ring[j]) {
                    let c = choose|c: int| 0 <= c < v.len() && v[c] == ring[j];
                    if c == 0 {
                        assert(v2[0] == ring[j]);
                    } else if c >= 3 {
                        assert(v2[c - 1] == ring[j]);
                    }
                }
            }
        }
    }
    assert forall|u: int| 0 <= u < n && (#[trigger] sh.nxt(u)) is Some implies v2.contains(u as nat)
        && u != i by {
        assert(oh.nxt(u) is Some);
        assert(v.contains(u as nat));
        let c = choose|c: int| 0 <= c < v.len() && v[c] == u;
        if c == 0 {
            assert(v2[0] == u);
        } else if c >= 3 {
            assert(v2[c - 1] == u);
        }
    }
    assert forall|k: int| 2 + f <= k < h implies sh.nxt(#[trigger] s2[k] as int) == Some(s2[k + 1]) by {
        {
            assert(ring.contains(s2[k]));
            assert(s2[k] != nn);
            let jk = choose|j: int| 0 <= j < h && ring[j] == s2[k];
        }
    }
    assert forall|k: int| 1 <= k <= h implies sh.prv(#[trigger] s2[k] as int) == Some(s2[k - 1]) by {
        assert(oh.prv(s2[k] as int) == Some(s2[k - 1]));
    }
    let nn2 = s2[1 + f];
    assert forall|g: int|
        0 <= g < s.edge_count() && (#[trigger] s.twin(g)) is None implies Some(s.tri(g)) == Some(i)
        || sh.tri_of(s.tri(g) as int) == Some(g as nat) by {
        if g < t {
            assert(o.twin(g) is None);
            assert(s.tri(g) == o.tri(g));
            o.lemma_mesh_at(n, g);
            assert(oh.tri_of(o.tri(g) as int) == Some(g as nat));
        }
    }
    assert forall|g: int|
        0 <= g < s.edge_count() && (#[trigger] s.twin(g)) is None && s.tri(g) == i implies g == t + 1 by {
        if g < t {
            assert(o.twin(g) is None);
            o.lemma_mesh_at(n, g);
            assert(oh.tri_of(i as int) == Some(g as nat));
        }
    }
    assert forall|u: int| 0 <= u < n && (#[trigger] sh.tri_of(u)) is Some implies v2.contains(u as nat) by {
        assert(oh.tri_of(u) is Some);
        assert(v.contains(u as nat));
        let c = choose|c: int| 0 <= c < v.len() && v[c] == u;
        if c == 0 {
            assert(v2[0] == u);
        } else if c == 1 {
            assert(v2[1] == u);
        } else if c >= 3 {
            assert(v2[c - 1] == u);
        }
    }
}

/// The state in progress gives `legalize` what it needs.
proof fn lemma_fan_live<T: Scalar, I: Index>(
    tr: &Triangulation<I>,
    hull: &Hull<T, I>,
    ring: Seq<nat>,
    s2: Seq<nat>,
    i: nat,
    f: int,
    b: int,
    total: nat,
    n: nat,
    w: bool,
)
    requires
        tr.fan_ok(hull, ring, s2, i, f, b, total, n, w),
    ensures
        tr.mesh_ok(n),
        hull.prev_ok(ring, n),
        tr.hull_tri_ok(hull, ring, vlive(vring(s2, i, f, b), i), vsucc(vring(s2, i, f, b))),
        !ring.contains(i),
        i < n,
        tr.edge_count() < I::spec_max(),
        tr.boundary_recorded(hull, Some(i)),
        forall|u: int|
            0 <= u < n && u != i && (#[trigger] hull.tri_of(u)) is Some ==> ring.contains(u as nat),
{
    reveal(Triangulation::fan_ok);
    lemma_vring(ring, s2, i, f, b, n);
    tr.lemma_mesh_len(n);
    let v = vring(s2, i, f, b);
    assert forall|j: int|
        0 <= j < v.len() && v[j] != i implies tr.hull_edge(
        hull.tri_of(#[trigger] v[j] as int),
        v[j],
        ring_succ(v, j),
    ) by {}
    lemma_live_of_vring(tr, hull, ring, v, i);
    assert forall|u: int| 0 <= u < n && u != i && (#[trigger] hull.tri_of(u)) is Some implies ring.contains(
        u as nat,
    ) by {
        assert(v.contains(u as nat));
    }
}

/// `legalize` keeps the state in progress; with `w`, also the record of
/// `i`, when it keeps the boundary half-edges from `i`.
#[verifier::spinoff_prover]
#[verifier::rlimit(100)]
proof fn lemma_fan_legalized<T: Scalar, I: Index>(
    m: &Triangulation<I>,
    mh: &Hull<T, I>,
    s: &Triangulation<I>,
    sh: &Hull<T, I>,
    ring: Seq<nat>,
    s2: Seq<nat>,
    i: nat,
    f: int,
    b: int,
    total: nat,
    n: nat,
    w: bool,
)
    requires
        m.fan_ok(mh, ring, s2, i, f, b, total, n, w),
        s.mesh_ok(n),
        s.edge_count() == m.edge_count(),
        sh.prev == mh.prev,
        sh.next == mh.next,
        sh.start == mh.start,
        sh.tri@.len() == mh.tri@.len(),
        s.hull_tri_ok(sh, ring, vlive(vring(s2, i, f, b), i), vsucc(vring(s2, i, f, b))),
        forall|u: int|
            0 <= u < n && !ring.contains(u as nat) ==> #[trigger] sh.tri_of(u) == mh.tri_of(u),
        w ==> forall|g: int|
            0 <= g < m.edge_count() && m.twin(g) is None && m.tri(g) == i ==> #[trigger] s.twin(g) is None
                && s.tri(g) == m.tri(g) && s.edge_end(g) == m.edge_end(g),
        s.boundary_recorded(sh, Some(i)),
        forall|u: int|
            0 <= u < n && #[trigger] sh.tri_of(u) != mh.tri_of(u) ==> vlive(vring(s2, i, f, b), i).contains(
                u as nat,
            ),
        w ==> forall|g: int|
            0 <= g < m.edge_count() && (#[trigger] s.twin(g)) is None && s.tri(g) == i ==> m.twin(g) is None
                && m.tri(g) == s.tri(g),
    ensures
        s.fan_ok(sh, ring, s2, i, f, b, total, n, w),
{
    reveal(Triangulation::fan_ok);
    let v = vring(s2, i, f, b);
    lemma_vring(ring, s2, i, f, b, n);
    lemma_vring_of_live(s, sh, ring, v, i);
    assert(sh.prev_ok(ring, n));
    assert forall|u: int| 0 <= u < n && (#[trigger] sh.nxt(u)) is Some implies v.contains(u as nat)
        && u != i by {
        assert(mh.nxt(u) == sh.nxt(u));
    }
    assert forall|k: int| 1 + f <= k < ring.len() - b implies sh.nxt(#[trigger] s2[k] as int) == Some(
        s2[k + 1],
    ) by {
        assert(mh.nxt(s2[k] as int) == sh.nxt(s2[k] as int));
    }
    assert forall|j: int|
        0 <= j < v.len() && (w || v[j] != i) implies s.hull_edge(
        sh.tri_of(#[trigger] v[j] as int),
        v[j],
        ring_succ(v, j),
    ) by {
        if v[j] == i {
            assert(m.hull_edge(mh.tri_of(v[j] as int), v[j], ring_succ(v, j)));
            let g = mh.tri_of(i as int)->0 as int;
            assert(s.twin(g) is None);
        }
    }
    assert(!ring.contains(i));
    assert(sh.tri_of(i as int) == mh.tri_of(i as int));
    if w {
        assert forall|g: int|
            0 <= g < s.edge_count() && (#[trigger] s.twin(g)) is None implies Some(s.tri(g)) == (if w {
                None
            } else {
                Some(i)
            }) || sh.tri_of(s.tri(g) as int) == Some(g as nat) by {
            if s.tri(g) == i {
                assert(m.twin(g) is None && m.tri(g) == i);
            }
        }
    }
    assert forall|u: int| 0 <= u < n && (#[trigger] sh.tri_of(u)) is Some implies v.contains(u as nat) by {
        if sh.tri_of(u) == mh.tri_of(u) {
            assert(mh.tri_of(u) is Some);
        }
    }
}

/// Recording the boundary half-edge of `i` completes the state.
proof fn lemma_fan_set_i<T: Scalar, I: Index>(
    s: &Triangulation<I>,
    sh: &Hull<T, I>,
    sh2: &Hull<T, I>,
    ring: Seq<nat>,
    s2: Seq<nat>,
    i: nat,
    f: int,
    b: int,
    total: nat,
    n: nat,
    r: nat,
)
    requires
        s.fan_ok(sh, ring, s2, i, f, b, total, n, false),
        sh2.prev == sh.prev,
        sh2.next == sh.next,
        sh2.start == sh.start,
        sh2.tri@.len() == sh.tri@.len(),
        forall|u: int|
            0 <= u < n ==> #[trigger] sh2.tri_of(u) == if u == i {
                Some(r)
            } else {
                sh.tri_of(u)
            },
        s.hull_edge(Some(r), i, s2[1 + f]),
        forall|g: int| 0 <= g < s.edge_count() && (#[trigger] s.twin(g)) is None && s.tri(g) == i ==> g == r,
    ensures
        s.fan_ok(sh2, ring, s2, i, f, b, total, n, true),
{
    reveal(Triangulation::fan_ok);
    let v = vring(s2, i, f, b);
    lemma_vring(ring, s2, i, f, b, n);
    assert(sh2.prev_ok(ring, n));
    assert forall|u: int| 0 <= u < n && (#[trigger] sh2.nxt(u)) is Some implies v.contains(u as nat)
        && u != i by {
        assert(sh.nxt(u) == sh2.nxt(u));
    }
    assert forall|k: int| 1 + f <= k < ring.len() - b implies sh2.nxt(#[trigger] s2[k] as int) == Some(
        s2[k + 1],
    ) by {
        assert(sh.nxt(s2[k] as int) == sh2.nxt(s2[k] as int));
    }
    assert forall|j: int|
        0 <= j < v.len() implies s.hull_edge(sh2.tri_of(#[trigger] v[j] as int), v[j], ring_succ(v, j)) by {
        if j == 1 {
            assert(ring_succ(v, 1) == s2[1 + f]);
        } else {
            assert(v[j] != i);
        }
    }
    assert forall|j: int| 0 <= j < ring.len() && !v.contains(#[trigger] ring[j]) implies sh2.tri_of(
        ring[j] as int,
    ) is None by {
        assert(ring[j] != i);
    }
    assert forall|g: int|
        0 <= g < s.edge_count() && (#[trigger] s.twin(g)) is None implies Some(s.tri(g)) == (None::<nat>)
        || sh2.tri_of(s.tri(g) as int) == Some(g as nat) by {
        s.lemma_mesh_at(n, g);
    }
    assert forall|u: int| 0 <= u < n && (#[trigger] sh2.tri_of(u)) is Some implies v.contains(u as nat) by {
        if u != i {
            assert(sh.tri_of(u) is Some);
        }
    }
}

/// What the backward walk reads from the state.
#[verifier::spinoff_prover]
#[verifier::rlimit(100)]
proof fn lemma_fan_bwd_pre<T: Scalar, I: Index>(
    tr: &Triangulation<I>,
    hull: &Hull<T, I>,
    ring: Seq<nat>,
    s2: Seq<nat>,
    i: nat,
    f: int,
    b: int,
    total: nat,
    n: nat,
)
    requires
        tr.fan_ok(hull, ring, s2, i, f, b, total, n, true),
    ensures
        1 + f < ring.len() - b,
        0 <= f,
        0 <= b,
        tr.mesh_ok(n),
        hull.prev@.len() == n,
        hull.tri@.len() == n,
        hull.next@.len() == n,
        i < n,
        s2[ring.len() - b] < n,
        s2[ring.len() - b - 1] < n,
        s2[1 + f] < n,
        hull.prv(s2[ring.len() - b] as int) == Some(s2[ring.len() - b - 1]),
        (s2[ring.len() - b - 1] == s2[1 + f]) == (ring.len() - b - 1 == 1 + f),
        i != s2[ring.len() - b],
        i != s2[ring.len() - b - 1],
        i != s2[1 + f],
        s2[ring.len() - b] != s2[1 + f],
        s2[ring.len() - b] != s2[ring.len() - b - 1],
        ring.len() - b - 1 > 1 + f ==> tr.hull_edge(
            hull.tri_of(s2[ring.len() - b] as int),
            s2[ring.len() - b],
            i,
        ) && tr.hull_edge(
            hull.tri_of(s2[ring.len() - b - 1] as int),
            s2[ring.len() - b - 1],
            s2[ring.len() - b],
        ),
        tr.edge_count() + 3 < I::spec_max(),
{
    reveal(Triangulation::fan_ok);
    let h = ring.len() as int;
    let v = vring(s2, i, f, b);
    lemma_vring(ring, s2, i, f, b, n);
    assert(hull.prev_ok(ring, n));
    let e = s2[h - b];
    let q = s2[h - b - 1];
    assert(ring.contains(e)) by {
        if b == 0 {
            assert(s2[h] == s2[0]);
        }
    }
    assert(ring.contains(q) && ring.contains(s2[1 + f]));
    assert(e < n && q < n && s2[1 + f] < n) by {
        let j0 = choose|j: int| 0 <= j < h && ring[j] == e;
        let j1 = choose|j: int| 0 <= j < h && ring[j] == q;
        let j2 = choose|j: int| 0 <= j < h && ring[j] == s2[1 + f];
    }
    assert(e != q && e != s2[1 + f]) by {
        if b == 0 {
            assert(s2[h] == s2[0]);
        }
    }
    if h - b - 1 > 1 + f {
        assert(v[0] == e && v[1] == i);
        assert(v[v.len() - 1] == q);
    }
}

/// The backward walk's new triangle leaves the state of one more vertex
/// taken off.
#[verifier::spinoff_prover]
#[verifier::rlimit(100)]
proof fn lemma_fan_bwd_add<T: Scalar, I: Index>(
    o: &Triangulation<I>,
    oh: &Hull<T, I>,
    s: &Triangulation<I>,
    sh: &Hull<T, I>,
    ring: Seq<nat>,
    s2: Seq<nat>,
    i: nat,
    f: int,
    b: int,
    total: nat,
    n: nat,
    t: nat,
)
    requires
        o.fan_ok(oh, ring, s2, i, f, b, total, n, true),
        ring.len() - b - 1 > 1 + f,
        Triangulation::appended(
            o,
            s,
            t,
            s2[ring.len() - b - 1],
            i,
            s2[ring.len() - b],
            None,
            oh.tri_of(s2[ring.len() - b] as int),
            oh.tri_of(s2[ring.len() - b - 1] as int),
        ),
        s.mesh_ok(n),
        sh.prev == oh.prev,
        sh.start == oh.start,
        sh.next@.len() == n,
        sh.tri@.len() == n,
        forall|u: int|
            0 <= u < n ==> #[trigger] sh.nxt(u) == if u == s2[ring.len() - b] {
                None
            } else {
                oh.nxt(u)
            },
        forall|u: int|
            0 <= u < n ==> #[trigger] sh.tri_of(u) == if u == s2[ring.len() - b] {
                None
            } else if u == s2[ring.len() - b - 1] {
                Some(t)
            } else {
                oh.tri_of(u)
            },
    ensures
        s.fan_ok(sh, ring, s2, i, f, b + 1, total, n, true),
        s.tri(t + 1int) == i,
        s.twin(t + 1int) is Some,
        t + 2 < s.edge_count(),
        spec_prev_halfedge(t + 2int) == t + 1,
{
    reveal(Triangulation::fan_ok);
    let h = ring.len() as int;
    let v = vring(s2, i, f, b);
    let v2 = vring(s2, i, f, b + 1);
    let e = s2[h - b];
    let q = s2[h - b - 1];
    lemma_fan_bwd_pre(o, oh, ring, s2, i, f, b, total, n);
    lemma_vring(ring, s2, i, f, b, n);
    lemma_vring(ring, s2, i, f, b + 1, n);
    o.lemma_mesh_len(n);
    s.lemma_mesh_len(n);
    lemma_halfedge(t as int);
    lemma_halfedge(t + 1int);
    lemma_halfedge(t + 2int);
    assert(spec_next_halfedge(t as int) == t + 1);
    assert(sh.prev_ok(ring, n));
    let te = oh.tri_of(e as int)->0;
    let tq = oh.tri_of(q as int)->0;
    assert(v[v.len() - 1] == q);
    assert forall|j: int|
        0 <= j < v2.len() implies s.hull_edge(
        sh.tri_of(#[trigger] v2[j] as int),
        v2[j],
        ring_succ(v2, j),
    ) by {
        if j == 0 {
            assert(v2[0] == q);
        } else {
            assert(v2[j] == v[j]);
            if j + 1 < v2.len() {
                assert(ring_succ(v2, j) == ring_succ(v, j));
            } else {
                assert(ring_succ(v2, j) == q);
                assert(ring_succ(v, j) == v[j + 1]);
            }
            assert(v[j] != e && v[j] != q);
            let fe = oh.tri_of(v[j] as int)->0;
            assert(o.hull_edge(oh.tri_of(v[j] as int), v[j], ring_succ(v, j)));
            assert(fe != te && fe != tq);
            lemma_appended_keeps(
                o,
                s,
                t,
                q,
                i,
                e,
                None,
                oh.tri_of(e as int),
                oh.tri_of(q as int),
                n,
                fe as int,
            );
        }
    }
    assert forall|j: int| 0 <= j < h && !v2.contains(#[trigger] ring[j]) implies sh.tri_of(
        ring[j] as int,
    ) is None by {
        if ring[j] != e {
            assert(!v.contains(ring[j])) by {
                if v.contains(ring[j]) {
                    let c = choose|c: int| 0 <= c < v.len() && v[c] == ring[j];
                    if c == v.len() - 1 {
                        assert(v2[0] == ring[j]);
                    } else if c >= 2 {
                        assert(v2[c] == ring[j]);
                    }
                }
            }
        }
    }
    assert forall|u: int| 0 <= u < n && (#[trigger] sh.nxt(u)) is Some implies v2.contains(u as nat)
        && u != i by {
        assert(oh.nxt(u) is Some);
        assert(v.contains(u as nat));
        let c = choose|c: int| 0 <= c < v.len() && v[c] == u;
        if c == v.len() - 1 {
            assert(v2[0] == u);
        } else if c >= 2 {
            assert(v2[c] == u);
        }
    }
    assert forall|k: int| 1 + f <= k < h - b - 1 implies sh.nxt(#[trigger] s2[k] as int) == Some(
        s2[k + 1],
    ) by {
        assert(s2[k] != e) by {
            if b == 0 {
                assert(s2[h] == s2[0]);
            }
        }
        assert(ring.contains(s2[k]));
        let jk = choose|j: int| 0 <= j < h && ring[j] == s2[k];
    }
    assert forall|k: int| 1 <= k <= h implies sh.prv(#[trigger] s2[k] as int) == Some(s2[k - 1]) by {
        assert(oh.prv(s2[k] as int) == Some(s2[k - 1]));
    }
    assert forall|g: int|
        0 <= g < s.edge_count() && (#[trigger] s.twin(g)) is None implies Some(s.tri(g)) == (None::<nat>)
        || sh.tri_of(s.tri(g) as int) == Some(g as nat) by {
        if g < t {
            assert(o.twin(g) is None);
            assert(s.tri(g) == o.tri(g));
            o.lemma_mesh_at(n, g);
            assert(oh.tri_of(o.tri(g) as int) == Some(g as nat));
        }
    }
    assert forall|u: int| 0 <= u < n && (#[trigger] sh.tri_of(u)) is Some implies v2.contains(u as nat) by {
        if u == q {
            assert(v2[0] == u);
        } else {
            assert(oh.tri_of(u) is Some);
            assert(v.contains(u as nat));
            let c = choose|c: int| 0 <= c < v.len() && v[c] == u;
            if c == v.len() - 1 {
                assert(v2[0] == u);
            } else if c >= 1 {
                assert(v2[c] == u);
            }
        }
    }
}

/// The rotated and closed ring `s2` of `lemma_fan_start`, and its links.
#[verifier::spinoff_prover]
#[verifier::rlimit(100)]
proof fn lemma_s2<T: Scalar, I: Index>(oh: &Hull<T, I>, ring: Seq<nat>, n: nat, je: int)
    requires
        oh.ring_ok(ring, n),
        0 <= je < ring.len(),
    ensures
        ({
            let h = ring.len() as int;
            let s2 = rotate(ring, je).push(ring[je]);
            &&& s2.len() == h + 1
            &&& s2[h] == s2[0]
            &&& s2[0] == ring[je]
            &&& s2[1] == ring_succ(ring, je)
            &&& forall|k: int| 0 <= k < h ==> ring.contains(#[trigger] s2[k])
            &&& forall|k1: int, k2: int| 0 <= k1 < k2 < h ==> s2[k1] != s2[k2]
            &&& forall|k: int| 1 <= k < h ==> oh.nxt(#[trigger] s2[k] as int) == Some(s2[k + 1])
            &&& forall|k: int| 1 <= k <= h ==> oh.prv(#[trigger] s2[k] as int) == Some(s2[k - 1])
            &&& forall|u: nat| ring.contains(u) ==> exists|c: int| 0 <= c < h && #[trigger] s2[c] == u
        }),
{
    let h = ring.len() as int;
    let rs = rotate(ring, je);
    let s2 = rs.push(ring[je]);
    lemma_rotate(oh, ring, n, je);
    assert forall|k: int| 0 <= k < h implies ring.contains(#[trigger] s2[k]) by {
        assert(s2[k] == rs[k]);
    }
    assert forall|k1: int, k2: int| 0 <= k1 < k2 < h implies s2[k1] != s2[k2] by {
        assert(s2[k1] == rs[k1] && s2[k2] == rs[k2]);
    }
    assert(oh.nxt(rs[0] as int) == Some(ring_succ(rs, 0)));
    assert(oh.nxt(ring[je] as int) == Some(ring_succ(ring, je)));
    assert forall|k: int| 1 <= k < h implies oh.nxt(#[trigger] s2[k] as int) == Some(s2[k + 1]) by {
        assert(oh.nxt(rs[k] as int) == Some(ring_succ(rs, k)));
    }
    assert forall|k: int| 1 <= k <= h implies oh.prv(#[trigger] s2[k] as int) == Some(s2[k - 1]) by {
        if k < h {
            assert(oh.prv(rs[k] as int) == Some(ring_pred(rs, k)));
        } else {
            assert(oh.prv(rs[0] as int) == Some(ring_pred(rs, 0)));
        }
    }
    assert forall|u: nat| ring.contains(u) implies exists|c: int| 0 <= c < h && #[trigger] s2[c] == u by {
        assert(rs.contains(u));
        let c = choose|c: int| 0 <= c < h && rs[c] == u;
        assert(s2[c] == u);
    }
}

/// The parts of `state_ok`.
proof fn lemma_state_parts<T: Scalar, I: Index>(
    tr: &Triangulation<I>,
    hull: &Hull<T, I>,
    ring: Seq<nat>,
    n: nat,
)
    requires
        tr.state_ok(hull, ring, n),
    ensures
        tr.mesh_ok(n),
        hull.ring_ok(ring, n),
        hull.hash_ok(ring, n),
        tr.ring_tri_ok(hull, ring),
        tr.boundary_recorded(hull, None),
        forall|u: int| 0 <= u < n && (#[trigger] hull.tri_of(u)) is Some ==> ring.contains(u as nat),
{
    reveal(Triangulation::state_ok);
}

/// After the first triangle, the hull vertices other than `i` keep their
/// boundary records.
#[verifier::spinoff_prover]
#[verifier::rlimit(100)]
proof fn lemma_start_tri<T: Scalar, I: Index>(
    o: &Triangulation<I>,
    oh: &Hull<T, I>,
    s: &Triangulation<I>,
    sh: &Hull<T, I>,
    ring: Seq<nat>,
    je: int,
    i: nat,
    n: nat,
    t: nat,
)
    requires
        o.mesh_ok(n),
        s.mesh_ok(n),
        oh.ring_ok(ring, n),
        o.ring_tri_ok(oh, ring),
        0 <= je < ring.len(),
        i < n,
        !ring.contains(i),
        Triangulation::appended(
            o,
            s,
            t,
            ring[je],
            i,
            ring_succ(ring, je),
            None,
            None,
            oh.tri_of(ring[je] as int),
        ),
        sh.tri@.len() == n,
        forall|u: int|
            0 <= u < n ==> #[trigger] sh.tri_of(u) == if u == ring[je] {
                Some(t)
            } else {
                oh.tri_of(u)
            },
    ensures
        forall|j: int|
            0 <= j < vring(rotate(ring, je).push(ring[je]), i, 0, 0).len() && vring(
                rotate(ring, je).push(ring[je]),
                i,
                0,
                0,
            )[j] != i ==> s.hull_edge(
                sh.tri_of(#[trigger] vring(rotate(ring, je).push(ring[je]), i, 0, 0)[j] as int),
                vring(rotate(ring, je).push(ring[je]), i, 0, 0)[j],
                ring_succ(vring(rotate(ring, je).push(ring[je]), i, 0, 0), j),
            ),
{
    let h = ring.len() as int;
    let s2 = rotate(ring, je).push(ring[je]);
    let e = ring[je];
    lemma_s2(oh, ring, n, je);
    lemma_vring(ring, s2, i, 0, 0, n);
    let v = vring(s2, i, 0, 0);
    o.lemma_mesh_len(n);
    s.lemma_mesh_len(n);
    lemma_halfedge(t as int);
    lemma_halfedge(t + 1int);
    assert(spec_next_halfedge(t as int) == t + 1);
    let te = oh.tri_of(e as int)->0;
    assert(o.hull_edge(oh.tri_of(ring[je] as int), ring[je], ring_succ(ring, je)));
    assert forall|j: int|
        0 <= j < v.len() && v[j] != i implies s.hull_edge(
        sh.tri_of(#[trigger] v[j] as int),
        v[j],
        ring_succ(v, j),
    ) by {
        if j == 0 {
        } else {
            assert(j >= 2);
            assert(v[j] == s2[j - 1]);
            assert(ring_succ(v, j) == s2[j]) by {
                if j + 1 < v.len() {
                    assert(v[j + 1] == s2[j]);
                }
            }
            assert(v[j] != e);
            assert(ring.contains(v[j]));
            let c = choose|c: int| 0 <= c < h && ring[c] == v[j];
            assert(oh.nxt(v[j] as int) == Some(s2[j]));
            assert(oh.nxt(ring[c] as int) == Some(ring_succ(ring, c)));
            assert(o.hull_edge(oh.tri_of(ring[c] as int), ring[c], ring_succ(ring, c)));
            let fe = oh.tri_of(v[j] as int)->0;
            assert(fe != te);
            lemma_appended_keeps(
                o,
                s,
                t,
                e,
                i,
                ring_succ(ring, je),
                None,
                None,
                oh.tri_of(e as int),
                n,
                fe as int,
            );
        }
    }
}

/// Assembles `fan_ok` from its parts.
proof fn lemma_fan_intro<T: Scalar, I: Index>(
    tr: &Triangulation<I>,
    hull: &Hull<T, I>,
    ring: Seq<nat>,
    s2: Seq<nat>,
    i: nat,
    f: int,
    b: int,
    total: nat,
    n: nat,
    w: bool,
)
    requires
        ({
            let h = ring.len() as int;
            let v = vring(s2, i, f, b);
            &&& tr.mesh_ok(n)
            &&& hull.prev_ok(ring, n)
            &&& s2.len() == h + 1
            &&& 0 <= f && 0 <= b && 1 + f < h - b
            &&& s2[h] == s2[0]
            &&& forall|k: int| 0 <= k < h ==> ring.contains(#[trigger] s2[k])
            &&& forall|k1: int, k2: int| 0 <= k1 < k2 < h ==> s2[k1] != s2[k2]
            &&& forall|k: int| 1 + f <= k < h - b ==> hull.nxt(#[trigger] s2[k] as int) == Some(s2[k + 1])
            &&& forall|k: int| 1 <= k <= h ==> hull.prv(#[trigger] s2[k] as int) == Some(s2[k - 1])
            &&& forall|u: int| 0 <= u < n && (#[trigger] hull.nxt(u)) is Some ==> v.contains(u as nat) && u != i
            &&& !ring.contains(i)
            &&& i < n
            &&& forall|j: int|
                0 <= j < v.len() && (w || v[j] != i) ==> tr.hull_edge(
                    hull.tri_of(#[trigger] v[j] as int),
                    v[j],
                    ring_succ(v, j),
                )
            &&& forall|j: int| 0 <= j < h && !v.contains(#[trigger] ring[j]) ==> hull.tri_of(ring[j] as int) is None
            &&& tr.edge_count() / 3 + v.len() == total
            &&& 3 * total < I::spec_max()
            &&& hull.tri@.len() == n && hull.next@.len() == n
            &&& tr.boundary_recorded(hull, if w { None } else { Some(i) })
            &&& forall|u: int| 0 <= u < n && (#[trigger] hull.tri_of(u)) is Some ==> v.contains(u as nat)
        }),
    ensures
        tr.fan_ok(hull, ring, s2, i, f, b, total, n, w),
{
    reveal(Triangulation::fan_ok);
}

/// The hull's side of `lemma_fan_start`.
#[verifier::spinoff_prover]
#[verifier::rlimit(100)]
proof fn lemma_start_links<T: Scalar, I: Index>(
    oh: &Hull<T, I>,
    sh: &Hull<T, I>,
    ring: Seq<nat>,
    je: int,
    i: nat,
    n: nat,
    t: nat,
)
    requires
        oh.ring_ok(ring, n),
        0 <= je < ring.len(),
        i < n,
        !ring.contains(i),
        sh.prev == oh.prev,
        sh.next == oh.next,
        sh.start == oh.start,
        sh.tri@.len() == n,
        forall|u: int|
            0 <= u < n ==> #[trigger] sh.tri_of(u) == if u == ring[je] {
                Some(t)
            } else {
                oh.tri_of(u)
            },
    ensures
        ({
            let h = ring.len() as int;
            let s2 = rotate(ring, je).push(ring[je]);
            let v = vring(s2, i, 0, 0);
            &&& sh.prev_ok(ring, n)
            &&& forall|j: int| 0 <= j < h && !v.contains(#[trigger] ring[j]) ==> sh.tri_of(ring[j] as int) is None
            &&& forall|u: int| 0 <= u < n && (#[trigger] sh.nxt(u)) is Some ==> v.contains(u as nat) && u != i
            &&& forall|k: int| 1 <= k < h ==> sh.nxt(#[trigger] s2[k] as int) == Some(s2[k + 1])
            &&& forall|k: int| 1 <= k <= h ==> sh.prv(#[trigger] s2[k] as int) == Some(s2[k - 1])
            &&& v.len() == h + 1
        }),
{
    let h = ring.len() as int;
    let s2 = rotate(ring, je).push(ring[je]);
    lemma_s2(oh, ring, n, je);
    lemma_vring(ring, s2, i, 0, 0, n);
    let v = vring(s2, i, 0, 0);
    assert(sh.prev_ok(ring, n));
    assert forall|j: int| 0 <= j < h && !v.contains(#[trigger] ring[j]) implies sh.tri_of(
        ring[j] as int,
    ) is None by {
        assert(ring.contains(ring[j]));
        let c = choose|c: int| 0 <= c < h && s2[c] == ring[j];
        if c == 0 {
            assert(v[0] == ring[j]);
        } else {
            assert(v[c + 1] == ring[j]);
        }
    }
    assert forall|u: int| 0 <= u < n && (#[trigger] sh.nxt(u)) is Some implies v.contains(u as nat)
        && u != i by {
        assert(oh.nxt(u) is Some);
        assert(ring.contains(u as nat));
        let c = choose|c: int| 0 <= c < h && s2[c] == u;
        if c == 0 {
            assert(v[0] == u);
        } else {
            assert(v[c + 1] == u);
        }
    }
    assert forall|k: int| 1 <= k < h implies sh.nxt(#[trigger] s2[k] as int) == Some(s2[k + 1]) by {
        assert(oh.nxt(s2[k] as int) == Some(s2[k + 1]));
    }
    assert forall|k: int| 1 <= k <= h implies sh.prv(#[trigger] s2[k] as int) == Some(s2[k - 1]) by {
        assert(oh.prv(s2[k] as int) == Some(s2[k - 1]));
    }
}

/// The first triangle from the new point `i`, on the hull edge from `e`,
/// starts the state in progress.
#[verifier::spinoff_prover]
#[verifier::rlimit(100)]
proof fn lemma_fan_start<T: Scalar, I: Index>(
    o: &Triangulation<I>,
    oh: &Hull<T, I>,
    s: &Triangulation<I>,
    sh: &Hull<T, I>,
    ring: Seq<nat>,
    je: int,
    i: nat,
    total: nat,
    n: nat,
    t: nat,
)
    requires
        o.state_ok(oh, ring, n),
        0 <= je < ring.len(),
        i < n,
        !ring.contains(i),
        total == o.edge_count() / 3 + ring.len() + 2,
        3 * total < I::spec_max(),
        Triangulation::appended(
            o,
            s,
            t,
            ring[je],
            i,
            ring_succ(ring, je),
            None,
            None,
            oh.tri_of(ring[je] as int),
        ),
        s.mesh_ok(n),
        sh.prev == oh.prev,
        sh.next == oh.next,
        sh.start == oh.start,
        sh.tri@.len() == n,
        forall|u: int|
            0 <= u < n ==> #[trigger] sh.tri_of(u) == if u == ring[je] {
                Some(t)
            } else {
                oh.tri_of(u)
            },
    ensures
        s.fan_ok(
            sh,
            ring,
            rotate(ring, je).push(ring[je]),
            i,
            0,
            0,
            total,
            n,
            false,
        ),
        s.tri(t + 1int) == i,
        s.twin(t + 1int) is None,
        s.edge_end(t + 1int) == ring_succ(ring, je),
        t + 2 < s.edge_count(),
        spec_prev_halfedge(t + 2int) == t + 1,
        rotate(ring, je).push(ring[je])[0] == ring[je],
        rotate(ring, je).push(ring[je])[1] == ring_succ(ring, je),
        forall|g: int|
            0 <= g < s.edge_count() && (#[trigger] s.twin(g)) is None && s.tri(g) == i ==> g == t + 1,
{
    let h = ring.len() as int;
    let s2 = rotate(ring, je).push(ring[je]);
    lemma_state_parts(o, oh, ring, n);
    lemma_s2(oh, ring, n, je);
    lemma_start_tri(o, oh, s, sh, ring, je, i, n, t);
    lemma_start_links(oh, sh, ring, je, i, n, t);
    lemma_vring(ring, s2, i, 0, 0, n);
    o.lemma_mesh_len(n);
    s.lemma_mesh_len(n);
    assert(s.edge_count() / 3 == o.edge_count() / 3 + 1);
    lemma_halfedge(t as int);
    lemma_halfedge(t + 1int);
    lemma_halfedge(t + 2int);
    assert(spec_next_halfedge(t as int) == t + 1);
    assert(spec_next_halfedge(t + 1int) == t + 2) by {
        lemma_same_triangle(t + 1int, t as int);
    }
    let v = vring(s2, i, 0, 0);
    assert forall|g: int|
        0 <= g < s.edge_count() && (#[trigger] s.twin(g)) is None implies Some(s.tri(g)) == Some(i)
        || sh.tri_of(s.tri(g) as int) == Some(g as nat) by {
        if g < t {
            assert(o.twin(g) is None);
            assert(s.tri(g) == o.tri(g));
            o.lemma_mesh_at(n, g);
            assert(oh.tri_of(o.tri(g) as int) == Some(g as nat));
        }
    }
    assert forall|g: int|
        0 <= g < s.edge_count() && (#[trigger] s.twin(g)) is None && s.tri(g) == i implies g == t + 1 by {
        if g < t {
            assert(o.twin(g) is None);
            o.lemma_mesh_at(n, g);
            assert(oh.tri_of(i as int) == Some(g as nat));
        }
    }
    assert forall|u: int| 0 <= u < n && (#[trigger] sh.tri_of(u)) is Some implies v.contains(u as nat) by {
        if u == ring[je] {
            assert(v[0] == u);
        } else {
            assert(oh.tri_of(u) is Some);
            assert(ring.contains(u as nat));
            let c = choose|c: int| 0 <= c < ring.len() && s2[c] == u;
            if c == 0 {
                assert(v[0] == u);
            } else {
                assert(v[c + 1] == u);
            }
        }
    }
    lemma_fan_intro(s, sh, ring, s2, i, 0, 0, total, n, false);
}

/// Splicing `i` into the hull between `e` and `n` closes the ring.
#[verifier::spinoff_prover]
#[verifier::rlimit(100)]
proof fn lemma_fan_finish<T: Scalar, I: Index>(
    s: &Triangulation<I>,
    oh: &Hull<T, I>,
    sh: &Hull<T, I>,
    ring: Seq<nat>,
    s2: Seq<nat>,
    i: nat,
    f: int,
    b: int,
    total: nat,
    n: nat,
)
    requires
        s.fan_ok(oh, ring, s2, i, f, b, total, n, true),
        sh.prev@.len() == n,
        sh.next@.len() == n,
        sh.tri == oh.tri,
        sh.start == s2[ring.len() - b],
        forall|u: int|
            0 <= u < n ==> #[trigger] sh.prv(u) == if u == i {
                Some(s2[ring.len() - b])
            } else if u == s2[1 + f] {
                Some(i)
            } else {
                oh.prv(u)
            },
        forall|u: int|
            0 <= u < n ==> #[trigger] sh.nxt(u) == if u == i {
                Some(s2[1 + f])
            } else if u == s2[ring.len() - b] {
                Some(i)
            } else {
                oh.nxt(u)
            },
    ensures
        sh.ring_ok(vring(s2, i, f, b), n),
        s.ring_tri_ok(sh, vring(s2, i, f, b)),
        s.mesh_ok(n),
        s.edge_count() / 3 + vring(s2, i, f, b).len() == total,
        3 * total < I::spec_max(),
        vring(s2, i, f, b).contains(i),
        vring(s2, i, f, b).contains(s2[ring.len() - b]),
        forall|u: nat| #[trigger] vring(s2, i, f, b).contains(u) ==> u == i || ring.contains(u),
        s.boundary_recorded(sh, None),
        forall|u: int| 0 <= u < n && (#[trigger] sh.tri_of(u)) is Some ==> vring(s2, i, f, b).contains(u as nat),
{
    reveal(Triangulation::fan_ok);
    let h = ring.len() as int;
    let v = vring(s2, i, f, b);
    let e = s2[h - b];
    let nn = s2[1 + f];
    lemma_vring(ring, s2, i, f, b, n);
    lemma_fan_bwd_pre(s, oh, ring, s2, i, f, b, total, n);
    assert(oh.prev_ok(ring, n));
    assert(v[0] == e && v[1] == i && v[2] == nn);
    assert(v.contains(i)) by {
        assert(v[1] == i);
    }
    assert(v.contains(e)) by {
        assert(v[0] == e);
    }
    assert forall|j: int| 0 <= j < v.len() implies #[trigger] v[j] < n by {
        if j != 1 {
            assert(ring.contains(v[j]));
            let c = choose|c: int| 0 <= c < h && ring[c] == v[j];
        }
    }
    assert(e != nn) by {
        if b == 0 {
            assert(s2[h] == s2[0]);
        }
    }
    assert forall|j: int|
        0 <= j < v.len() implies sh.prv(#[trigger] v[j] as int) == Some(ring_pred(v, j)) by {
        if j == 0 {
            assert(oh.prv(s2[h - b] as int) == Some(s2[h - b - 1]));
            assert(v[v.len() - 1] == s2[h - b - 1]);
        } else if j >= 3 {
            assert(v[j] == s2[j - 1 + f]);
            assert(v[j] != nn && v[j] != i);
            assert(oh.prv(s2[j - 1 + f] as int) == Some(s2[j - 2 + f]));
        }
    }
    assert forall|j: int|
        0 <= j < v.len() implies sh.nxt(#[trigger] v[j] as int) == Some(ring_succ(v, j)) by {
        if j >= 2 {
            assert(v[j] == s2[j - 1 + f]);
            assert(v[j] != e && v[j] != i) by {
                if b == 0 {
                    assert(s2[h] == s2[0]);
                }
            }
            assert(oh.nxt(s2[j - 1 + f] as int) == Some(s2[j + f]));
            if j + 1 < v.len() {
                assert(v[j + 1] == s2[j + f]);
            }
        }
    }
    assert forall|u: int| 0 <= u < n && (#[trigger] sh.nxt(u)) is Some implies v.contains(u as nat) by {
        if u != i && u != e {
            assert(oh.nxt(u) is Some);
        }
    }
    assert forall|g: int|
        0 <= g < s.edge_count() && (#[trigger] s.twin(g)) is None implies Some(s.tri(g)) == (None::<nat>)
        || sh.tri_of(s.tri(g) as int) == Some(g as nat) by {
        s.lemma_mesh_at(n, g);
        assert(oh.tri_of(s.tri(g) as int) == Some(g as nat));
    }
    assert forall|u: int| 0 <= u < n && (#[trigger] sh.tri_of(u)) is Some implies v.contains(u as nat) by {
        assert(oh.tri_of(u) is Some);
    }
}

impl<I: Index> Triangulation<I> {
    /// The point at which half-edge `k` starts.
    pub open spec fn tri(&self, k: int) -> nat {
        self.triangles@[k].to_nat()
    }

    /// The point at which half-edge `k` ends.
    pub open spec fn edge_end(&self, k: int) -> nat {
        self.tri(spec_next_halfedge(k))
    }

    /// The twin of half-edge `k`, `None` on the convex hull.
    pub open spec fn twin(&self, k: int) -> Option<nat> {
        self.halfedges@[k]@
    }

    /// Point index `j` of the hull.
    pub open spec fn hull_at(&self, j: int) -> nat {
        self.hull@[j].to_nat()
    }

    /// The number of triangles.
    pub open spec fn spec_len(&self) -> nat {
        self.triangles@.len() / 3
    }

    /// The index of the first half-edge starting at point `v`, if any.
    pub open spec fn vertex_of(&self, v: int) -> Option<nat> {
        if self.vertices@[v].to_nat() == I::spec_max() {
            None
        } else {
            Some(self.vertices@[v].to_nat())
        }
    }

    /// The arrays index each other within bounds: whole triangles, and twins
    /// that are half-edges.
    pub open spec fn indices_ok(&self) -> bool {
        &&& self.triangles@.len() == self.halfedges@.len()
        &&& self.triangles@.len() % 3 == 0
        &&& self.triangles@.len() < usize::MAX
        &&& forall|k: int|
            0 <= k < self.edge_count() && (#[trigger] self.twin(k)) is Some ==> self.twin(k)->0
                < self.edge_count()
        &&& forall|v: int|
            0 <= v < self.vertices@.len() ==> ((#[trigger] self.vertex_of(v)) matches Some(k) ==> k
                < self.edge_count())
    }

    /// Every boundary half-edge, but those starting at `x`, is the one that
    /// `hull.tri` records for the point it starts at.
    pub(crate) open spec fn boundary_recorded<T: Scalar>(&self, hull: &Hull<T, I>, x: Option<nat>) -> bool {
        forall|f: int|
            0 <= f < self.edge_count() && (#[trigger] self.twin(f)) is None ==> Some(self.tri(f)) == x
                || hull.tri_of(self.tri(f) as int) == Some(f as nat)
    }

    /// Whether half-edge `a` has a twin and the vertex across it lies
    /// strictly inside the circle through the triangle of `a`, the two
    /// opposite vertices being different points: the condition on which
    /// `legalize` flips `a`.
    pub open spec fn spec_illegal<T: Scalar, P: HasPosition<T>>(&self, a: int, points: Seq<P>) -> bool {
        match self.twin(a) {
            None => false,
            Some(b) => {
                let p0 = self.tri(spec_prev_halfedge(a));
                let pr = self.tri(a);
                let pl = self.tri(spec_next_halfedge(a));
                let p1 = self.tri(spec_prev_halfedge(b as int));
                p1 != p0 && points[p1 as int].spec_pos().spec_is_in_circle(
                    points[p0 as int].spec_pos(),
                    points[pr as int].spec_pos(),
                    points[pl as int].spec_pos(),
                )
            },
        }
    }

    /// Point `v` is a vertex: some half-edge starts at it.
    pub open spec fn is_vertex(&self, v: nat) -> bool {
        exists|k: int| 0 <= k < self.edge_count() && #[trigger] self.tri(k) == v
    }

    /// Every vertex of `o` is a vertex of `s`.
    pub open spec fn keeps_vertices(o: &Self, s: &Self) -> bool {
        forall|v: nat| #[trigger] o.is_vertex(v) ==> s.is_vertex(v)
    }

    /// Point `i` sees no edge of some cycle of at least three vertices.
    pub open spec fn unseen_by<T: Scalar, P: HasPosition<T>>(&self, points: Seq<P>, i: nat) -> bool {
        exists|cyc: Seq<nat>|
            cyc.len() >= 3 && forall|j: int|
                0 <= j < cyc.len() ==> self.is_vertex(#[trigger] cyc[j]) && !sees(
                    points[i as int].spec_pos(),
                    points,
                    cyc[j],
                    ring_succ(cyc, j),
                )
    }

    /// Point `i` is a vertex, or nearly equals another point, or sees no
    /// edge of some cycle of vertices (so no hull edge was found for it).
    pub open spec fn covers<T: Scalar + ApproxEq, P: HasPosition<T>>(&self, points: Seq<P>, i: nat) -> bool {
        ||| self.is_vertex(i)
        ||| exists|j: int|
            0 <= j < points.len() && j != i && points[i as int].spec_pos().spec_nearly_equals(
                #[trigger] points[j].spec_pos(),
            )
        ||| self.unseen_by(points, i)
    }

    /// Half-edge `f` runs from a hull point to the next one.
    pub open spec fn on_hull(&self, f: int) -> bool {
        exists|j: int|
            0 <= j < self.hull@.len() && #[trigger] self.hull_at(j) == self.tri(f) && self.edge_end(f)
                == self.hull_at(
                if j + 1 < self.hull@.len() {
                    j + 1
                } else {
                    0
                },
            )
    }

    /// Some half-edge from `v` to `w` has no twin.
    pub open spec fn has_boundary_edge(&self, v: nat, w: nat) -> bool {
        exists|f: int|
            0 <= f < self.edge_count() && self.twin(f) is None && #[trigger] self.tri(f) == v
                && self.edge_end(f) == w
    }

    /// A triangulation of `n` points: a half-edge mesh (`mesh_ok`) whose
    /// convex hull lists distinct points, each hull edge being a half-edge
    /// without twin and each half-edge without twin a hull edge, and whose `vertices` give for each point the first
    /// half-edge that starts at it.
    pub open spec fn valid(&self, n: nat) -> bool {
        &&& self.mesh_ok(n)
        &&& self.triangles@.len() >= 3
        &&& self.hull@.len() >= 3
        &&& forall|j: int| 0 <= j < self.hull@.len() ==> #[trigger] self.hull_at(j) < n
        &&& forall|j1: int, j2: int|
            0 <= j1 < j2 < self.hull@.len() ==> self.hull_at(j1) != self.hull_at(j2)
        &&& forall|j: int|
            0 <= j < self.hull@.len() ==> self.has_boundary_edge(
                #[trigger] self.hull_at(j),
                self.hull_at(
                    if j + 1 < self.hull@.len() {
                        j + 1
                    } else {
                        0
                    },
                ),
            )
        &&& forall|f: int|
            0 <= f < self.edge_count() && (#[trigger] self.twin(f)) is None ==> self.on_hull(f)
        &&& self.vertices@.len() == n
        &&& forall|v: int|
            0 <= v < n ==> match #[trigger] self.vertex_of(v) {
                Some(k) => k < self.edge_count() && self.tri(k as int) == v && forall|k2: int|
                    0 <= k2 < k ==> self.tri(k2) != v,
                None => forall|k2: int| 0 <= k2 < self.edge_count() ==> self.tri(k2) != v,
            }
    }

    /// The number of half-edges.
    pub open spec fn edge_count(&self) -> nat {
        self.triangles@.len()
    }

    /// A half-edge mesh over `n` points: whole triangles, point indices below
    /// `n`, no edge from a point to itself, and twins that are symmetric and
    /// run between the same two points in the other direction.
    #[verifier::opaque]
    pub open spec fn mesh_ok(&self, n: nat) -> bool {
        &&& self.triangles@.len() == self.halfedges@.len()
        &&& self.triangles@.len() % 3 == 0
        &&& self.triangles@.len() < I::spec_max()
        &&& n <= I::spec_max()
        &&& forall|k: int| 0 <= k < self.edge_count() ==> #[trigger] self.tri(k) < n
        &&& forall|k: int| 0 <= k < self.edge_count() ==> #[trigger] self.tri(k) != self.edge_end(k)
        &&& forall|k: int|
            0 <= k < self.edge_count() && (#[trigger] self.twin(k)) is Some ==> {
                let j = self.twin(k)->0 as int;
                &&& j < self.edge_count()
                &&& self.twin(j) == Some(k as nat)
                &&& self.tri(j) == self.edge_end(k)
                &&& self.edge_end(j) == self.tri(k)
            }
    }

    /// `f` is a boundary half-edge from `v` to `w`.
    pub open spec fn hull_edge(&self, f: Option<nat>, v: nat, w: nat) -> bool {
        &&& f is Some
        &&& f->0 < self.edge_count()
        &&& self.twin(f->0 as int) is None
        &&& self.tri(f->0 as int) == v
        &&& self.edge_end(f->0 as int) == w
    }

    /// The hull vertices of `ring` in `live` have their boundary half-edge to
    /// `succ[v]` recorded in `hull.tri`; the others of `ring` have none.
    pub(crate) open spec fn hull_tri_ok<T: Scalar>(
        &self,
        hull: &Hull<T, I>,
        ring: Seq<nat>,
        live: Set<nat>,
        succ: Map<nat, nat>,
    ) -> bool {
        forall|j: int|
            0 <= j < ring.len() ==> if live.contains(#[trigger] ring[j]) {
                self.hull_edge(hull.tri_of(ring[j] as int), ring[j], succ[ring[j]])
            } else {
                hull.tri_of(ring[j] as int) is None
            }
    }

    /// Appending a triangle whose edges are linked to boundary half-edges
    /// running the other way keeps the mesh well formed.
    proof fn lemma_add_triangle(
        o: &Self,
        s: &Self,
        n: nat,
        t: nat,
        i0: nat,
        i1: nat,
        i2: nat,
        a: Option<nat>,
        b: Option<nat>,
        c: Option<nat>,
    )
        requires
            o.mesh_ok(n),
            t == o.edge_count(),
            s.edge_count() == t + 3,
            s.halfedges@.len() == t + 3,
            t + 3 < I::spec_max(),
            i0 < n && i1 < n && i2 < n,
            i0 != i1 && i1 != i2 && i2 != i0,
            a is Some ==> o.hull_edge(a, i1, i0),
            b is Some ==> o.hull_edge(b, i2, i1),
            c is Some ==> o.hull_edge(c, i0, i2),
            s.tri(t as int) == i0,
            s.tri(t + 1int) == i1,
            s.tri(t + 2int) == i2,
            s.twin(t as int) == a,
            s.twin(t + 1int) == b,
            s.twin(t + 2int) == c,
            forall|k: int| 0 <= k < t ==> #[trigger] s.tri(k) == o.tri(k),
            forall|k: int|
                0 <= k < t ==> #[trigger] s.twin(k) == if a == Some(k as nat) {
                    Some(t as nat)
                } else if b == Some(k as nat) {
                    Some((t + 1) as nat)
                } else if c == Some(k as nat) {
                    Some((t + 2) as nat)
                } else {
                    o.twin(k)
                },
        ensures
            s.mesh_ok(n),
    {
        reveal(Triangulation::mesh_ok);
        assert forall|k: int| 0 <= k < s.edge_count() implies #[trigger] s.edge_end(k) == (if k < t {
            o.edge_end(k)
        } else if k == t {
            i1
        } else if k == t + 1 {
            i2
        } else {
            i0
        }) by {
            lemma_halfedge(k);
            if k >= t {
                lemma_same_triangle(spec_next_halfedge(k), t as int);
                lemma_halfedge(t as int);
                assert(t % 3 == 0);
            }
        }
        assert forall|k: int| 0 <= k < s.edge_count() && (#[trigger] s.twin(k)) is Some implies {
            let j = s.twin(k)->0 as int;
            &&& j < s.edge_count()
            &&& s.twin(j) == Some(k as nat)
            &&& s.tri(j) == s.edge_end(k)
            &&& s.edge_end(j) == s.tri(k)
        } by {
            if k < t && o.twin(k) is Some {
                let j = o.twin(k)->0 as int;
                assert(o.twin(j) == Some(k as nat));
                assert(s.edge_end(j) == o.edge_end(j));
            }
        }
        assert forall|k: int| 0 <= k < s.edge_count() implies #[trigger] s.tri(k) != s.edge_end(k) by {
            assert(s.edge_end(k) == (if k < t {
                o.edge_end(k)
            } else if k == t {
                i1
            } else if k == t + 1 {
                i2
            } else {
                i0
            }));
        }
    }

    /// What `mesh_ok` says of one half-edge.
    pub proof fn lemma_mesh_at(&self, n: nat, k: int)
        requires
            self.mesh_ok(n),
            0 <= k < self.edge_count(),
        ensures
            self.tri(k) < n,
            self.tri(k) != self.edge_end(k),
            self.twin(k) is Some ==> {
                let j = self.twin(k)->0 as int;
                &&& j < self.edge_count()
                &&& self.twin(j) == Some(k as nat)
                &&& self.tri(j) == self.edge_end(k)
                &&& self.edge_end(j) == self.tri(k)
            },
    {
        reveal(Triangulation::mesh_ok);
    }

    /// What `mesh_ok` says of the arrays' lengths.
    pub proof fn lemma_mesh_len(&self, n: nat)
        requires
            self.mesh_ok(n),
        ensures
            self.triangles@.len() == self.halfedges@.len(),
            self.triangles@.len() % 3 == 0,
            self.triangles@.len() < I::spec_max(),
            n <= I::spec_max(),
    {
        reveal(Triangulation::mesh_ok);
    }

    /// `s` is `o` with the diagonal `a`/`b` flipped.
    pub open spec fn flipped(o: &Self, s: &Self, a: int, b: int) -> bool {
        let ar = spec_prev_halfedge(a);
        let bl = spec_prev_halfedge(b);
        &&& s.edge_count() == o.edge_count()
        &&& s.halfedges@.len() == o.halfedges@.len()
        &&& forall|k: int|
            0 <= k < o.edge_count() ==> #[trigger] s.tri(k) == if k == a {
                o.tri(bl)
            } else if k == b {
                o.tri(ar)
            } else {
                o.tri(k)
            }
        &&& forall|k: int|
            0 <= k < o.edge_count() ==> #[trigger] s.twin(k) == if k == a {
                o.twin(bl)
            } else if k == b {
                o.twin(ar)
            } else if k == ar {
                Some(bl as nat)
            } else if k == bl {
                Some(ar as nat)
            } else if o.twin(bl) == Some(k as nat) {
                Some(a as nat)
            } else if o.twin(ar) == Some(k as nat) {
                Some(b as nat)
            } else {
                o.twin(k)
            }
    }

    /// The flip's precondition: `a` and `b` are twins and the vertices across
    /// them differ.
    pub open spec fn flippable(o: &Self, n: nat, a: int, b: int) -> bool {
        &&& o.mesh_ok(n)
        &&& 0 <= a < o.edge_count()
        &&& 0 <= b
        &&& o.twin(a) == Some(b as nat)
        &&& o.tri(spec_prev_halfedge(b)) != o.tri(spec_prev_halfedge(a))
    }

    /// The facts about the six half-edges of the two triangles of a flip.
    proof fn lemma_flip_setup(o: &Self, n: nat, a: int, b: int)
        requires
            Self::flippable(o, n, a, b),
        ensures
            0 <= b < o.edge_count(),
            o.twin(b) == Some(a as nat),
            a / 3 != b / 3,
            o.tri(b) == o.tri(spec_next_halfedge(a)),
            o.edge_end(b) == o.tri(a),
            o.tri(spec_prev_halfedge(a)) != o.tri(a),
            o.tri(spec_prev_halfedge(a)) != o.tri(spec_next_halfedge(a)),
            o.tri(a) != o.tri(spec_next_halfedge(a)),
            o.tri(spec_prev_halfedge(b)) != o.tri(a),
            o.tri(spec_prev_halfedge(b)) != o.tri(spec_next_halfedge(a)),
            o.edge_end(spec_prev_halfedge(a)) == o.tri(a),
            o.edge_end(spec_prev_halfedge(b)) == o.tri(spec_next_halfedge(a)),
            o.edge_end(spec_next_halfedge(b)) == o.tri(spec_prev_halfedge(b)),
            o.tri(spec_next_halfedge(b)) == o.tri(a),
            o.edge_end(a) == o.tri(spec_next_halfedge(a)),
            o.edge_end(spec_next_halfedge(a)) == o.tri(spec_prev_halfedge(a)),
            0 <= spec_prev_halfedge(a) < o.edge_count(),
            0 <= spec_next_halfedge(a) < o.edge_count(),
            0 <= spec_prev_halfedge(b) < o.edge_count(),
            0 <= spec_next_halfedge(b) < o.edge_count(),
            o.twin(spec_prev_halfedge(b)) matches Some(h) ==> {
                let h = h as int;
                &&& 0 <= h < o.edge_count()
                &&& o.twin(h) == Some(spec_prev_halfedge(b) as nat)
                &&& h != a && h != b && h != spec_prev_halfedge(a) && h != spec_prev_halfedge(b)
                &&& spec_next_halfedge(h) != a && spec_next_halfedge(h) != b
                &&& o.tri(h) == o.tri(spec_next_halfedge(a))
                &&& o.edge_end(h) == o.tri(spec_prev_halfedge(b))
            },
            o.twin(spec_prev_halfedge(a)) matches Some(h) ==> {
                let h = h as int;
                &&& 0 <= h < o.edge_count()
                &&& o.twin(h) == Some(spec_prev_halfedge(a) as nat)
                &&& h != a && h != b && h != spec_prev_halfedge(a) && h != spec_prev_halfedge(b)
                &&& spec_next_halfedge(h) != a && spec_next_halfedge(h) != b
                &&& o.twin(spec_prev_halfedge(b)) != Some(h as nat)
                &&& o.tri(h) == o.tri(a)
                &&& o.edge_end(h) == o.tri(spec_prev_halfedge(a))
            },
    {
        let ar = spec_prev_halfedge(a);
        let al = spec_next_halfedge(a);
        let bl = spec_prev_halfedge(b);
        let br = spec_next_halfedge(b);
        o.lemma_mesh_len(n);
        o.lemma_mesh_at(n, a);
        lemma_halfedge(a);
        let len = o.edge_count() as int;
        assert(0 <= ar < len && 0 <= al < len);
        lemma_halfedge(b);
        assert(0 <= bl < len && 0 <= br < len);
        lemma_halfedge(ar);
        lemma_halfedge(al);
        lemma_halfedge(bl);
        lemma_halfedge(br);
        o.lemma_mesh_at(n, b);
        o.lemma_mesh_at(n, ar);
        o.lemma_mesh_at(n, al);
        o.lemma_mesh_at(n, bl);
        o.lemma_mesh_at(n, br);
        assert(a / 3 != b / 3) by {
            if a / 3 == b / 3 {
                lemma_same_triangle(b, a);
            }
        }
        if o.twin(bl) is Some {
            let h = o.twin(bl)->0 as int;
            o.lemma_mesh_at(n, h);
            lemma_halfedge(h);
            assert(h != al);
        }
        if o.twin(ar) is Some {
            let h = o.twin(ar)->0 as int;
            o.lemma_mesh_at(n, h);
            lemma_halfedge(h);
            assert(h != br);
        }
    }

    /// The end point of each half-edge after a flip.
    proof fn lemma_flip_end(o: &Self, s: &Self, n: nat, a: int, b: int, k: int)
        requires
            Self::flippable(o, n, a, b),
            Self::flipped(o, s, a, b),
            0 <= k < o.edge_count(),
        ensures
            s.edge_end(k) == if k == spec_prev_halfedge(a) {
                o.tri(spec_prev_halfedge(b))
            } else if k == spec_prev_halfedge(b) {
                o.tri(spec_prev_halfedge(a))
            } else {
                o.edge_end(k)
            },
    {
        o.lemma_mesh_len(n);
        lemma_halfedge(k);
        lemma_halfedge(a);
        lemma_halfedge(b);
        let nk = spec_next_halfedge(k);
        assert(0 <= nk < o.edge_count());
        if nk == a {
            assert(k == spec_prev_halfedge(a));
        }
        if nk == b {
            assert(k == spec_prev_halfedge(b));
        }
    }

    /// What `mesh_ok` asks of one half-edge holds after a flip.
    #[verifier::spinoff_prover]
    #[verifier::rlimit(100)]
    proof fn lemma_flip_at(o: &Self, s: &Self, n: nat, a: int, b: int, k: int)
        requires
            Self::flippable(o, n, a, b),
            Self::flipped(o, s, a, b),
            0 <= k < o.edge_count(),
        ensures
            s.tri(k) < n,
            s.tri(k) != s.edge_end(k),
            s.twin(k) is Some ==> {
                let j = s.twin(k)->0 as int;
                &&& j < s.edge_count()
                &&& s.twin(j) == Some(k as nat)
                &&& s.tri(j) == s.edge_end(k)
                &&& s.edge_end(j) == s.tri(k)
            },
            o.twin(k) is None && k != spec_prev_halfedge(a) && k != spec_prev_halfedge(b) ==> s.twin(
                k,
            ) is None && s.tri(k) == o.tri(k) && s.edge_end(k) == o.edge_end(k),
    {
        let ar = spec_prev_halfedge(a);
        let bl = spec_prev_halfedge(b);
        Self::lemma_flip_setup(o, n, a, b);
        o.lemma_mesh_at(n, k);
        o.lemma_mesh_at(n, bl);
        o.lemma_mesh_at(n, ar);
        Self::lemma_flip_end(o, s, n, a, b, k);
        if s.twin(k) is Some {
            let j = s.twin(k)->0 as int;
            if k == a || k == b || k == ar || k == bl {
            } else if o.twin(bl) == Some(k as nat) || o.twin(ar) == Some(k as nat) {
            } else {
                let j0 = o.twin(k)->0 as int;
                assert(j == j0);
                o.lemma_mesh_at(n, j);
                assert(j != a && j != b && j != ar && j != bl);
            }
            Self::lemma_flip_end(o, s, n, a, b, j);
        }
    }

    /// Flipping the diagonal `a`/`b` of two adjacent triangles, when the
    /// vertex across `b` is not the vertex `p0` across `a`, keeps the mesh
    /// well formed. The boundary half-edges keep their end points; the two
    /// that sat at `prev(b)` and `prev(a)` move to `a` and `b`; and the
    /// triangle of `b` gains `p0`.
    #[verifier::spinoff_prover]
    #[verifier::rlimit(100)]
    proof fn lemma_flip(o: &Self, s: &Self, n: nat, a: int, b: int)
        requires
            Self::flippable(o, n, a, b),
            Self::flipped(o, s, a, b),
        ensures
        Self::keeps_vertices(o, s),
            s.mesh_ok(n),
            a / 3 != b / 3,
            s.tri(spec_prev_halfedge(a)) == o.tri(spec_prev_halfedge(a)),
            s.tri(b) == o.tri(spec_prev_halfedge(a)),
            s.twin(spec_prev_halfedge(a)) is Some,
            s.twin(b) == o.twin(spec_prev_halfedge(a)),
            s.edge_end(b) == o.edge_end(spec_prev_halfedge(a)),
            s.twin(a) == o.twin(spec_prev_halfedge(b)),
            s.tri(a) == o.tri(spec_prev_halfedge(b)),
            s.edge_end(a) == o.edge_end(spec_prev_halfedge(b)),
            forall|f: int|
                0 <= f < o.edge_count() && o.twin(f) is None && f != spec_prev_halfedge(a) && f
                    != spec_prev_halfedge(b) ==> #[trigger] s.twin(f) is None && s.tri(f) == o.tri(f)
                    && s.edge_end(f) == o.edge_end(f),
            forall|t: int|
                0 <= t < o.edge_count() / 3 && #[trigger] has_vertex(
                    o.triangles@,
                    t,
                    o.tri(spec_prev_halfedge(a)),
                ) ==> has_vertex(s.triangles@, t, o.tri(spec_prev_halfedge(a))),
            !has_vertex(o.triangles@, b / 3, o.tri(spec_prev_halfedge(a))),
            has_vertex(s.triangles@, b / 3, o.tri(spec_prev_halfedge(a))),
            forall|k: int|
                0 <= k < o.edge_count() && o.tri(k) == o.tri(spec_prev_halfedge(a)) ==> #[trigger] s.tri(k)
                    == o.tri(k),
            forall|k: int|
                0 <= k < o.edge_count() && o.tri(k) == o.tri(spec_prev_halfedge(a)) && o.twin(k) is Some
                    ==> #[trigger] s.twin(k) is Some,
    {
        let ar = spec_prev_halfedge(a);
        let al = spec_next_halfedge(a);
        let bl = spec_prev_halfedge(b);
        let br = spec_next_halfedge(b);
        let p0 = o.tri(ar);
        let len = o.edge_count() as int;
        Self::lemma_flip_setup(o, n, a, b);
        o.lemma_mesh_len(n);
        lemma_halfedge(a);
        lemma_halfedge(b);
        Self::lemma_flip_end(o, s, n, a, b, a);
        Self::lemma_flip_end(o, s, n, a, b, b);
        Self::lemma_flip_end(o, s, n, a, b, ar);
        assert forall|f: int|
            0 <= f < o.edge_count() && o.twin(f) is None && f != ar && f != bl implies #[trigger] s.twin(
            f,
        ) is None && s.tri(f) == o.tri(f) && s.edge_end(f) == o.edge_end(f) by {
            Self::lemma_flip_at(o, s, n, a, b, f);
        }
        assert(s.mesh_ok(n)) by {
            reveal(Triangulation::mesh_ok);
            assert forall|k: int| 0 <= k < s.edge_count() implies #[trigger] s.tri(k) < n by {
                Self::lemma_flip_at(o, s, n, a, b, k);
            }
            assert forall|k: int| 0 <= k < s.edge_count() implies #[trigger] s.tri(k) != s.edge_end(
                k,
            ) by {
                Self::lemma_flip_at(o, s, n, a, b, k);
            }
            assert forall|k: int| 0 <= k < s.edge_count() && (#[trigger] s.twin(k)) is Some implies {
                let j = s.twin(k)->0 as int;
                &&& j < s.edge_count()
                &&& s.twin(j) == Some(k as nat)
                &&& s.tri(j) == s.edge_end(k)
                &&& s.edge_end(j) == s.tri(k)
            } by {
                Self::lemma_flip_at(o, s, n, a, b, k);
            }
        }
        let ta = a / 3;
        let tb = b / 3;
        assert forall|t: int|
            0 <= t < len / 3 && #[trigger] has_vertex(o.triangles@, t, p0) implies has_vertex(
            s.triangles@,
            t,
            p0,
        ) by {
            assert(s.tri(3 * t) == s.triangles@[3 * t].to_nat());
            assert(s.tri(3 * t + 1) == s.triangles@[3 * t + 1].to_nat());
            assert(s.tri(3 * t + 2) == s.triangles@[3 * t + 2].to_nat());
            assert(o.tri(3 * t) == o.triangles@[3 * t].to_nat());
            assert(o.tri(3 * t + 1) == o.triangles@[3 * t + 1].to_nat());
            assert(o.tri(3 * t + 2) == o.triangles@[3 * t + 2].to_nat());
            if t == ta {
                assert(s.tri(ar) == p0);
                lemma_same_triangle(ar, 3 * t);
                lemma_halfedge(3 * t);
            }
        }
        assert(o.tri(3 * tb) == o.triangles@[3 * tb].to_nat());
        assert(o.tri(3 * tb + 1) == o.triangles@[3 * tb + 1].to_nat());
        assert(o.tri(3 * tb + 2) == o.triangles@[3 * tb + 2].to_nat());
        assert(s.tri(b) == s.triangles@[b].to_nat());
        lemma_halfedge(3 * tb);
        lemma_same_triangle(b, 3 * tb);
        lemma_same_triangle(bl, 3 * tb);
        lemma_same_triangle(br, 3 * tb);
        lemma_halfedge(bl);
        lemma_halfedge(br);
        assert forall|v: nat| #[trigger] o.is_vertex(v) implies s.is_vertex(v) by {
            let k = choose|k: int| 0 <= k < o.edge_count() && #[trigger] o.tri(k) == v;
            if k == a {
                assert(s.tri(br) == v);
            } else if k == b {
                assert(s.tri(al) == v);
            } else {
                assert(s.tri(k) == v);
            }
        }
    }

    /// A flip keeps every boundary half-edge recorded for its start point,
    /// but those from `p0`; from `p0`, only the one moved from `prev(a)` to
    /// `b` can be new.
    #[verifier::spinoff_prover]
    #[verifier::rlimit(100)]
    proof fn lemma_flip_boundary<T: Scalar>(
        o: &Self,
        oh: &Hull<T, I>,
        s: &Self,
        sh: &Hull<T, I>,
        n: nat,
        a: int,
        b: int,
        ring: Seq<nat>,
    )
        requires
            Self::flippable(o, n, a, b),
            Self::flipped(o, s, a, b),
            o.boundary_recorded(oh, Some(o.tri(spec_prev_halfedge(a)))),
            forall|u: int|
                0 <= u < n && u != o.tri(spec_prev_halfedge(a)) && (#[trigger] oh.tri_of(u)) is Some
                    ==> ring.contains(u as nat),
            forall|u: int|
                0 <= u < n ==> #[trigger] sh.tri_of(u) == if ring.contains(u as nat) && oh.tri_of(u)
                    == Some(spec_prev_halfedge(b) as nat) && o.twin(spec_prev_halfedge(b)) is None {
                    Some(a as nat)
                } else {
                    oh.tri_of(u)
                },
        ensures
            s.boundary_recorded(sh, Some(o.tri(spec_prev_halfedge(a)))),
            forall|f: int|
                0 <= f < s.edge_count() && (#[trigger] s.twin(f)) is None && s.tri(f) == o.tri(
                    spec_prev_halfedge(a),
                ) ==> f == b || (o.twin(f) is None && o.tri(f) == o.tri(spec_prev_halfedge(a)) && f
                    != spec_prev_halfedge(a)),
    {
        let ar = spec_prev_halfedge(a);
        let bl = spec_prev_halfedge(b);
        let p0 = o.tri(ar);
        Self::lemma_flip_setup(o, n, a, b);
        o.lemma_mesh_len(n);
        assert forall|f: int|
            0 <= f < s.edge_count() && (#[trigger] s.twin(f)) is None implies Some(s.tri(f)) == Some(p0)
            || sh.tri_of(s.tri(f) as int) == Some(f as nat) by {
            o.lemma_mesh_at(n, f);
            if f == a {
                assert(o.twin(bl) is None);
                let p1 = o.tri(bl);
                o.lemma_mesh_at(n, bl);
                assert(oh.tri_of(p1 as int) == Some(bl as nat));
                assert(ring.contains(p1));
            } else if f == b {
            } else {
                assert(f != ar && f != bl);
                assert(o.twin(f) is None);
                assert(s.tri(f) == o.tri(f));
                if o.tri(f) != p0 {
                    assert(oh.tri_of(o.tri(f) as int) == Some(f as nat));
                }
            }
        }
        assert forall|f: int|
            0 <= f < s.edge_count() && (#[trigger] s.twin(f)) is None && s.tri(f) == p0 implies f == b
            || (o.twin(f) is None && o.tri(f) == p0 && f != ar) by {
            if f == a {
                assert(s.tri(a) == o.tri(bl));
            } else if f != b {
                assert(f != ar && f != bl);
            }
        }
    }

    /// Flips the diagonal `a`/`b` of two adjacent triangles, moving the hull's
    /// record of a boundary half-edge that moves from `prev(b)` to `a`.
    #[verifier::spinoff_prover]
    #[verifier::rlimit(100)]
    fn flip<T: Scalar>(
        &mut self,
        a: usize,
        b: usize,
        hull: &mut Hull<T, I>,
        Ghost(ring): Ghost<Seq<nat>>,
        Ghost(live): Ghost<Set<nat>>,
        Ghost(succ): Ghost<Map<nat, nat>>,
        Ghost(n): Ghost<nat>,
    )
        requires
            Self::flippable(old(self), n, a as int, b as int),
            old(hull).prev_ok(ring, n),
            old(self).hull_tri_ok(old(hull), ring, live, succ),
            !ring.contains(old(self).tri(spec_prev_halfedge(a as int))),
        ensures
            Self::flipped(old(self), final(self), a as int, b as int),
            final(self).vertices == old(self).vertices,
            final(self).hull == old(self).hull,
            final(hull).prev == old(hull).prev,
            final(hull).next == old(hull).next,
            final(hull).start == old(hull).start,
            final(hull).hash == old(hull).hash,
            final(hull).center == old(hull).center,
            final(hull).tri@.len() == old(hull).tri@.len(),
            forall|u: int|
                0 <= u < n && !ring.contains(u as nat) ==> #[trigger] final(hull).tri_of(u)
                    == old(hull).tri_of(u),
            forall|u: int|
                0 <= u < n ==> #[trigger] final(hull).tri_of(u) == if ring.contains(u as nat)
                    && old(hull).tri_of(u) == Some(spec_prev_halfedge(b as int) as nat)
                    && old(self).twin(spec_prev_halfedge(b as int)) is None {
                    Some(a as nat)
                } else {
                    old(hull).tri_of(u)
                },
    {
        let ghost o = *self;
        proof {
            Self::lemma_flip_setup(&o, n, a as int, b as int);
            o.lemma_mesh_len(n);
            I::lemma_max_fits();
            lemma_halfedge(a as int);
            lemma_halfedge(b as int);
        }
        let ar = prev_halfedge(a);
        let bl = prev_halfedge(b);
        let p0 = self.triangles[ar];
        let p1 = self.triangles[bl];
        self.triangles.set(a, p1);
        self.triangles.set(b, p0);

        let hbl = self.halfedges[bl];
        let har = self.halfedges[ar];

        // edge swapped on the other side of the hull (rare); fix the halfedge reference
        if hbl.is_none() {
            proof {
                assert forall|j: int, k: int|
                    0 <= j < ring.len() && 0 <= k < ring.len() && hull.tri_of(ring[j] as int)
                        == Some(bl as nat) && hull.tri_of(ring[k] as int) == Some(
                        bl as nat,
                    ) implies j == k by {
                    assert(live.contains(ring[j]));
                    assert(live.contains(ring[k]));
                    assert(o.tri(bl as int) == ring[j]);
                    assert(o.tri(bl as int) == ring[k]);
                }
            }
            hull.swap_halfedge(I::from_usize(bl), I::from_usize(a), Ghost(ring), Ghost(n));
        } else {
            proof {
                assert forall|u: int|
                    0 <= u < n && ring.contains(u as nat) implies #[trigger] hull.tri_of(u) != Some(
                    bl as nat,
                ) by {
                    let j = choose|j: int| 0 <= j < ring.len() && ring[j] == u;
                    if live.contains(ring[j]) {
                    }
                }
            }
        }
        proof {
            hbl.lemma_below_max();
            har.lemma_below_max();
        }
        self.halfedges.set(a, hbl);
        self.halfedges.set(b, har);
        self.halfedges.set(ar, OptionIndex::some(I::from_usize(bl)));
        if let Some(hbl) = hbl.to_option() {
            self.halfedges.set(hbl, OptionIndex::some(I::from_usize(a)));
        }
        if let Some(har) = har.to_option() {
            self.halfedges.set(har, OptionIndex::some(I::from_usize(b)));
        }
        self.halfedges.set(bl, OptionIndex::some(I::from_usize(ar)));
    }

    /// Restores the Delaunay condition across half-edge `a` by flipping it
    /// and the edges it uncovers, and returns the half-edge that replaces
    /// `prev(a)`, which starts at the same point.
    #[verifier::spinoff_prover]
    #[verifier::rlimit(100)]
    fn legalize<T: Scalar, P: HasPosition<T>>(
        &mut self,
        a: usize,
        points: &[P],
        hull: &mut Hull<T, I>,
        Ghost(ring): Ghost<Seq<nat>>,
        Ghost(live): Ghost<Set<nat>>,
        Ghost(succ): Ghost<Map<nat, nat>>,
    ) -> (r: usize)
        requires
            old(self).mesh_ok(points@.len() as nat),
            a < old(self).edge_count(),
            old(hull).prev_ok(ring, points@.len() as nat),
            old(self).hull_tri_ok(old(hull), ring, live, succ),
            !ring.contains(old(self).tri(spec_prev_halfedge(a as int))),
            old(self).boundary_recorded(old(hull), Some(old(self).tri(spec_prev_halfedge(a as int)))),
            forall|u: int|
                0 <= u < points@.len() && u != old(self).tri(spec_prev_halfedge(a as int)) && (
                #[trigger] old(hull).tri_of(u)) is Some ==> ring.contains(u as nat),
        ensures
            final(self).mesh_ok(points@.len() as nat),
            final(self).edge_count() == old(self).edge_count(),
            final(self).boundary_recorded(final(hull), Some(old(self).tri(spec_prev_halfedge(a as int)))),
            old(self).twin(spec_prev_halfedge(a as int)) is Some ==> forall|f: int|
                0 <= f < old(self).edge_count() && (#[trigger] final(self).twin(f)) is None && final(self).tri(f) == old(self).tri(spec_prev_halfedge(a as int)) ==> old(self).twin(f) is None
                    && old(self).tri(f) == final(self).tri(f),
            (old(self).twin(spec_prev_halfedge(a as int)) is None && forall|f: int|
                0 <= f < old(self).edge_count() && (#[trigger] old(self).twin(f)) is None && old(self).tri(f) == old(self).tri(spec_prev_halfedge(a as int)) ==> f == spec_prev_halfedge(
                    a as int,
                )) ==> forall|f: int|
                0 <= f < old(self).edge_count() && (#[trigger] final(self).twin(f)) is None && final(self).tri(f) == old(self).tri(spec_prev_halfedge(a as int)) ==> f == r,
            final(self).vertices == old(self).vertices,
            final(self).hull == old(self).hull,
            final(hull).prev == old(hull).prev,
            final(hull).next == old(hull).next,
            final(hull).start == old(hull).start,
            final(hull).hash == old(hull).hash,
            final(hull).center == old(hull).center,
            final(hull).tri@.len() == old(hull).tri@.len(),
            final(self).hull_tri_ok(final(hull), ring, live, succ),
            forall|u: int|
                0 <= u < points@.len() && !ring.contains(u as nat) ==> #[trigger] final(hull).tri_of(u)
                    == old(hull).tri_of(u),
            r < final(self).edge_count(),
            Self::keeps_vertices(old(self), final(self)),
            !old(self).spec_illegal(a as int, points@) ==> r == spec_prev_halfedge(a as int)
                && *final(self) == *old(self) && *final(hull) == *old(hull),
            old(self).spec_illegal(a as int, points@) ==> final(self).tri(
                old(self).twin(a as int)->0 as int,
            ) == old(self).tri(spec_prev_halfedge(a as int)),
            forall|u: int|
                0 <= u < points@.len() && #[trigger] final(hull).tri_of(u) != old(hull).tri_of(u)
                    ==> live.contains(u as nat) && ring.contains(u as nat),
            final(self).tri(r as int) == old(self).tri(spec_prev_halfedge(a as int)),
            old(self).twin(spec_prev_halfedge(a as int)) is None ==> final(self).twin(r as int) is None
                && final(self).edge_end(r as int) == old(self).edge_end(spec_prev_halfedge(a as int)),
            old(self).twin(spec_prev_halfedge(a as int)) is Some ==> forall|f: int|
                0 <= f < old(self).edge_count() && old(self).twin(f) is None && old(self).tri(f)
                    == old(self).tri(spec_prev_halfedge(a as int)) ==> #[trigger] final(self).twin(f) is None
                    && final(self).tri(f) == old(self).tri(f) && final(self).edge_end(f)
                    == old(self).edge_end(f),
            forall|t: int|
                0 <= t < old(self).edge_count() / 3 && has_vertex(
                    old(self).triangles@,
                    t,
                    old(self).tri(spec_prev_halfedge(a as int)),
                ) ==> #[trigger] has_vertex(
                    final(self).triangles@,
                    t,
                    old(self).tri(spec_prev_halfedge(a as int)),
                ),
            forall|k: int|
                0 <= k < old(self).edge_count() && old(self).tri(k) == old(self).tri(
                    spec_prev_halfedge(a as int),
                ) ==> #[trigger] final(self).tri(k) == old(self).tri(k),
            forall|k: int|
                0 <= k < old(self).edge_count() && old(self).tri(k) == old(self).tri(
                    spec_prev_halfedge(a as int),
                ) && old(self).twin(k) is Some ==> #[trigger] final(self).twin(k) is Some,
        decreases count_missing(
            old(self).triangles@,
            old(self).tri(spec_prev_halfedge(a as int)),
            old(self).edge_count() / 3,
        ),
    {
        let ghost n = points@.len() as nat;
        let ghost o = *self;
        let ghost oh = *hull;
        let ghost p0g = o.tri(spec_prev_halfedge(a as int));
        let ghost tcount = (o.edge_count() / 3) as nat;
        proof {
            o.lemma_mesh_len(n);
            I::lemma_max_fits();
            lemma_halfedge(a as int);
            o.lemma_mesh_at(n, a as int);
        }
        // if the pair of triangles doesn't satisfy the Delaunay condition
        // (p1 is inside the circumcircle of [p0, pl, pr]), flip them,
        // then do the same check/flip recursively for the new pair of triangles
        //
        //           pl                    pl
        //          /||\                  /  \
        //       al/ || \bl            al/    \a
        //        /  ||  \              /      \
        //       /  a||b  \    flip    /___ar___\
        //     p0\   ||   /p1   =>   p0\---bl---/p1
        //        \  ||  /              \      /
        //       ar\ || /br             b\    /br
        //          \||/                  \  /
        //           pr                    pr
        //
        let ar = prev_halfedge(a);
        let b = match self.halfedges[a].to_option() {
            None => {
                return ar;
            },
            Some(b) => b,
        };
        proof {
            assert(self.twin(b as int) == Some(a as nat));
        }

        let al = next_halfedge(a);
        let bl = prev_halfedge(b);
        proof {
            o.lemma_mesh_at(n, b as int);
            lemma_halfedge(b as int);
            o.lemma_mesh_at(n, ar as int);
            o.lemma_mesh_at(n, al as int);
            o.lemma_mesh_at(n, bl as int);
        }

        let p0 = self.triangles[ar].as_usize();
        let pr = self.triangles[a].as_usize();
        let pl = self.triangles[al].as_usize();
        let p1 = self.triangles[bl].as_usize();

        // a point is never strictly inside a circle through itself, so the
        // test needs no arithmetic when the opposite vertices coincide
        let illegal = p1 != p0 && points[p1].pos().is_in_circle(
            points[p0].pos(),
            points[pr].pos(),
            points[pl].pos(),
        );
        proof {
            assert(illegal == o.spec_illegal(a as int, points@));
        }
        if illegal {
            proof {
                Self::lemma_flip_setup(&o, n, a as int, b as int);
            }
            self.flip(a, b, hull, Ghost(ring), Ghost(live), Ghost(succ), Ghost(n));
            let br = next_halfedge(b);
            proof {
                Self::lemma_flip(&o, self, n, a as int, b as int);
                Self::lemma_flip_boundary(&o, &oh, self, hull, n, a as int, b as int, ring);
                assert(spec_prev_halfedge(br as int) == b);
                assert forall|j: int| 0 <= j < ring.len() implies if live.contains(#[trigger] ring[j]) {
                    self.hull_edge(hull.tri_of(ring[j] as int), ring[j], succ[ring[j]])
                } else {
                    hull.tri_of(ring[j] as int) is None
                } by {
                    assert(ring[j] < n);
                    if live.contains(ring[j]) {
                        let f = oh.tri_of(ring[j] as int)->0 as int;
                        assert(o.tri(f) == ring[j]);
                        assert(f != ar);
                        if f != bl {
                            assert(self.twin(f) is None);
                        }
                    }
                }
                lemma_count_missing(o.triangles@, self.triangles@, p0g, tcount, b as int / 3);
            }
            let ghost mid = *self;
            let ghost midh = *hull;
            proof {
                assert forall|u: int|
                    0 <= u < points@.len() && #[trigger] midh.tri_of(u) != oh.tri_of(u) implies live.contains(
                    u as nat,
                ) && ring.contains(u as nat) by {
                    let c = choose|c: int| 0 <= c < ring.len() && ring[c] == u;
                    if !live.contains(u as nat) {
                        assert(oh.tri_of(ring[c] as int) is None);
                    }
                }
                assert forall|u: int|
                    0 <= u < points@.len() && u != p0g && (#[trigger] midh.tri_of(u)) is Some implies ring.contains(
                    u as nat,
                ) by {
                    if midh.tri_of(u) == oh.tri_of(u) {
                        assert(oh.tri_of(u) is Some);
                    }
                }
            }
            self.legalize(a, points, hull, Ghost(ring), Ghost(live), Ghost(succ));
            let ghost midh2 = *hull;
            proof {
                lemma_count_missing(mid.triangles@, self.triangles@, p0g, tcount, -1);
                assert forall|u: int|
                    0 <= u < points@.len() && u != p0g && (#[trigger] midh2.tri_of(u)) is Some implies ring.contains(
                    u as nat,
                ) by {
                    if midh2.tri_of(u) == midh.tri_of(u) {
                        assert(midh.tri_of(u) is Some);
                    }
                }
            }
            let ghost mid2 = *self;
            let r = self.legalize(br, points, hull, Ghost(ring), Ghost(live), Ghost(succ));
            proof {
                assert forall|u: int|
                    0 <= u < points@.len() && #[trigger] hull.tri_of(u) != oh.tri_of(u) implies live.contains(
                    u as nat,
                ) by {
                    if hull.tri_of(u) != midh2.tri_of(u) {
                    } else if midh2.tri_of(u) != midh.tri_of(u) {
                    } else {
                        assert(midh.tri_of(u) != oh.tri_of(u));
                    }
                }
                assert forall|v: nat| #[trigger] o.is_vertex(v) implies self.is_vertex(v) by {
                    assert(mid.is_vertex(v));
                    assert(mid2.is_vertex(v));
                }
                assert(mid.twin(b as int) == o.twin(ar as int));
                assert(mid.tri(b as int) == p0g);
                assert(mid2.tri(b as int) == p0g);
                if o.twin(ar as int) is Some {
                    assert(mid2.twin(b as int) is Some);
                    assert forall|f: int|
                        0 <= f < o.edge_count() && (#[trigger] self.twin(f)) is None && self.tri(f) == p0g implies o.twin(
                        f,
                    ) is None && o.tri(f) == self.tri(f) by {
                        assert(mid2.twin(f) is None && mid2.tri(f) == p0g);
                        assert(mid.twin(f) is None && mid.tri(f) == p0g);
                    }
                } else {
                    assert(mid2.twin(b as int) is None);
                    if forall|f: int|
                        0 <= f < o.edge_count() && (#[trigger] o.twin(f)) is None && o.tri(f) == p0g ==> f
                            == ar {
                        assert forall|f: int|
                            0 <= f < o.edge_count() && (#[trigger] mid2.twin(f)) is None && mid2.tri(f)
                                == p0g implies f == b by {
                            assert(mid.twin(f) is None && mid.tri(f) == p0g);
                        }
                    }
                }
                assert forall|t: int|
                    0 <= t < tcount && has_vertex(o.triangles@, t, p0g) implies #[trigger] has_vertex(
                    self.triangles@,
                    t,
                    p0g,
                ) by {
                    assert(has_vertex(mid.triangles@, t, p0g));
                    assert(has_vertex(mid2.triangles@, t, p0g));
                }
                assert forall|k: int|
                    0 <= k < o.edge_count() && o.tri(k) == p0g implies #[trigger] self.tri(k) == o.tri(
                    k,
                ) by {
                    assert(mid.tri(k) == p0g);
                    assert(mid2.tri(k) == p0g);
                }
                assert forall|k: int|
                    0 <= k < o.edge_count() && o.tri(k) == p0g && o.twin(k) is Some implies #[trigger] self.twin(
                    k,
                ) is Some by {
                    assert(mid.tri(k) == p0g);
                    assert(mid.twin(k) is Some);
                    assert(mid2.tri(k) == p0g);
                    assert(mid2.twin(k) is Some);
                }
                if o.twin(ar as int) is Some {
                    assert(mid.twin(b as int) is Some);
                    assert(mid2.twin(b as int) is Some);
                    assert forall|f: int|
                        0 <= f < o.edge_count() && o.twin(f) is None && o.tri(f) == p0g implies #[trigger] self.twin(
                        f,
                    ) is None && self.tri(f) == o.tri(f) && self.edge_end(f) == o.edge_end(f) by {
                        assert(f != bl);
                        assert(mid.twin(f) is None && mid.tri(f) == p0g);
                        assert(mid2.twin(f) is None && mid2.tri(f) == p0g);
                    }
                }
            }
            return r;
        }
        ar
    }

    /// From the hull vertex `n` after the new point `i`, adds a triangle on
    /// each hull edge that `i` sees going forward, and returns the first
    /// hull vertex after them. The walk stops short of the vertex `e`
    /// before `i`, so the hull keeps at least three vertices.
    #[verifier::spinoff_prover]
    #[verifier::rlimit(100)]
    fn walk_forward<T: Scalar, P: HasPosition<T>>(
        &mut self,
        hull: &mut Hull<T, I>,
        i: usize,
        e: usize,
        n: usize,
        points: &[P],
        Ghost(ring): Ghost<Seq<nat>>,
        Ghost(s2): Ghost<Seq<nat>>,
        Ghost(total): Ghost<nat>,
    ) -> (r: (usize, Ghost<int>))
        requires
            old(self).fan_ok(old(hull), ring, s2, i as nat, 0, 0, total, points@.len() as nat, true),
            e == s2[0],
            n == s2[1],
        ensures
            final(self).fan_ok(
                final(hull),
                ring,
                s2,
                i as nat,
                r.1@,
                0,
                total,
                points@.len() as nat,
                true,
            ),
            r.0 == s2[1 + r.1@],
            final(hull).prev == old(hull).prev,
            final(hull).start == old(hull).start,
            final(hull).hash == old(hull).hash,
            final(hull).center == old(hull).center,
            Self::keeps_vertices(old(self), final(self)),
            final(self).vertices == old(self).vertices,
            final(self).hull == old(self).hull,
    {
        let ghost npts = points@.len() as nat;
        let ghost h = ring.len() as int;
        proof {
            lemma_fan_fwd_pre(self, hull, ring, s2, i as nat, 0, total, npts);
            I::lemma_max_fits();
        }
        let p = points[i].pos();
        let mut n = n;
        let ghost mut f: int = 0;
        loop
            invariant
                self.fan_ok(hull, ring, s2, i as nat, f, 0, total, npts, true),
                npts == points@.len(),
                h == ring.len(),
                e == s2[0],
                n == s2[1 + f],
                p == points@[i as int].spec_pos(),
                hull.prev == old(hull).prev,
                hull.start == old(hull).start,
                hull.hash == old(hull).hash,
                hull.center == old(hull).center,
                Self::keeps_vertices(old(self), self),
                self.vertices == old(self).vertices,
                self.hull == old(self).hull,
            decreases h - f,
        {
            proof {
                lemma_fan_fwd_pre(self, hull, ring, s2, i as nat, f, total, npts);
                I::lemma_max_fits();
                self.lemma_mesh_len(npts);
            }
            let q = hull.next[n].unwrap();
            if q == e {
                break ;
            }
            if !p.is_clockwise(points[n].pos(), points[q].pos()) {
                break ;
            }
            let ghost o = *self;
            let ghost oh = *hull;
            let ti = hull.tri[i];
            let tn = hull.tri[n];
            let t = self.add_triangle(n, i, q, ti, OptionIndex::none(), tn, Ghost(npts));
            hull.next.set(n, OptionIndex::none());  // mark as removed
            hull.tri.set(n, OptionIndex::none());
            proof {
                assert(Triangulation::appended(
                    &o,
                    self,
                    t as nat,
                    n as nat,
                    i as nat,
                    q as nat,
                    ti@,
                    None,
                    tn@,
                ));
                lemma_fan_fwd_add(&o, &oh, self, hull, ring, s2, i as nat, f, total, npts, t as nat);
                lemma_fan_live(self, hull, ring, s2, i as nat, f + 1, 0, total, npts, false);
            }
            let ghost m = *self;
            let ghost mh = *hull;
            let ghost v2 = vring(s2, i as nat, f + 1, 0);
            let r = self.legalize(
                t + 2,
                points,
                hull,
                Ghost(ring),
                Ghost(vlive(v2, i as nat)),
                Ghost(vsucc(v2)),
            );
            proof {
                lemma_fan_legalized(&m, &mh, self, hull, ring, s2, i as nat, f + 1, 0, total, npts, false);
                assert forall|v: nat| #[trigger] old(self).is_vertex(v) implies self.is_vertex(v) by {
                    assert(o.is_vertex(v));
                    assert(m.is_vertex(v));
                }
                self.lemma_mesh_len(npts);
                assert(forall|g: int|
                    0 <= g < m.edge_count() && (#[trigger] m.twin(g)) is None && m.tri(g) == m.tri(
                        spec_prev_halfedge(t + 2int),
                    ) ==> g == spec_prev_halfedge(t + 2int));
            }
            let ghost sh = *hull;
            hull.tri.set(i, OptionIndex::some(I::from_usize(r)));
            proof {
                lemma_fan_set_i(self, &sh, hull, ring, s2, i as nat, f + 1, 0, total, npts, r as nat);
                f = f + 1;
            }
            n = q;
        }
        (n, Ghost(f))
    }

    /// From the hull vertex `e` before the new point `i`, adds a triangle on
    /// each hull edge that `i` sees going backward, and returns the last
    /// hull vertex before them. The walk stops short of the vertex `n` after
    /// `i`, so the hull keeps at least three vertices.
    #[verifier::spinoff_prover]
    #[verifier::rlimit(100)]
    fn walk_backward<T: Scalar, P: HasPosition<T>>(
        &mut self,
        hull: &mut Hull<T, I>,
        i: usize,
        e: usize,
        n: usize,
        points: &[P],
        Ghost(ring): Ghost<Seq<nat>>,
        Ghost(s2): Ghost<Seq<nat>>,
        Ghost(f): Ghost<int>,
        Ghost(total): Ghost<nat>,
    ) -> (r: (usize, Ghost<int>))
        requires
            old(self).fan_ok(old(hull), ring, s2, i as nat, f, 0, total, points@.len() as nat, true),
            e == s2[ring.len() as int],
            n == s2[1 + f],
        ensures
            final(self).fan_ok(
                final(hull),
                ring,
                s2,
                i as nat,
                f,
                r.1@,
                total,
                points@.len() as nat,
                true,
            ),
            r.0 == s2[ring.len() - r.1@],
            final(hull).prev == old(hull).prev,
            final(hull).start == old(hull).start,
            final(hull).hash == old(hull).hash,
            final(hull).center == old(hull).center,
            Self::keeps_vertices(old(self), final(self)),
            final(self).vertices == old(self).vertices,
            final(self).hull == old(self).hull,
    {
        let ghost npts = points@.len() as nat;
        let ghost h = ring.len() as int;
        proof {
            lemma_fan_bwd_pre(self, hull, ring, s2, i as nat, f, 0, total, npts);
            I::lemma_max_fits();
        }
        let p = points[i].pos();
        let mut e = e;
        let ghost mut b: int = 0;
        loop
            invariant
                self.fan_ok(hull, ring, s2, i as nat, f, b, total, npts, true),
                npts == points@.len(),
                h == ring.len(),
                0 <= b < h,
                e == s2[h - b],
                n == s2[1 + f],
                p == points@[i as int].spec_pos(),
                hull.prev == old(hull).prev,
                hull.start == old(hull).start,
                hull.hash == old(hull).hash,
                hull.center == old(hull).center,
                Self::keeps_vertices(old(self), self),
                self.vertices == old(self).vertices,
                self.hull == old(self).hull,
            decreases h - b,
        {
            proof {
                lemma_fan_bwd_pre(self, hull, ring, s2, i as nat, f, b, total, npts);
                I::lemma_max_fits();
                self.lemma_mesh_len(npts);
            }
            let q = hull.prev[e].unwrap();
            if q == n {
                break ;
            }
            if !p.is_clockwise(points[q].pos(), points[e].pos()) {
                break ;
            }
            let ghost o = *self;
            let ghost oh = *hull;
            let te = hull.tri[e];
            let tq = hull.tri[q];
            let t = self.add_triangle(q, i, e, OptionIndex::none(), te, tq, Ghost(npts));
            proof {
                self.lemma_mesh_len(npts);
            }
            hull.next.set(e, OptionIndex::none());  // mark as removed
            hull.tri.set(e, OptionIndex::none());
            hull.tri.set(q, OptionIndex::some(I::from_usize(t)));
            proof {
                assert(Triangulation::appended(
                    &o,
                    self,
                    t as nat,
                    q as nat,
                    i as nat,
                    e as nat,
                    None,
                    te@,
                    tq@,
                ));
                lemma_fan_bwd_add(&o, &oh, self, hull, ring, s2, i as nat, f, b, total, npts, t as nat);
                lemma_fan_live(self, hull, ring, s2, i as nat, f, b + 1, total, npts, true);
            }
            let ghost m = *self;
            let ghost mh = *hull;
            let ghost v2 = vring(s2, i as nat, f, b + 1);
            self.legalize(
                t + 2,
                points,
                hull,
                Ghost(ring),
                Ghost(vlive(v2, i as nat)),
                Ghost(vsucc(v2)),
            );
            proof {
                lemma_fan_legalized(&m, &mh, self, hull, ring, s2, i as nat, f, b + 1, total, npts, true);
                assert forall|v: nat| #[trigger] old(self).is_vertex(v) implies self.is_vertex(v) by {
                    assert(o.is_vertex(v));
                    assert(m.is_vertex(v));
                }
                b = b + 1;
            }
            e = q;
        }
        (e, Ghost(b))
    }

    /// Adds the first triangle from the new point `i`, on the hull edge from
    /// `e`, and restores the Delaunay condition around it.
    #[verifier::spinoff_prover]
    #[verifier::rlimit(100)]
    fn fan_first<T: Scalar, P: HasPosition<T>>(
        &mut self,
        hull: &mut Hull<T, I>,
        i: usize,
        e: usize,
        points: &[P],
        Ghost(ring): Ghost<Seq<nat>>,
        Ghost(je): Ghost<int>,
    ) -> (n: usize)
        requires
            old(self).state_ok(old(hull), ring, points@.len() as nat),
            i < points@.len(),
            !ring.contains(i as nat),
            0 <= je < ring.len(),
            ring[je] == e,
            3 * (old(self).edge_count() / 3 + ring.len() + 2) < I::spec_max(),
        ensures
            final(self).fan_ok(
                final(hull),
                ring,
                rotate(ring, je).push(ring[je]),
                i as nat,
                0,
                0,
                (old(self).edge_count() / 3 + ring.len() + 2) as nat,
                points@.len() as nat,
                true,
            ),
            n == rotate(ring, je).push(ring[je])[1],
            e == rotate(ring, je).push(ring[je])[0],
            final(hull).prev == old(hull).prev,
            final(hull).start == old(hull).start,
            final(hull).hash == old(hull).hash,
            final(hull).center == old(hull).center,
            Self::keeps_vertices(old(self), final(self)),
            final(self).is_vertex(i as nat),
            final(self).vertices == old(self).vertices,
            final(self).hull == old(self).hull,
    {
        let ghost npts = points@.len() as nat;
        let ghost h = ring.len() as int;
        let ghost total = (self.edge_count() / 3 + ring.len() + 2) as nat;
        let ghost s2 = rotate(ring, je).push(ring[je]);
        proof {
            reveal(Triangulation::state_ok);
            self.lemma_mesh_len(npts);
            I::lemma_max_fits();
            assert(hull.nxt(ring[je] as int) == Some(ring_succ(ring, je)));
            assert(ring_succ(ring, je) < npts);
            assert(ring_succ(ring, je) != e) by {
                if je + 1 < h {
                    assert(ring[je + 1] != ring[je]);
                } else {
                    assert(ring[0] != ring[je]);
                }
            }
            assert(ring.contains(ring_succ(ring, je))) by {
                if je + 1 < h {
                    assert(ring[je + 1] == ring_succ(ring, je));
                } else {
                    assert(ring[0] == ring_succ(ring, je));
                }
            }
            assert(self.hull_edge(hull.tri_of(e as int), e as nat, ring_succ(ring, je)));
        }
        let n0 = hull.next[e].unwrap();
        let ghost o = *self;
        let ghost oh = *hull;
        let te = hull.tri[e];
        let t = self.add_triangle(e, i, n0, OptionIndex::none(), OptionIndex::none(), te, Ghost(npts));
        proof {
            self.lemma_mesh_len(npts);
        }
        // keep track of boundary triangles on the hull
        hull.tri.set(e, OptionIndex::some(I::from_usize(t)));
        proof {
            assert(Triangulation::appended(
                &o,
                self,
                t as nat,
                e as nat,
                i as nat,
                n0 as nat,
                None,
                None,
                te@,
            ));
            lemma_fan_start(&o, &oh, self, hull, ring, je, i as nat, total, npts, t as nat);
            lemma_fan_live(self, hull, ring, s2, i as nat, 0, 0, total, npts, false);
        }
        // recursively flip triangles from the point until they satisfy the Delaunay condition
        let ghost m = *self;
        let ghost mh = *hull;
        let ghost v0 = vring(s2, i as nat, 0, 0);
        let r = self.legalize(
            t + 2,
            points,
            hull,
            Ghost(ring),
            Ghost(vlive(v0, i as nat)),
            Ghost(vsucc(v0)),
        );
        proof {
            lemma_fan_legalized(&m, &mh, self, hull, ring, s2, i as nat, 0, 0, total, npts, false);
            assert(m.is_vertex(i as nat));
            assert forall|v: nat| #[trigger] old(self).is_vertex(v) implies self.is_vertex(v) by {
                assert(o.is_vertex(v));
                assert(m.is_vertex(v));
            }
            self.lemma_mesh_len(npts);
            assert(forall|g: int|
                0 <= g < m.edge_count() && (#[trigger] m.twin(g)) is None && m.tri(g) == m.tri(
                    spec_prev_halfedge(t + 2int),
                ) ==> g == spec_prev_halfedge(t + 2int));
        }
        let ghost sh = *hull;
        hull.tri.set(i, OptionIndex::some(I::from_usize(r)));
        proof {
            lemma_fan_set_i(self, &sh, hull, ring, s2, i as nat, 0, 0, total, npts, r as nat);
        }
        n0
    }

    /// Links the new point `i` into the hull between `e` and `n`, and
    /// records the two new hull edges in the angular hash.
    #[verifier::spinoff_prover]
    #[verifier::rlimit(100)]
    fn splice<T: Scalar, P: HasPosition<T>>(
        &self,
        hull: &mut Hull<T, I>,
        i: usize,
        e: usize,
        n: usize,
        points: &[P],
        Ghost(ring): Ghost<Seq<nat>>,
        Ghost(s2): Ghost<Seq<nat>>,
        Ghost(f): Ghost<int>,
        Ghost(b): Ghost<int>,
        Ghost(total): Ghost<nat>,
    )
        requires
            self.fan_ok(old(hull), ring, s2, i as nat, f, b, total, points@.len() as nat, true),
            old(hull).hash_ok(ring, points@.len() as nat),
            e == s2[ring.len() - b],
            n == s2[1 + f],
        ensures
            self.state_ok(final(hull), vring(s2, i as nat, f, b), points@.len() as nat),
            final(hull).center == old(hull).center,
            final(hull).hash@.len() == old(hull).hash@.len(),
            self.edge_count() / 3 + vring(s2, i as nat, f, b).len() == total,
            vring(s2, i as nat, f, b).contains(i as nat),
            vring(s2, i as nat, f, b).len() <= ring.len() + 1,
            forall|u: nat| #[trigger] vring(s2, i as nat, f, b).contains(u) ==> u == i || ring.contains(u),
    {
        let ghost npts = points@.len() as nat;
        let len = points.len();
        proof {
            lemma_fan_bwd_pre(self, hull, ring, s2, i as nat, f, b, total, npts);
            reveal(Triangulation::fan_ok);
            lemma_vring(ring, s2, i as nat, f, b, npts);
            assert(e < len && n < len && i < len);
        }
        let ghost oh2 = *hull;
        hull.prev.set(i, OptionIndex::some(e));
        hull.next.set(i, OptionIndex::some(n));
        hull.prev.set(n, OptionIndex::some(i));
        hull.next.set(e, OptionIndex::some(i));
        hull.start = e;
        proof {
            assert forall|u: int| 0 <= u < npts implies #[trigger] hull.prv(u) == if u == i {
                Some(s2[ring.len() - b])
            } else if u == s2[1 + f] {
                Some(i as nat)
            } else {
                oh2.prv(u)
            } by {}
            assert forall|u: int| 0 <= u < npts implies #[trigger] hull.nxt(u) == if u == i {
                Some(s2[1 + f])
            } else if u == s2[ring.len() - b] {
                Some(i as nat)
            } else {
                oh2.nxt(u)
            } by {}
            lemma_fan_finish(self, &oh2, hull, ring, s2, i as nat, f, b, total, npts);
        }
        let ghost v = vring(s2, i as nat, f, b);

        // save the two new edges in the hash table
        let ghost oh3 = *hull;
        let pi = points[i].pos();
        let ghost k1 = crate::hull::spec_hash_key(hull.hash@.len(), hull.center, pi);
        hull.hash_edge(pi, i);
        let pe = points[e].pos();
        let ghost key = crate::hull::spec_hash_key(hull.hash@.len(), hull.center, pe);
        hull.hash_edge(pe, e);
        proof {
            assert forall|k: int|
                0 <= k < hull.hash@.len() && (#[trigger] hull.hash@[k])@ is Some implies hull.hash@[k]@->0
                < npts by {
                if k != key && k != k1 {
                    assert(hull.hash@[k] == oh3.hash@[k]);
                    assert(oh3.hash@[k] == oh2.hash@[k]);
                }
            }
            assert(0 <= key < hull.hash@.len() && hull.hash@[key as int]@ is Some && v.contains(
                hull.hash@[key as int]@->0,
            ));
            assert forall|u: int| 0 <= u < npts implies #[trigger] hull.nxt(u) == oh3.nxt(u)
                && hull.prv(u) == oh3.prv(u) && hull.tri_of(u) == oh3.tri_of(u) by {}
            assert(hull.ring_ok(v, npts));
            assert(self.ring_tri_ok(hull, v));
            assert(self.boundary_recorded(hull, None)) by {
                assert forall|g: int|
                    0 <= g < self.edge_count() && (#[trigger] self.twin(g)) is None implies Some(
                    self.tri(g),
                ) == (None::<nat>) || hull.tri_of(self.tri(g) as int) == Some(g as nat) by {
                    self.lemma_mesh_at(npts, g);
                    assert(oh3.tri_of(self.tri(g) as int) == Some(g as nat));
                }
            }
            assert forall|u: int| 0 <= u < npts && (#[trigger] hull.tri_of(u)) is Some implies v.contains(
                u as nat,
            ) by {
                assert(oh3.tri_of(u) is Some);
            }
            reveal(Triangulation::state_ok);
        }
    }

    /// Adds point `i`, outside the hull `ring`, given a hull vertex `e`
    /// whose edge it sees: fans triangles from `i` over the hull edges it
    /// sees, restoring the Delaunay condition after each, and splices `i`
    /// into the hull. Returns the new hull.
    #[verifier::spinoff_prover]
    #[verifier::rlimit(100)]
    fn add_point<T: Scalar, P: HasPosition<T>>(
        &mut self,
        hull: &mut Hull<T, I>,
        i: usize,
        e: usize,
        walk_back: bool,
        points: &[P],
        Ghost(ring): Ghost<Seq<nat>>,
    ) -> (new_ring: Ghost<Seq<nat>>)
        requires
            old(self).state_ok(old(hull), ring, points@.len() as nat),
            i < points@.len(),
            !ring.contains(i as nat),
            ring.contains(e as nat),
            3 * (old(self).edge_count() / 3 + ring.len() + 2) < I::spec_max(),
        ensures
            final(self).state_ok(final(hull), new_ring@, points@.len() as nat),
            final(self).edge_count() / 3 + new_ring@.len() == old(self).edge_count() / 3 + ring.len()
                + 2,
            new_ring@.contains(i as nat),
            new_ring@.len() <= ring.len() + 1,
            forall|u: nat| #[trigger] new_ring@.contains(u) ==> u == i || ring.contains(u),
            final(hull).center == old(hull).center,
            final(hull).hash@.len() == old(hull).hash@.len(),
            Self::keeps_vertices(old(self), final(self)),
            final(self).is_vertex(i as nat),
            final(self).vertices == old(self).vertices,
            final(self).hull == old(self).hull,
    {
        let ghost npts = points@.len() as nat;
        let ghost total = (self.edge_count() / 3 + ring.len() + 2) as nat;
        let ghost je = choose|j: int| 0 <= j < ring.len() && ring[j] == e;
        let ghost s2 = rotate(ring, je).push(ring[je]);
        let ghost oh = *hull;
        proof {
            reveal(Triangulation::state_ok);
        }

        // add the first triangle from the point
        let n0 = self.fan_first(hull, i, e, points, Ghost(ring), Ghost(je));
        let ghost after_first = *self;

        // walk forward through the hull, adding more triangles and flipping recursively
        let (n, Ghost(f)) = self.walk_forward(
            hull,
            i,
            e,
            n0,
            points,
            Ghost(ring),
            Ghost(s2),
            Ghost(total),
        );

        let ghost after_forward = *self;
        // walk backward from the other side, adding more triangles and flipping
        let ghost mut b: int = 0;
        let mut e = e;
        proof {
            reveal(Triangulation::fan_ok);
        }
        if walk_back {
            let (e2, Ghost(b2)) = self.walk_backward(
                hull,
                i,
                e,
                n,
                points,
                Ghost(ring),
                Ghost(s2),
                Ghost(f),
                Ghost(total),
            );
            e = e2;
            proof {
                b = b2;
            }
        }
        proof {
            assert(hull.hash == oh.hash);
            assert(hull.center == oh.center);
            assert(hull.hash_ok(ring, npts));
        }
        self.splice(hull, i, e, n, points, Ghost(ring), Ghost(s2), Ghost(f), Ghost(b), Ghost(total));
        proof {
            assert forall|v: nat| #[trigger] old(self).is_vertex(v) implies self.is_vertex(v) by {
                assert(after_first.is_vertex(v));
                assert(after_forward.is_vertex(v));
            }
            assert(after_forward.is_vertex(i as nat));
        }
        Ghost(vring(s2, i as nat, f, b))
    }

    /// Triangulates a set of 2D points. Returns `None` if no triangulation
    /// exists for the input (fewer than three distinct points, or all of
    /// them collinear).
    pub fn new<T: Scalar + ApproxEq, P: HasPosition<T>>(points: &[P]) -> (r: Option<Self>)
        requires
            6 * points@.len() <= I::spec_max(),
        ensures
            r is None <==> spec_seed_triangle(positions(points@)) is None,
            r matches Some(t) ==> t.valid(points@.len() as nat) && t.spec_len() <= 2
                * points@.len() - 5 && forall|i: int|
                0 <= i < points@.len() ==> #[trigger] t.covers(points@, i as nat),
    {
        let seed = find_seed_triangle(points);
        match seed {
            None => None,
            Some(seed_triangle) => Some(Triangulation::with_seed_triangle(points, seed_triangle)),
        }
    }

    /// Triangulates a set of 2D points from the given seed triangle, three
    /// distinct points that do not turn clockwise.
    #[verifier::spinoff_prover]
    #[verifier::rlimit(100)]
    pub fn with_seed_triangle<T: Scalar + ApproxEq, P: HasPosition<T>>(
        points: &[P],
        seed_triangle: (usize, usize, usize),
    ) -> (r: Self)
        requires
            6 * points@.len() <= I::spec_max(),
            seed_triangle.0 < points@.len(),
            seed_triangle.1 < points@.len(),
            seed_triangle.2 < points@.len(),
            seed_triangle.0 != seed_triangle.1,
            seed_triangle.1 != seed_triangle.2,
            seed_triangle.0 != seed_triangle.2,
        ensures
            r.valid(points@.len() as nat),
            r.spec_len() <= 2 * points@.len() - 5,
            forall|i: int| 0 <= i < points@.len() ==> #[trigger] r.covers(points@, i as nat),
    {
        let n = points.len();
        let ghost npts = n as nat;
        let (i0, i1, i2) = seed_triangle;
        proof {
            I::lemma_max_fits();
        }
        let center = points[i0].pos().circumcenter(points[i1].pos(), points[i2].pos());

        let mut triangulation = Triangulation::<I>::allocate(n);
        proof {
            reveal(Triangulation::mesh_ok);
        }
        triangulation.add_triangle(
            i0,
            i1,
            i2,
            OptionIndex::none(),
            OptionIndex::none(),
            OptionIndex::none(),
            Ghost(npts),
        );

        // sort the points by distance from the seed triangle circumcenter
        let mut dists: Vec<T> = Vec::with_capacity(n);
        let mut k: usize = 0;
        while k < n
            invariant
                k <= n,
                n == points@.len(),
                dists@.len() == k,
            decreases n - k,
        {
            dists.push(center.distance_squared(points[k].pos()));
            k += 1;
        }
        let order = sort_by_distance(&dists);

        let mut hull = Hull::<T, I>::new(n, center, i0, i1, i2, points);
        let ghost mut ring = seq![i0 as nat, i1 as nat, i2 as nat];
        let ghost mut inserted: Set<int> = set![i0 as int, i1 as int, i2 as int];
        proof {
            lemma_halfedge(0);
            lemma_halfedge(1);
            lemma_halfedge(2);
            assert(triangulation.ring_tri_ok(&hull, ring)) by {
                assert forall|j: int| 0 <= j < ring.len() implies triangulation.hull_edge(
                    hull.tri_of(#[trigger] ring[j] as int),
                    ring[j],
                    ring_succ(ring, j),
                ) by {
                    if j == 0 {
                        assert(spec_next_halfedge(0) == 1);
                    } else if j == 1 {
                        assert(spec_next_halfedge(1) == 2);
                    } else {
                        assert(spec_next_halfedge(2) == 0);
                    }
                }
            }
            assert(triangulation.state_ok(&hull, ring, npts)) by {
                reveal(Triangulation::state_ok);
            }
            assert(inserted =~= set![i0 as int].insert(i1 as int).insert(i2 as int));
            assert(inserted.len() == 3);
        }

        let mut k: usize = 0;
        while k < n
            invariant
                n == points@.len(),
                npts == n,
                6 * n <= I::spec_max(),
                I::spec_max() <= usize::MAX,
                k <= n,
                order@.len() == n,
                order@.no_duplicates(),
                forall|k2: int| 0 <= k2 < n ==> #[trigger] order@[k2] < n,
                i0 < n && i1 < n && i2 < n,
                triangulation.state_ok(&hull, ring, npts),
                triangulation.edge_count() >= 3,
                inserted.finite(),
                inserted.contains(i0 as int) && inserted.contains(i1 as int) && inserted.contains(
                    i2 as int,
                ),
                forall|x: int| #[trigger] inserted.contains(x) ==> 0 <= x < n,
                forall|u: nat| #[trigger] ring.contains(u) ==> inserted.contains(u as int),
                forall|k2: int|
                    k <= k2 < n && order@[k2] != i0 && order@[k2] != i1 && order@[k2] != i2
                        ==> !inserted.contains(#[trigger] order@[k2] as int),
                triangulation.edge_count() / 3 + ring.len() + 2 == 2 * inserted.len(),
                triangulation.is_vertex(i0 as nat) && triangulation.is_vertex(i1 as nat)
                    && triangulation.is_vertex(i2 as nat),
                forall|k2: int| 0 <= k2 < k ==> #[trigger] triangulation.covers(points@, order@[k2] as nat),
                forall|i: usize| i < n ==> #[trigger] order@.contains(i),
            decreases n - k,
        {
            let i = order[k];
            let p = points[i].pos();

            // skip near-duplicates
            if k > 0 && p.nearly_equals(points[order[k - 1]].pos()) {
                proof {
                    let j = order@[k - 1] as int;
                    assert(j != i);
                    assert(points@[i as int].spec_pos().spec_nearly_equals(points@[j].spec_pos()));
                    assert(triangulation.covers(points@, i as nat));
                }
                k += 1;
                continue ;
            }
            // skip seed triangle points
            if i == i0 || i == i1 || i == i2 {
                proof {
                    assert(triangulation.covers(points@, i as nat));
                }
                k += 1;
                continue ;
            }
            proof {
                assert(!inserted.contains(i as int));
                assert(!ring.contains(i as nat));
                vstd::set_lib::lemma_int_range(0, n as int);
                vstd::set_lib::lemma_len_subset(
                    inserted.insert(i as int),
                    vstd::set_lib::set_int_range(0, n as int),
                );
                assert(hull.ring_ok(ring, npts) && hull.hash_ok(ring, npts)) by {
                    reveal(Triangulation::state_ok);
                }
            }

            // find a visible edge on the convex hull using edge hash
            let (e, walk_back) = hull.find_visible_edge(p, points, Ghost(ring));
            let e = match e {
                None => {
                    // likely a near-duplicate point; skip it
                    proof {
                        lemma_state_parts(&triangulation, &hull, ring, npts);
                        assert forall|j: int| 0 <= j < ring.len() implies triangulation.is_vertex(
                            #[trigger] ring[j],
                        ) && !sees(points@[i as int].spec_pos(), points@, ring[j], ring_succ(ring, j)) by {
                            assert(triangulation.hull_edge(
                                hull.tri_of(ring[j] as int),
                                ring[j],
                                ring_succ(ring, j),
                            ));
                            let f = hull.tri_of(ring[j] as int)->0 as int;
                            assert(triangulation.tri(f) == ring[j]);
                        }
                        assert(triangulation.unseen_by(points@, i as nat));
                    }
                    k += 1;
                    continue ;
                },
                Some(e) => e,
            };
            let ghost old_ring = ring;
            let ghost before_add = triangulation;
            let Ghost(new_ring) = triangulation.add_point(
                &mut hull,
                i,
                e,
                walk_back,
                points,
                Ghost(ring),
            );
            proof {
                ring = new_ring;
                inserted = inserted.insert(i as int);
                assert forall|k2: int|
                    k + 1 <= k2 < n && order@[k2] != i0 && order@[k2] != i1 && order@[k2] != i2
                        implies !inserted.contains(#[trigger] order@[k2] as int) by {
                    assert(order@[k2] != order@[k as int]);
                }
                assert forall|k2: int| 0 <= k2 < k + 1 implies #[trigger] triangulation.covers(
                    points@,
                    order@[k2] as nat,
                ) by {
                    if k2 < k {
                        lemma_covers_kept(&before_add, &triangulation, points@, order@[k2] as nat);
                    }
                }
                assert(before_add.is_vertex(i0 as nat));
            }
            k += 1;
        }
        proof {
            vstd::set_lib::lemma_int_range(0, n as int);
            vstd::set_lib::lemma_len_subset(inserted, vstd::set_lib::set_int_range(0, n as int));
            assert(ring.len() >= 3) by {
                reveal(Triangulation::state_ok);
            }
        }
        let r = triangulation.finish(&hull, Ghost(ring), n);
        proof {
            assert forall|i: int| 0 <= i < points@.len() implies #[trigger] r.covers(points@, i as nat) by {
                assert(order@.contains(i as usize));
                let k2 = choose|k2: int| 0 <= k2 < n && order@[k2] == i as usize;
                assert(triangulation.covers(points@, order@[k2] as nat));
                lemma_covers_kept(&triangulation, &r, points@, i as nat);
            }
        }
        r
    }

    /// The result of a triangulation in progress: its arrays, the hull
    /// `ring` as a vector, and the first half-edge of each point.
    #[verifier::spinoff_prover]
    #[verifier::rlimit(100)]
    fn finish<T: Scalar>(self, hull: &Hull<T, I>, Ghost(ring): Ghost<Seq<nat>>, n: usize) -> (r: Self)
        requires
            self.state_ok(hull, ring, n as nat),
            self.triangles@.len() >= 3,
        ensures
            r.valid(n as nat),
            r.spec_len() == self.spec_len(),
            Self::keeps_vertices(&self, &r),
    {
        let ghost npts = n as nat;
        let ghost before = self;
        let mut triangulation = self;
        proof {
            reveal(Triangulation::state_ok);
            triangulation.lemma_mesh_len(npts);
        }
        // expose hull as a vector of point indices
        let hull_points = collect_hull(&hull, Ghost(ring), Ghost(npts));

        shrink(&mut triangulation.triangles);
        shrink(&mut triangulation.halfedges);

        proof {
            assert forall|k: int| 0 <= k < triangulation.triangles@.len() implies (
            #[trigger] triangulation.triangles@[k]).to_nat() < n by {
                before.lemma_mesh_at(npts, k);
                assert(before.tri(k) == triangulation.triangles@[k].to_nat());
            }
        }
        let vertices = first_edges(&triangulation.triangles, n);
        let r = Triangulation {
            vertices,
            triangles: triangulation.triangles,
            halfedges: triangulation.halfedges,
            hull: hull_points,
        };
        proof {
            let tr = before;
            assert(r.mesh_ok(npts)) by {
                reveal(Triangulation::mesh_ok);
                assert forall|k: int| 0 <= k < r.edge_count() implies #[trigger] r.tri(k) < npts
                    && r.tri(k) != r.edge_end(k) by {
                    assert(r.tri(k) == tr.tri(k));
                    assert(r.edge_end(k) == tr.edge_end(k));
                    tr.lemma_mesh_at(npts, k);
                }
                assert forall|k: int|
                    0 <= k < r.edge_count() && (#[trigger] r.twin(k)) is Some implies {
                    let j = r.twin(k)->0 as int;
                    &&& j < r.edge_count()
                    &&& r.twin(j) == Some(k as nat)
                    &&& r.tri(j) == r.edge_end(k)
                    &&& r.edge_end(j) == r.tri(k)
                } by {
                    assert(r.twin(k) == tr.twin(k));
                    tr.lemma_mesh_at(npts, k);
                    let j = r.twin(k)->0 as int;
                    assert(r.twin(j) == tr.twin(j));
                    assert(r.tri(j) == tr.tri(j));
                    assert(r.edge_end(j) == tr.edge_end(j));
                    assert(r.edge_end(k) == tr.edge_end(k));
                }
            }
            assert forall|j: int|
                0 <= j < r.hull@.len() implies r.has_boundary_edge(
                #[trigger] r.hull_at(j),
                r.hull_at(
                    if j + 1 < r.hull@.len() {
                        j + 1
                    } else {
                        0
                    },
                ),
            ) by {
                assert(tr.hull_edge(hull.tri_of(ring[j] as int), ring[j], ring_succ(ring, j)));
                let f = hull.tri_of(ring[j] as int)->0 as int;
                assert(r.tri(f) == tr.tri(f));
                assert(r.twin(f) == tr.twin(f));
                assert(r.edge_end(f) == tr.edge_end(f));
            }
            assert forall|f: int|
                0 <= f < r.edge_count() && (#[trigger] r.twin(f)) is None implies r.on_hull(f) by {
                assert(tr.twin(f) is None);
                tr.lemma_mesh_at(npts, f);
                assert(hull.tri_of(tr.tri(f) as int) == Some(f as nat));
                assert(ring.contains(tr.tri(f)));
                let j = choose|j: int| 0 <= j < ring.len() && ring[j] == tr.tri(f);
                assert(tr.hull_edge(hull.tri_of(ring[j] as int), ring[j], ring_succ(ring, j)));
                assert(r.hull_at(j) == r.tri(f));
                assert(r.edge_end(f) == tr.edge_end(f));
            }
            assert forall|v: nat| #[trigger] tr.is_vertex(v) implies r.is_vertex(v) by {
                let k = choose|k: int| 0 <= k < tr.edge_count() && #[trigger] tr.tri(k) == v;
                assert(r.tri(k) == v);
            }
            assert forall|j1: int, j2: int|
                0 <= j1 < j2 < r.hull@.len() implies r.hull_at(j1) != r.hull_at(j2) by {
                assert(ring.no_duplicates());
            }
            assert forall|j: int| 0 <= j < r.hull@.len() implies #[trigger] r.hull_at(j) < npts by {
                assert(ring[j] < npts);
            }
        }
        r
    }

    /// The number of triangles in the triangulation.
    pub fn len(&self) -> (r: usize)
        ensures
            r == self.spec_len(),
    {
        self.triangles.len() / 3
    }

    /// Whether the triangulation has no triangle.
    pub fn is_empty(&self) -> (r: bool)
        ensures
            r == (self.spec_len() == 0),
    {
        self.len() == 0
    }

    /// An iterator over the triangles.
    pub fn triangles(&self) -> (r: TriangleIter<'_, I>)
        ensures
            r.mesh() == *self,
            r.front() == 0,
            r.back() == self.edge_count(),
    {
        TriangleIter::range(self, 0, self.triangles.len())
    }

    /// An iterator over the half-edges.
    pub fn half_edges(&self) -> (r: HalfEdgeIter<'_, I>)
        ensures
            r.mesh() == *self,
            r.front() == 0,
            r.back() == self.halfedges@.len(),
    {
        HalfEdgeIter::range(self, 0, self.halfedges.len())
    }

    /// An iterator over the vertices, one for each point.
    pub fn vertices(&self) -> (r: VertexIter<'_, I>)
        ensures
            r.mesh() == *self,
            r.front() == 0,
            r.back() == self.vertices@.len(),
    {
        VertexIter::range(self, 0, self.vertices.len())
    }

    /// The vertex of point `id`, reached by its first half-edge; `None` when
    /// `id` is not a point of the triangulation.
    pub fn get_vertex(&self, id: usize) -> (r: Option<Vertex<'_, I>>)
        ensures
            r is Some <==> id < self.vertices@.len(),
            r matches Some(v) ==> v.mesh() == *self && v.edge() == self.vertices@[id as int].to_nat(),
    {
        if id < self.vertices.len() {
            Some(Vertex::at(self, self.vertices[id].as_usize()))
        } else {
            None
        }
    }

    /// Triangle `id`; `None` past the last triangle.
    pub fn get_triangle(&self, id: usize) -> (r: Option<Triangle<'_, I>>)
        ensures
            r is Some <==> 3 * id < self.triangles@.len(),
            r matches Some(t) ==> t.mesh() == *self && t.edge() == 3 * id,
    {
        let len = self.triangles.len();
        // past `usize::MAX / 3`, `3 * id` exceeds any length
        if id <= usize::MAX / 3 && 3 * id < len {
            Some(Triangle::at(self, 3 * id))
        } else {
            None
        }
    }

    /// Half-edge `id`; `None` past the last half-edge.
    pub fn get_half_edge(&self, id: usize) -> (r: Option<HalfEdge<'_, I>>)
        ensures
            r is Some <==> id < self.halfedges@.len(),
            r matches Some(h) ==> h.mesh() == *self && h.edge() == id,
    {
        if id < self.halfedges.len() {
            Some(HalfEdge::at(self, id))
        } else {
            None
        }
    }

    /// A valid triangulation's arrays index each other, so its triangles,
    /// half-edges and vertices can be walked.
    pub proof fn lemma_valid_indices(&self, n: nat)
        requires
            self.valid(n),
        ensures
            self.indices_ok(),
    {
        self.lemma_mesh_len(n);
        I::lemma_max_fits();
        assert forall|k: int|
            0 <= k < self.edge_count() && (#[trigger] self.twin(k)) is Some implies self.twin(k)->0
            < self.edge_count() by {
            self.lemma_mesh_at(n, k);
        }
    }

    fn allocate(n: usize) -> (r: Self)
        requires
            3 <= n,
            6 * n <= usize::MAX,
        ensures
            r.vertices@.len() == 0,
            r.triangles@.len() == 0,
            r.halfedges@.len() == 0,
            r.hull@.len() == 0,
    {
        let max_triangles = 2 * n - 5;
        Triangulation {
            vertices: Vec::new(),
            triangles: Vec::with_capacity(max_triangles * 3),
            halfedges: Vec::with_capacity(max_triangles * 3),
            hull: Vec::new(),
        }
    }

    /// Appends triangle `(i0, i1, i2)`, linking its edges to the boundary
    /// half-edges `a`, `b` and `c` across them, and returns its first
    /// half-edge.
    #[verifier::spinoff_prover]
    #[verifier::rlimit(100)]
    fn add_triangle(
        &mut self,
        i0: usize,
        i1: usize,
        i2: usize,
        a: OptionIndex<I>,
        b: OptionIndex<I>,
        c: OptionIndex<I>,
        Ghost(n): Ghost<nat>,
    ) -> (t: usize)
        requires
            old(self).triangles@.len() == old(self).halfedges@.len(),
            old(self).edge_count() + 3 < I::spec_max(),
            i0 <= I::spec_max() && i1 <= I::spec_max() && i2 <= I::spec_max(),
            a@ matches Some(x) ==> x < old(self).edge_count(),
            b@ matches Some(x) ==> x < old(self).edge_count(),
            c@ matches Some(x) ==> x < old(self).edge_count(),
        ensures
            Self::linkable(old(self), n, i0 as nat, i1 as nat, i2 as nat, a@, b@, c@) ==> final(self).mesh_ok(n),
            t == old(self).edge_count(),
            final(self).edge_count() == t + 3,
            final(self).halfedges@.len() == t + 3,
            final(self).vertices == old(self).vertices,
            final(self).hull == old(self).hull,
            final(self).tri(t as int) == i0,
            final(self).tri(t + 1) == i1,
            final(self).tri(t + 2) == i2,
            final(self).twin(t as int) == a@,
            final(self).twin(t + 1) == b@,
            final(self).twin(t + 2) == c@,
            Self::keeps_vertices(old(self), final(self)),
            final(self).is_vertex(i0 as nat),
            final(self).is_vertex(i1 as nat),
            final(self).is_vertex(i2 as nat),
            forall|k: int| 0 <= k < t ==> #[trigger] final(self).tri(k) == old(self).tri(k),
            forall|k: int|
                0 <= k < t ==> #[trigger] final(self).twin(k) == if c@ == Some(k as nat) {
                    Some((t + 2) as nat)
                } else if b@ == Some(k as nat) {
                    Some((t + 1) as nat)
                } else if a@ == Some(k as nat) {
                    Some(t as nat)
                } else {
                    old(self).twin(k)
                },
            Self::linkable(old(self), n, i0 as nat, i1 as nat, i2 as nat, a@, b@, c@) ==> forall|k: int|
                0 <= k < t ==> #[trigger] final(self).twin(k) == if a@ == Some(k as nat) {
                    Some(t as nat)
                } else if b@ == Some(k as nat) {
                    Some((t + 1) as nat)
                } else if c@ == Some(k as nat) {
                    Some((t + 2) as nat)
                } else {
                    old(self).twin(k)
                },
    {
        let t = self.triangles.len();
        proof {
            I::lemma_max_fits();
            a.lemma_below_max();
        }

        self.triangles.push(I::from_usize(i0));
        self.triangles.push(I::from_usize(i1));
        self.triangles.push(I::from_usize(i2));

        self.halfedges.push(a);
        self.halfedges.push(b);
        self.halfedges.push(c);

        if let Some(a) = a.to_option() {
            self.halfedges.set(a, OptionIndex::some(I::from_usize(t)));
        }
        if let Some(b) = b.to_option() {
            self.halfedges.set(b, OptionIndex::some(I::from_usize(t + 1)));
        }
        if let Some(c) = c.to_option() {
            self.halfedges.set(c, OptionIndex::some(I::from_usize(t + 2)));
        }
        proof {
            let o = old(self);
            assert forall|k: int| 0 <= k < t implies #[trigger] self.twin(k) == if c@ == Some(
                k as nat,
            ) {
                Some((t + 2) as nat)
            } else if b@ == Some(k as nat) {
                Some((t + 1) as nat)
            } else if a@ == Some(k as nat) {
                Some(t as nat)
            } else {
                o.twin(k)
            } by {}
            if Self::linkable(o, n, i0 as nat, i1 as nat, i2 as nat, a@, b@, c@) {
                assert forall|k: int| 0 <= k < t implies #[trigger] self.twin(k) == if a@ == Some(
                    k as nat,
                ) {
                    Some(t as nat)
                } else if b@ == Some(k as nat) {
                    Some((t + 1) as nat)
                } else if c@ == Some(k as nat) {
                    Some((t + 2) as nat)
                } else {
                    o.twin(k)
                } by {
                    if a@ == Some(k as nat) {
                        assert(o.tri(k) == i1);
                    }
                    if b@ == Some(k as nat) {
                        assert(o.tri(k) == i2);
                    }
                }
                Self::lemma_add_triangle(o, self, n, t as nat, i0 as nat, i1 as nat, i2 as nat, a@, b@, c@);
            }
            assert forall|v: nat| #[trigger] o.is_vertex(v) implies self.is_vertex(v) by {
                let k = choose|k: int| 0 <= k < o.edge_count() && #[trigger] o.tri(k) == v;
                assert(self.tri(k) == v);
            }
            assert(self.tri(t as int) == i0);
            assert(self.tri(t + 1) == i1);
            assert(self.tri(t + 2) == i2);
        }
        t
    }
}

} // verus!
