use crate::point::{konst, Point};
use crate::traits::{HasPosition, Index, Scalar};
use crate::util::OptionIndex;
use vstd::prelude::*;

verus! {

/// The vertex after position `j` of a cyclic sequence.
pub open spec fn ring_succ(ring: Seq<nat>, j: int) -> nat {
    if j + 1 < ring.len() {
        ring[j + 1]
    } else {
        ring[0]
    }
}

/// The vertex before position `j` of a cyclic sequence.
pub open spec fn ring_pred(ring: Seq<nat>, j: int) -> nat {
    if j > 0 {
        ring[j - 1]
    } else {
        ring[ring.len() - 1]
    }
}

/// A value between 0 and 1 which increases monotonically with the angle of
/// `p`, computed without trigonometry: with `k = x / (|x| + |y|)`, it is
/// `(3 - k) / 4` above the x axis and `(1 + k) / 4` elsewhere.
pub open spec fn spec_pseudo_angle<T: Scalar>(p: Point<T>) -> T {
    let k = p.x.spec_div(p.x.spec_abs().spec_add(p.y.spec_abs()));
    if konst::<T>(0).spec_lt(p.y) {
        konst::<T>(3).spec_sub(k).spec_div(konst::<T>(4))
    } else {
        konst::<T>(1).spec_add(k).spec_div(konst::<T>(4))
    }
}

/// The bucket of direction `p - center` in an angular hash of `len` buckets.
pub open spec fn spec_hash_key<T: Scalar>(len: nat, center: Point<T>, p: Point<T>) -> nat {
    (konst::<T>(len as usize).spec_mul(spec_pseudo_angle(p.spec_sub(center))).spec_to_usize()
        % len as usize) as nat
}

fn pseudo_angle<T: Scalar>(p: Point<T>) -> (r: T)
    ensures
        r == spec_pseudo_angle(p),
{
    let k = p.x.div(p.x.abs().add(p.y.abs()));
    if T::from_usize(0).lt(p.y) {
        T::from_usize(3).sub(k).div(T::from_usize(4))
    } else {
        T::from_usize(1).add(k).div(T::from_usize(4))
    }
}

/// The integer square root of `n`.
fn isqrt(n: usize) -> (r: usize)
    requires
        n <= usize::MAX / 4,
    ensures
        r * r <= n < (r + 1) * (r + 1),
{
    let mut r: usize = 0;
    while (r + 1) * (r + 1) <= n
        invariant
            n <= usize::MAX / 4,
            r * r <= n,
            r <= n,
            (r + 1) * (r + 1) <= 4 * n + 1,
        decreases n - r,
    {
        proof {
            assert(r + 1 <= n) by (nonlinear_arith)
                requires
                    (r + 1) * (r + 1) <= n,
            ;
            assert((r + 2) * (r + 2) <= 4 * n + 1) by (nonlinear_arith)
                requires
                    (r + 1) * (r + 1) <= n,
                    r + 1 <= n,
            ;
        }
        r += 1;
    }
    r
}

/// `n` empty slots.
fn empty_slots<J: Index>(n: usize) -> (r: Vec<OptionIndex<J>>)
    ensures
        r@.len() == n,
        forall|i: int| 0 <= i < n ==> (#[trigger] r@[i])@ is None,
{
    let mut v: Vec<OptionIndex<J>> = Vec::with_capacity(n);
    let mut i: usize = 0;
    while i < n
        invariant
            i <= n,
            v@.len() == i,
            forall|k: int| 0 <= k < i ==> (#[trigger] v@[k])@ is None,
        decreases n - i,
    {
        v.push(OptionIndex::none());
        i += 1;
    }
    v
}

/// Whether `p` sees the edge from point `v` to point `w`: `p`, `v`, `w`
/// turn clockwise.
pub open spec fn sees<T: Scalar, P: HasPosition<T>>(p: Point<T>, points: Seq<P>, v: nat, w: nat) -> bool {
    p.spec_is_clockwise(points[v as int].spec_pos(), points[w as int].spec_pos())
}

/// The advancing convex hull: a ring of point indices, doubly linked over a
/// sparse array with one slot per point, with an angular hash for finding a
/// hull edge near a given direction.
pub struct Hull<T: Scalar, I> {
    pub(crate) start: usize,
    /// vertex to previous vertex
    pub(crate) prev: Vec<OptionIndex<usize>>,
    /// vertex to next vertex
    pub(crate) next: Vec<OptionIndex<usize>>,
    /// vertex to its outgoing boundary half-edge
    pub(crate) tri: Vec<OptionIndex<I>>,
    /// angular edge hash
    pub(crate) hash: Vec<OptionIndex<usize>>,
    pub(crate) center: Point<T>,
}

impl<T: Scalar, I: Index> Hull<T, I> {
    pub(crate) open spec fn nxt(&self, v: int) -> Option<nat> {
        self.next@[v]@
    }

    pub(crate) open spec fn prv(&self, v: int) -> Option<nat> {
        self.prev@[v]@
    }

    pub(crate) open spec fn tri_of(&self, v: int) -> Option<nat> {
        self.tri@[v]@
    }

    /// `ring` lists distinct points `< n`, starting at `start`, each linked
    /// by `prev` to the one before it.
    pub(crate) open spec fn prev_ok(&self, ring: Seq<nat>, n: nat) -> bool {
        &&& self.prev@.len() == n
        &&& self.next@.len() == n
        &&& self.tri@.len() == n
        &&& ring.len() >= 3
        &&& ring.no_duplicates()
        &&& ring[0] == self.start
        &&& forall|j: int| 0 <= j < ring.len() ==> #[trigger] ring[j] < n
        &&& forall|j: int|
            0 <= j < ring.len() ==> self.prv(#[trigger] ring[j] as int) == Some(ring_pred(ring, j))
    }

    /// `ring` is the hull: linked both ways, and no other point has a `next`.
    pub(crate) open spec fn ring_ok(&self, ring: Seq<nat>, n: nat) -> bool {
        &&& self.prev_ok(ring, n)
        &&& forall|j: int|
            0 <= j < ring.len() ==> self.nxt(#[trigger] ring[j] as int) == Some(ring_succ(ring, j))
        &&& forall|v: int| 0 <= v < n && (#[trigger] self.nxt(v)) is Some ==> ring.contains(v as nat)
    }

    /// Probing the angular hash from bucket `key`, past the first `j`
    /// buckets tried: the first vertex found that is still on the hull.
    pub(crate) open spec fn probe(&self, key: int, j: int) -> Option<nat>
        decreases self.hash@.len() - j,
    {
        if j < 0 || j >= self.hash@.len() {
            None
        } else {
            let slot = self.hash@[(key + j) % (self.hash@.len() as int)]@;
            if slot is Some && slot->0 < self.next@.len() && self.nxt(slot->0 as int) is Some {
                slot
            } else {
                self.probe(key, j + 1)
            }
        }
    }

    /// The vertex at which the search for an edge visible from `p` starts:
    /// one step back from the vertex that probing `p`'s bucket finds.
    pub(crate) open spec fn walk_start(&self, p: Point<T>) -> Option<nat> {
        match self.probe(spec_hash_key(self.hash@.len(), self.center, p) as int, 0) {
            Some(x) => self.prv(x as int),
            None => None,
        }
    }

    /// The angular hash holds points `< n`, at least one of them on `ring`.
    pub(crate) open spec fn hash_ok(&self, ring: Seq<nat>, n: nat) -> bool {
        &&& self.hash@.len() > 0
        &&& self.hash@.len() <= usize::MAX / 2
        &&& forall|k: int|
            0 <= k < self.hash@.len() && (#[trigger] self.hash@[k])@ is Some ==> self.hash@[k]@->0 < n
        &&& exists|k: int|
            0 <= k < self.hash@.len() && (#[trigger] self.hash@[k])@ is Some && ring.contains(
                self.hash@[k]@->0,
            )
    }

    /// Starts a hull on the seed triangle `i0`, `i1`, `i2`, whose boundary
    /// half-edges are `0`, `1` and `2`.
    pub(crate) fn new<P: HasPosition<T>>(
        n: usize,
        center: Point<T>,
        i0: usize,
        i1: usize,
        i2: usize,
        points: &[P],
    ) -> (r: Self)
        requires
            n <= points@.len(),
            3 <= n <= usize::MAX / 4,
            3 <= I::spec_max(),
            i0 < n && i1 < n && i2 < n,
            i0 != i1 && i1 != i2 && i2 != i0,
        ensures
            r.ring_ok(seq![i0 as nat, i1 as nat, i2 as nat], n as nat),
            r.hash_ok(seq![i0 as nat, i1 as nat, i2 as nat], n as nat),
            r.center == center,
            r.tri_of(i0 as int) == Some(0nat),
            r.tri_of(i1 as int) == Some(1nat),
            r.tri_of(i2 as int) == Some(2nat),
            forall|v: int|
                0 <= v < n && v != i0 && v != i1 && v != i2 ==> (#[trigger] r.tri_of(v)) is None
                    && r.prv(v) is None && r.nxt(v) is None,
            r.hash@.len() * r.hash@.len() <= n < (r.hash@.len() + 1) * (r.hash@.len() + 1),
            forall|k: int|
                0 <= k < r.hash@.len() ==> ((#[trigger] r.hash@[k])@ matches Some(v) ==> (v == i0
                    || v == i1 || v == i2)),
    {
        let hash_len = isqrt(n);
        proof {
            assert(hash_len >= 1) by (nonlinear_arith)
                requires
                    n < (hash_len + 1) * (hash_len + 1),
                    3 <= n,
            ;
            assert(hash_len <= n) by (nonlinear_arith)
                requires
                    hash_len * hash_len <= n,
            ;
            I::lemma_max_fits();
        }
        let mut hull = Hull {
            prev: empty_slots(n),  // vertex to prev vertex
            next: empty_slots(n),  // vertex to next vertex
            tri: empty_slots(n),  // vertex to adjacent halfedge
            hash: empty_slots(hash_len),  // angular edge hash
            start: i0,
            center,
        };

        hull.next.set(i0, OptionIndex::some(i1));
        hull.prev.set(i2, OptionIndex::some(i1));
        hull.next.set(i1, OptionIndex::some(i2));
        hull.prev.set(i0, OptionIndex::some(i2));
        hull.next.set(i2, OptionIndex::some(i0));
        hull.prev.set(i1, OptionIndex::some(i0));

        hull.tri.set(i0, OptionIndex::some(I::from_usize(0)));
        hull.tri.set(i1, OptionIndex::some(I::from_usize(1)));
        hull.tri.set(i2, OptionIndex::some(I::from_usize(2)));

        let ghost ring = seq![i0 as nat, i1 as nat, i2 as nat];
        hull.hash_edge(points[i0].pos(), i0);
        hull.hash_edge(points[i1].pos(), i1);
        let ghost before = hull.hash@;
        let k2 = hull.hash_key(points[i2].pos());
        hull.hash_edge(points[i2].pos(), i2);
        proof {
            assert(ring.no_duplicates()) by {
                assert forall|a: int, b: int| 0 <= a < b < 3 implies ring[a] != ring[b] by {}
            }
            assert forall|k: int|
                0 <= k < hull.hash@.len() && (#[trigger] hull.hash@[k])@ is Some implies hull.hash@[k]@->0
                < n by {}
            assert(ring.contains(i2 as nat)) by {
                assert(ring[2] == i2);
            }
            assert(0 <= k2 < hull.hash@.len() && hull.hash@[k2 as int]@ is Some && ring.contains(
                hull.hash@[k2 as int]@->0,
            ));
            assert forall|v: int|
                0 <= v < n && (#[trigger] hull.nxt(v)) is Some implies ring.contains(v as nat) by {
                if v == i0 {
                    assert(ring[0] == v);
                } else if v == i1 {
                    assert(ring[1] == v);
                } else {
                    assert(ring[2] == v);
                }
            }
        }
        hull
    }

    fn hash_key(&self, p: Point<T>) -> (r: usize)
        requires
            self.hash@.len() > 0,
        ensures
            r < self.hash@.len(),
            r == spec_hash_key(self.hash@.len(), self.center, p),
    {
        let len = self.hash.len();
        T::from_usize(len).mul(pseudo_angle(p.sub(self.center))).to_usize() % len
    }

    /// Records `i` as the hull vertex for the direction of `p`.
    pub(crate) fn hash_edge(&mut self, p: Point<T>, i: usize)
        requires
            old(self).hash@.len() > 0,
            i < usize::MAX,
        ensures
            final(self).hash@ == old(self).hash@.update(
                spec_hash_key(old(self).hash@.len(), old(self).center, p) as int,
                final(self).hash@[spec_hash_key(old(self).hash@.len(), old(self).center, p) as int],
            ),
            final(self).hash@[spec_hash_key(old(self).hash@.len(), old(self).center, p) as int]@
                == Some(i as nat),
            spec_hash_key(old(self).hash@.len(), old(self).center, p) < old(self).hash@.len(),
            final(self).start == old(self).start,
            final(self).prev == old(self).prev,
            final(self).next == old(self).next,
            final(self).tri == old(self).tri,
            final(self).center == old(self).center,
    {
        let key = self.hash_key(p);
        self.hash.set(key, OptionIndex::some(i));
    }

    /// A hull edge `(e, next[e])` that `p` sees (`p`, `e`, `next[e]` turn
    /// clockwise), found from the hash bucket of `p`'s direction: the probe
    /// takes the first bucket from there whose vertex is still on the hull,
    /// steps back once, then walks forward. The flag tells whether the first
    /// edge tried was visible, so that more may be visible behind it. `None`
    /// when the walk comes round without finding one.
    pub(crate) fn find_visible_edge<P: HasPosition<T>>(
        &self,
        p: Point<T>,
        points: &[P],
        Ghost(ring): Ghost<Seq<nat>>,
    ) -> (r: (Option<usize>, bool))
        requires
            self.ring_ok(ring, points@.len() as nat),
            self.hash_ok(ring, points@.len() as nat),
        ensures
            r.0 matches Some(e) ==> ring.contains(e as nat) && self.nxt(e as int) is Some && sees(
                p,
                points@,
                e as nat,
                self.nxt(e as int)->0,
            ),
            r.0 is None ==> !r.1 && forall|j: int|
                0 <= j < ring.len() ==> !sees(p, points@, #[trigger] ring[j], ring_succ(ring, j)),
            r.1 <==> (r.0 is Some && self.walk_start(p) == Some(r.0->0 as nat)),
    {
        let ghost n = points@.len() as nat;
        let key = self.hash_key(p);
        let len = self.hash.len();
        let mut start: usize = 0;
        let mut found = false;
        let mut j: usize = 0;
        while j < len
            invariant_except_break
                !found,
            invariant
                n == points@.len(),
                self.ring_ok(ring, n),
                self.hash_ok(ring, n),
                len == self.hash@.len(),
                key < len,
                j <= len,
                forall|m: int|
                    0 <= m < j ==> !((#[trigger] self.hash@[(key + m) % (len as int)])@ matches Some(
                        x,
                    ) && ring.contains(x)),
                !found ==> self.probe(key as int, 0) == self.probe(key as int, j as int),
            ensures
                found ==> start < n && ring.contains(start as nat) && self.probe(key as int, 0) == Some(
                    start as nat,
                ),
                !found ==> j == len,
            decreases len - j,
        {
            let slot = self.hash[(key + j) % len];
            if let Some(x) = slot.to_option() {
                proof {
                    assert(self.hash@[(key + j) % (len as int)]@ == Some(x as nat));
                }
                if self.next[x].is_some() {
                    proof {
                        assert(x < n);
                        assert(self.nxt(x as int) is Some);
                        assert(self.probe(key as int, j as int) == Some(x as nat));
                    }
                    start = x;
                    found = true;
                    break ;
                }
            }
            proof {
                assert(self.probe(key as int, j as int) == self.probe(key as int, j + 1));
            }
            j += 1;
        }
        if !found {
            proof {
                let k = choose|k: int|
                    0 <= k < self.hash@.len() && (#[trigger] self.hash@[k])@ is Some && ring.contains(
                        self.hash@[k]@->0,
                    );
                let m = (k - key + len) % (len as int);
                assert((key + m) % (len as int) == k) by (nonlinear_arith)
                    requires
                        m == (k - key + len) % (len as int),
                        0 <= k < len,
                        0 <= key < len,
                ;
                assert(false);
            }
            return (None, false);
        }
        let ghost js = choose|i: int| 0 <= i < ring.len() && ring[i] == start;
        let ghost x0 = start;
        let start = self.prev[start].unwrap();
        proof {
            assert(self.walk_start(p) == Some(start as nat));
        }
        let ghost h = ring.len() as int;
        let ghost js = if js > 0 {
            js - 1
        } else {
            h - 1
        };
        let mut e = start;
        let ghost mut je = js;
        let ghost mut c: int = 0;

        while !p.is_clockwise(points[e].pos(), points[self.next[e].unwrap()].pos())
            invariant
                n == points@.len(),
                self.ring_ok(ring, n),
                h == ring.len(),
                0 <= js < h,
                start == ring[js],
                0 <= je < h,
                e == ring[je],
                0 <= c < h,
                c == if je >= js {
                    je - js
                } else {
                    je + h - js
                },
                forall|jj: int|
                    0 <= jj < h && (if jj >= js {
                        jj - js
                    } else {
                        jj + h - js
                    }) < c ==> !sees(p, points@, #[trigger] ring[jj], ring_succ(ring, jj)),
            decreases h - c,
        {
            proof {
                assert(self.nxt(ring[je] as int) == Some(ring_succ(ring, je)));
                assert(!sees(p, points@, ring[je], ring_succ(ring, je)));
            }
            e = self.next[e].unwrap();
            proof {
                je = if je + 1 < h {
                    je + 1
                } else {
                    0
                };
                c = c + 1;
            }
            if e == start {
                proof {
                    assert(je == js) by {
                        assert(ring[je] == ring[js]);
                    }
                    assert forall|jj: int|
                        0 <= jj < h implies !sees(p, points@, #[trigger] ring[jj], ring_succ(ring, jj)) by {
                        assert((if jj >= js {
                            jj - js
                        } else {
                            jj + h - js
                        }) < c);
                    }
                }
                return (None, false);
            }
            proof {
                if c == h {
                    assert(je == js);
                }
            }
        }
        proof {
            assert(ring.contains(e as nat));
            assert(self.nxt(ring[je] as int) == Some(ring_succ(ring, je)));
        }
        (Some(e), e == start)
    }

    /// Replaces the boundary half-edge `from` by `to` for the first hull
    /// vertex that has it, walking the ring backward from `start` once
    /// around: `ring[0]`, then `ring[h - 1]`, `ring[h - 2]`, ...
    pub(crate) fn swap_halfedge(&mut self, from_halfedge: I, to_halfedge: I, Ghost(ring): Ghost<
        Seq<nat>,
    >, Ghost(n): Ghost<nat>)
        requires
            old(self).prev_ok(ring, n),
            to_halfedge.to_nat() < I::spec_max(),
        ensures
            final(self).prev == old(self).prev,
            final(self).next == old(self).next,
            final(self).start == old(self).start,
            final(self).hash == old(self).hash,
            final(self).center == old(self).center,
            final(self).tri@.len() == old(self).tri@.len(),
            (forall|m: int|
                0 <= m < ring.len() ==> old(self).tri_of(#[trigger] ring[m] as int) != Some(
                    from_halfedge.to_nat(),
                )) ==> final(self).tri == old(self).tri,
            !(forall|m: int|
                0 <= m < ring.len() ==> old(self).tri_of(#[trigger] ring[m] as int) != Some(
                    from_halfedge.to_nat(),
                )) ==> exists|j: int|
                0 <= j < ring.len() && old(self).tri_of(#[trigger] ring[j] as int) == Some(
                    from_halfedge.to_nat(),
                ) && (j == 0 || (old(self).tri_of(ring[0] as int) != Some(from_halfedge.to_nat())
                    && forall|m: int|
                    j < m < ring.len() ==> old(self).tri_of(#[trigger] ring[m] as int) != Some(
                        from_halfedge.to_nat(),
                    ))) && forall|u: int|
                    0 <= u < n ==> #[trigger] final(self).tri_of(u) == if u == ring[j] {
                        Some(to_halfedge.to_nat())
                    } else {
                        old(self).tri_of(u)
                    },
            (forall|j: int, k: int|
                0 <= j < ring.len() && 0 <= k < ring.len() && old(self).tri_of(ring[j] as int)
                    == Some(from_halfedge.to_nat()) && old(self).tri_of(ring[k] as int) == Some(
                    from_halfedge.to_nat(),
                ) ==> j == k) ==> forall|v: int|
                0 <= v < n ==> #[trigger] final(self).tri_of(v) == if ring.contains(v as nat)
                    && old(self).tri_of(v) == Some(from_halfedge.to_nat()) {
                    Some(to_halfedge.to_nat())
                } else {
                    old(self).tri_of(v)
                },
    {
        let ghost h = ring.len() as int;
        let ghost mut j: int = 0;
        let ghost mut moved = false;
        let mut v = self.start;
        let from = from_halfedge.as_usize();
        let mut found = false;
        loop
            invariant_except_break
                !found,
                moved ==> j > 0,
            invariant
                self.prev_ok(ring, n),
                self.prev == old(self).prev,
                self.next == old(self).next,
                self.start == old(self).start,
                self.hash == old(self).hash,
                self.center == old(self).center,
                self.tri == old(self).tri,
                from == from_halfedge.to_nat(),
                h == ring.len(),
                0 <= j < h,
                v == ring[j],
                !moved ==> j == 0,
                forall|m: int|
                    0 <= m < h && moved && (m == 0 || j < m) ==> old(self).tri_of(ring[m] as int)
                        != Some(from_halfedge.to_nat()),
            ensures
                0 <= j < h,
                v == ring[j],
                found ==> (j == 0 || (old(self).tri_of(ring[0] as int) != Some(from_halfedge.to_nat())
                    && forall|m: int|
                    j < m < h ==> old(self).tri_of(#[trigger] ring[m] as int) != Some(
                        from_halfedge.to_nat(),
                    ))),
                found ==> self.tri_of(v as int) == Some(from_halfedge.to_nat()),
                !found ==> forall|m: int|
                    0 <= m < h ==> old(self).tri_of(ring[m] as int) != Some(from_halfedge.to_nat()),
            decreases (if !moved {
                h
            } else {
                j
            }),
        {
            let t = self.tri[v].to_option();
            if t == Some(from) {
                found = true;
                break ;
            }
            let pv = self.prev[v].unwrap();
            proof {
                j = if j > 0 {
                    j - 1
                } else {
                    h - 1
                };
                moved = true;
            }
            v = pv;
            if v == self.start {
                proof {
                    assert(j == 0) by {
                        assert(ring[j] == ring[0]);
                    }
                }
                break ;
            }
        }
        if found {
            self.tri.set(v, OptionIndex::some(to_halfedge));
        }
        proof {
            if found {
                assert(old(self).tri_of(ring[j] as int) == Some(from_halfedge.to_nat()));
                assert forall|u: int| 0 <= u < n implies #[trigger] self.tri_of(u) == if u == ring[j] {
                    Some(to_halfedge.to_nat())
                } else {
                    old(self).tri_of(u)
                } by {}
            }
            if forall|j2: int, k: int|
                0 <= j2 < h && 0 <= k < h && old(self).tri_of(ring[j2] as int) == Some(
                    from_halfedge.to_nat(),
                ) && old(self).tri_of(ring[k] as int) == Some(from_halfedge.to_nat()) ==> j2 == k {
                assert forall|u: int| 0 <= u < n implies #[trigger] self.tri_of(u) == if ring.contains(
                    u as nat,
                ) && old(self).tri_of(u) == Some(from_halfedge.to_nat()) {
                    Some(to_halfedge.to_nat())
                } else {
                    old(self).tri_of(u)
                } by {
                    if ring.contains(u as nat) {
                        let k = choose|k: int| 0 <= k < h && ring[k] == u;
                        if found && old(self).tri_of(u) == Some(from_halfedge.to_nat()) {
                            assert(k == j);
                        }
                    }
                }
            }
        }
    }
}

} // verus!
