use crate::elem::{HalfEdge, Triangle, Vertex};
use crate::traits::Index;
use crate::triangulation::Triangulation;
use crate::util::{next_halfedge, prev_halfedge, spec_next_halfedge, spec_prev_halfedge};
use vstd::prelude::*;

verus! {

/// Iterates over all [HalfEdge]s that start at a [Vertex].
///
/// Order of iteration is undefined (generally counter-clockwise, but will
/// switch to clockwise if the iteration hits the convex hull).
///
/// Note that on the convex hull, one half-edge connected to the vertex does
/// not start at that vertex and therefore will not be visited by this iteration.
#[derive(Clone, Copy)]
pub struct VertexEdgeIter<'a, I> {
    pub(crate) triangulation: &'a Triangulation<I>,
    pub(crate) start: Option<usize>,
    pub(crate) index: Option<usize>,
}

/// Iterates over all [Triangle]s that are adjacent to [Vertex].
///
/// Order of iteration is undefined (generally counter-clockwise, but will
/// switch to clockwise if the iteration hits the convex hull).
#[derive(Clone, Copy)]
pub struct VertexTriangleIter<'a, I> {
    pub(crate) inner: VertexEdgeIter<'a, I>,
}

/// Iterates over the three [HalfEdge]s of a [Triangle].
#[derive(Clone, Copy)]
pub struct TriangleEdgeIter<'a, I> {
    pub(crate) triangulation: &'a Triangulation<I>,
    pub(crate) index: usize,
    pub(crate) end: usize,
}

/// Iterates over the three [Vertex]es of a [Triangle].
#[derive(Clone, Copy)]
pub struct TriangleVertexIter<'a, I> {
    pub(crate) triangulation: &'a Triangulation<I>,
    pub(crate) index: usize,
    pub(crate) end: usize,
}

/// Iterates over the [Triangle]s in a [Triangulation].
#[derive(Clone, Copy)]
pub struct TriangleIter<'a, I> {
    pub(crate) triangulation: &'a Triangulation<I>,
    pub(crate) index: usize,
    pub(crate) end: usize,
}

/// Iterates over the [HalfEdge]s in a [Triangulation].
#[derive(Clone, Copy)]
pub struct HalfEdgeIter<'a, I> {
    pub(crate) triangulation: &'a Triangulation<I>,
    pub(crate) index: usize,
    pub(crate) end: usize,
}

/// Iterates over the [Vertex]es in a [Triangulation].
pub struct VertexIter<'a, I> {
    pub(crate) triangulation: &'a Triangulation<I>,
    pub(crate) index: usize,
    pub(crate) end: usize,
}

impl<'a, I: Index> VertexEdgeIter<'a, I> {
    pub(crate) fn around(triangulation: &'a Triangulation<I>, index: usize) -> (r: Self)
        ensures
            r.mesh() == *triangulation,
            r.first() == Some(index as nat),
            r.current() == Some(index as nat),
    {
        VertexEdgeIter { triangulation, start: Some(index), index: Some(index) }
    }

    pub closed spec fn mesh(&self) -> Triangulation<I> {
        *self.triangulation
    }

    /// The half-edge the iteration started from, until it hits the hull.
    pub closed spec fn first(&self) -> Option<nat> {
        match self.start {
            Some(s) => Some(s as nat),
            None => None,
        }
    }

    /// The half-edge to be returned next, if any.
    pub closed spec fn current(&self) -> Option<nat> {
        match self.index {
            Some(s) => Some(s as nat),
            None => None,
        }
    }

    pub open spec fn wf(&self) -> bool {
        &&& self.mesh().indices_ok()
        &&& self.first() matches Some(s) ==> s < self.mesh().edge_count()
        &&& self.current() matches Some(s) ==> s < self.mesh().edge_count()
    }

    /// Returns the current half-edge and moves on: around the vertex through
    /// the twin of the previous half-edge; at the hull, back to the start
    /// and on in the other direction through the next half-edge of the twin.
    pub fn next(&mut self) -> (r: Option<HalfEdge<'a, I>>)
        requires
            old(self).wf(),
        ensures
            final(self).wf(),
            final(self).mesh() == old(self).mesh(),
            r is None <==> old(self).current() is None,
            r matches Some(h) ==> h.mesh() == old(self).mesh() && Some(h.edge())
                == old(self).current(),
            old(self).current() matches Some(k) ==> {
                let m = old(self).mesh();
                match old(self).first() {
                    None => final(self).first() is None && final(self).current() == match m.twin(k as int) {
                        Some(e) => Some(spec_next_halfedge(e as int) as nat),
                        None => None,
                    },
                    Some(s) => match m.twin(spec_prev_halfedge(k as int)) {
                        None => final(self).first() is None && final(self).current()
                            == match m.twin(s as int) {
                            Some(e) => Some(spec_next_halfedge(e as int) as nat),
                            None => None,
                        },
                        Some(e) => final(self).first() == old(self).first() && final(self).current()
                            == if e == s {
                            None
                        } else {
                            Some(e)
                        },
                    },
                }
            },
    {
        proof {
            crate::util::lemma_halfedge(0);
        }
        match (self.index, self.start) {
            (None, _) => None,
            (Some(index), None) => {
                // We've previously hit the convex hull and are now iterating backwards
                let e = self.triangulation.halfedges[index].to_option();
                self.index = match e {
                    Some(e) => Some(next_halfedge(e)),
                    None => None,
                };
                proof {
                    if let Some(e) = e {
                        crate::util::lemma_halfedge(e as int);
                        assert(spec_next_halfedge(e as int) / 3 == e / 3);
                    }
                }
                Some(HalfEdge::at(self.triangulation, index))
            },
            (Some(index), Some(start)) => {
                proof {
                    crate::util::lemma_halfedge(index as int);
                }
                self.index = match self.triangulation.halfedges[prev_halfedge(index)].to_option() {
                    None => {
                        // We've hit the convex hull, start over from the starting index and iterate backwards
                        let e = self.triangulation.halfedges[start].to_option();
                        self.start = None;
                        match e {
                            Some(e) => {
                                proof {
                                    crate::util::lemma_halfedge(e as int);
                                }
                                Some(next_halfedge(e))
                            },
                            None => None,
                        }
                    },
                    Some(e) => {
                        if e == start {
                            None
                        } else {
                            Some(e)
                        }
                    },
                };
                Some(HalfEdge::at(self.triangulation, index))
            },
        }
    }
}

impl<'a, I: Index> VertexTriangleIter<'a, I> {
    pub(crate) fn over(inner: VertexEdgeIter<'a, I>) -> (r: Self)
        ensures
            r.edges() == inner,
    {
        VertexTriangleIter { inner }
    }

    /// The iteration over the vertex's half-edges that this one follows.
    pub closed spec fn edges(&self) -> VertexEdgeIter<'a, I> {
        self.inner
    }

    /// The triangle to the left of the next half-edge around the vertex.
    pub fn next(&mut self) -> (r: Option<Triangle<'a, I>>)
        requires
            old(self).edges().wf(),
        ensures
            final(self).edges().wf(),
            final(self).edges().mesh() == old(self).edges().mesh(),
            r is None <==> old(self).edges().current() is None,
            r matches Some(t) ==> t.mesh() == old(self).edges().mesh() && (old(self).edges().current()
                matches Some(k) && t.edge() == k - k % 3),
    {
        match self.inner.next() {
            Some(x) => Some(x.left()),
            None => None,
        }
    }
}

impl<'a, I: Index> TriangleEdgeIter<'a, I> {
    pub(crate) fn range(triangulation: &'a Triangulation<I>, index: usize, end: usize) -> (r: Self)
        ensures
            r.mesh() == *triangulation,
            r.front() == index,
            r.back() == end,
    {
        TriangleEdgeIter { triangulation, index, end }
    }

    pub closed spec fn mesh(&self) -> Triangulation<I> {
        *self.triangulation
    }

    /// The next half-edge from the front.
    pub closed spec fn front(&self) -> nat {
        self.index as nat
    }

    /// One past the next half-edge from the back.
    pub closed spec fn back(&self) -> nat {
        self.end as nat
    }

    pub fn next(&mut self) -> (r: Option<HalfEdge<'a, I>>)
        ensures
            final(self).mesh() == old(self).mesh(),
            final(self).back() == old(self).back(),
            old(self).front() < old(self).back() ==> (r matches Some(h) && h.edge() == old(self).front()
                && h.mesh() == old(self).mesh() && final(self).front() == old(self).front() + 1),
            old(self).front() >= old(self).back() ==> r is None && final(self).front() == old(
                self,
            ).front(),
    {
        if self.index < self.end {
            let index = self.index;
            self.index += 1;
            Some(HalfEdge::at(self.triangulation, index))
        } else {
            None
        }
    }

    pub fn next_back(&mut self) -> (r: Option<HalfEdge<'a, I>>)
        ensures
            final(self).mesh() == old(self).mesh(),
            final(self).front() == old(self).front(),
            old(self).front() < old(self).back() ==> (r matches Some(h) && h.edge() == old(self).back()
                - 1 && h.mesh() == old(self).mesh() && final(self).back() == old(self).back() - 1),
            old(self).front() >= old(self).back() ==> r is None && final(self).back() == old(
                self,
            ).back(),
    {
        if self.index < self.end {
            self.end -= 1;
            let index = self.end;
            Some(HalfEdge::at(self.triangulation, index))
        } else {
            None
        }
    }

    /// The number of half-edges left.
    pub fn len(&self) -> (r: usize)
        requires
            self.front() <= self.back(),
        ensures
            r == self.back() - self.front(),
    {
        self.end - self.index
    }
}

impl<'a, I: Index> TriangleVertexIter<'a, I> {
    pub(crate) fn range(triangulation: &'a Triangulation<I>, index: usize, end: usize) -> (r: Self)
        ensures
            r.mesh() == *triangulation,
            r.front() == index,
            r.back() == end,
    {
        TriangleVertexIter { triangulation, index, end }
    }

    pub closed spec fn mesh(&self) -> Triangulation<I> {
        *self.triangulation
    }

    /// The half-edge of the next vertex from the front.
    pub closed spec fn front(&self) -> nat {
        self.index as nat
    }

    /// One past the half-edge of the next vertex from the back.
    pub closed spec fn back(&self) -> nat {
        self.end as nat
    }

    pub fn next(&mut self) -> (r: Option<Vertex<'a, I>>)
        ensures
            final(self).mesh() == old(self).mesh(),
            final(self).back() == old(self).back(),
            old(self).front() < old(self).back() ==> (r matches Some(v) && v.edge() == old(self).front()
                && v.mesh() == old(self).mesh() && final(self).front() == old(self).front() + 1),
            old(self).front() >= old(self).back() ==> r is None && final(self).front() == old(
                self,
            ).front(),
    {
        if self.index < self.end {
            let index = self.index;
            self.index += 1;
            Some(Vertex::at(self.triangulation, index))
        } else {
            None
        }
    }

    pub fn size_hint(&self) -> (r: (usize, Option<usize>))
        requires
            self.front() <= self.back(),
        ensures
            r == (((self.back() - self.front()) as usize, Some((self.back() - self.front()) as usize))),
    {
        let len = self.len();
        (len, Some(len))
    }

    pub fn next_back(&mut self) -> (r: Option<Vertex<'a, I>>)
        ensures
            final(self).mesh() == old(self).mesh(),
            final(self).front() == old(self).front(),
            old(self).front() < old(self).back() ==> (r matches Some(v) && v.edge() == old(self).back()
                - 1 && v.mesh() == old(self).mesh() && final(self).back() == old(self).back() - 1),
            old(self).front() >= old(self).back() ==> r is None && final(self).back() == old(
                self,
            ).back(),
    {
        if self.index < self.end {
            self.end -= 1;
            let index = self.end;
            Some(Vertex::at(self.triangulation, index))
        } else {
            None
        }
    }

    /// The number of vertices left.
    pub fn len(&self) -> (r: usize)
        requires
            self.front() <= self.back(),
        ensures
            r == self.back() - self.front(),
    {
        self.end - self.index
    }
}

impl<'a, I: Index> TriangleIter<'a, I> {
    pub(crate) fn range(triangulation: &'a Triangulation<I>, index: usize, end: usize) -> (r: Self)
        ensures
            r.mesh() == *triangulation,
            r.front() == index,
            r.back() == end,
    {
        TriangleIter { triangulation, index, end }
    }

    pub closed spec fn mesh(&self) -> Triangulation<I> {
        *self.triangulation
    }

    /// The first half-edge of the next triangle from the front.
    pub closed spec fn front(&self) -> nat {
        self.index as nat
    }

    /// One past the last half-edge of the next triangle from the back.
    pub closed spec fn back(&self) -> nat {
        self.end as nat
    }

    /// Whole triangles of the triangulation.
    pub open spec fn wf(&self) -> bool {
        &&& self.front() % 3 == 0
        &&& self.back() % 3 == 0
        &&& self.back() <= self.mesh().edge_count()
        &&& self.mesh().edge_count() < usize::MAX
    }

    pub fn next(&mut self) -> (r: Option<Triangle<'a, I>>)
        requires
            old(self).wf(),
        ensures
            final(self).mesh() == old(self).mesh(),
            final(self).back() == old(self).back(),
            final(self).front() % 3 == 0,
            old(self).front() < old(self).back() ==> (r matches Some(t) && t.edge() == old(self).front()
                && t.mesh() == old(self).mesh() && final(self).front() == old(self).front() + 3),
            old(self).front() >= old(self).back() ==> r is None && final(self).front() == old(
                self,
            ).front(),
    {
        if self.index < self.end {
            let index = self.index;
            self.index += 3;
            Some(Triangle::at(self.triangulation, index))
        } else {
            None
        }
    }

    pub fn size_hint(&self) -> (r: (usize, Option<usize>))
        requires
            self.front() <= self.mesh().edge_count(),
        ensures
            r == ((((self.mesh().edge_count() - self.front()) / 3) as usize, Some(
                ((self.mesh().edge_count() - self.front()) / 3) as usize,
            ))),
    {
        let len = self.len();
        (len, Some(len))
    }

    pub fn next_back(&mut self) -> (r: Option<Triangle<'a, I>>)
        requires
            old(self).wf(),
        ensures
            final(self).mesh() == old(self).mesh(),
            final(self).front() == old(self).front(),
            old(self).front() < old(self).back() ==> (r matches Some(t) && t.edge() == old(self).back()
                - 3 && t.mesh() == old(self).mesh() && final(self).back() == old(self).back() - 3),
            old(self).front() >= old(self).back() ==> r is None && final(self).back() == old(
                self,
            ).back(),
    {
        if self.index < self.end {
            self.end -= 3;
            let index = self.end;
            Some(Triangle::at(self.triangulation, index))
        } else {
            None
        }
    }

    /// The number of triangles from the front to the end of the triangulation.
    pub fn len(&self) -> (r: usize)
        requires
            self.front() <= self.mesh().edge_count(),
        ensures
            r == (self.mesh().edge_count() - self.front()) / 3,
    {
        (self.triangulation.triangles.len() - self.index) / 3
    }
}

impl<'a, I: Index> HalfEdgeIter<'a, I> {
    pub(crate) fn range(triangulation: &'a Triangulation<I>, index: usize, end: usize) -> (r: Self)
        ensures
            r.mesh() == *triangulation,
            r.front() == index,
            r.back() == end,
    {
        HalfEdgeIter { triangulation, index, end }
    }

    pub closed spec fn mesh(&self) -> Triangulation<I> {
        *self.triangulation
    }

    /// The next half-edge from the front.
    pub closed spec fn front(&self) -> nat {
        self.index as nat
    }

    /// One past the next half-edge from the back.
    pub closed spec fn back(&self) -> nat {
        self.end as nat
    }

    pub fn next(&mut self) -> (r: Option<HalfEdge<'a, I>>)
        ensures
            final(self).mesh() == old(self).mesh(),
            final(self).back() == old(self).back(),
            old(self).front() < old(self).back() ==> (r matches Some(h) && h.edge() == old(self).front()
                && h.mesh() == old(self).mesh() && final(self).front() == old(self).front() + 1),
            old(self).front() >= old(self).back() ==> r is None && final(self).front() == old(
                self,
            ).front(),
    {
        if self.index < self.end {
            let index = self.index;
            self.index += 1;
            Some(HalfEdge::at(self.triangulation, index))
        } else {
            None
        }
    }

    pub fn size_hint(&self) -> (r: (usize, Option<usize>))
        requires
            self.front() <= self.back(),
        ensures
            r == (((self.back() - self.front()) as usize, Some((self.back() - self.front()) as usize))),
    {
        let len = self.len();
        (len, Some(len))
    }

    pub fn next_back(&mut self) -> (r: Option<HalfEdge<'a, I>>)
        ensures
            final(self).mesh() == old(self).mesh(),
            final(self).front() == old(self).front(),
            old(self).front() < old(self).back() ==> (r matches Some(h) && h.edge() == old(self).back()
                - 1 && h.mesh() == old(self).mesh() && final(self).back() == old(self).back() - 1),
            old(self).front() >= old(self).back() ==> r is None && final(self).back() == old(
                self,
            ).back(),
    {
        if self.index < self.end {
            self.end -= 1;
            let index = self.end;
            Some(HalfEdge::at(self.triangulation, index))
        } else {
            None
        }
    }

    /// The number of half-edges left.
    pub fn len(&self) -> (r: usize)
        requires
            self.front() <= self.back(),
        ensures
            r == self.back() - self.front(),
    {
        self.end - self.index
    }
}

impl<'a, I: Index> VertexIter<'a, I> {
    pub(crate) fn range(triangulation: &'a Triangulation<I>, index: usize, end: usize) -> (r: Self)
        ensures
            r.mesh() == *triangulation,
            r.front() == index,
            r.back() == end,
    {
        VertexIter { triangulation, index, end }
    }

    pub closed spec fn mesh(&self) -> Triangulation<I> {
        *self.triangulation
    }

    /// The next point from the front.
    pub closed spec fn front(&self) -> nat {
        self.index as nat
    }

    /// One past the next point from the back.
    pub closed spec fn back(&self) -> nat {
        self.end as nat
    }

    pub open spec fn wf(&self) -> bool {
        self.back() <= self.mesh().vertices@.len()
    }

    /// The vertex of the next point, reached by the point's first half-edge.
    pub fn next(&mut self) -> (r: Option<Vertex<'a, I>>)
        requires
            old(self).wf(),
        ensures
            final(self).mesh() == old(self).mesh(),
            final(self).back() == old(self).back(),
            old(self).front() < old(self).back() ==> (r matches Some(v) && v.mesh() == old(self).mesh()
                && v.edge() == old(self).mesh().vertices@[old(self).front() as int].to_nat()
                && final(self).front() == old(self).front() + 1),
            old(self).front() >= old(self).back() ==> r is None && final(self).front() == old(
                self,
            ).front(),
    {
        if self.index < self.end {
            let index = self.triangulation.vertices[self.index].as_usize();
            self.index += 1;
            Some(Vertex::at(self.triangulation, index))
        } else {
            None
        }
    }

    pub fn next_back(&mut self) -> (r: Option<Vertex<'a, I>>)
        requires
            old(self).wf(),
        ensures
            final(self).mesh() == old(self).mesh(),
            final(self).front() == old(self).front(),
            old(self).front() < old(self).back() ==> (r matches Some(v) && v.mesh() == old(self).mesh()
                && v.edge() == old(self).mesh().vertices@[old(self).back() - 1].to_nat()
                && final(self).back() == old(self).back() - 1),
            old(self).front() >= old(self).back() ==> r is None && final(self).back() == old(
                self,
            ).back(),
    {
        if self.index < self.end {
            self.end -= 1;
            let index = self.triangulation.vertices[self.end].as_usize();
            Some(Vertex::at(self.triangulation, index))
        } else {
            None
        }
    }

    /// The number of points left.
    pub fn len(&self) -> (r: usize)
        requires
            self.front() <= self.back(),
        ensures
            r == self.back() - self.front(),
    {
        self.end - self.index
    }
}

} // verus!
