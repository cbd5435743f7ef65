use crate::iter::{TriangleEdgeIter, TriangleVertexIter, VertexEdgeIter, VertexTriangleIter};
use crate::traits::Index;
use crate::triangulation::Triangulation;
use crate::util::{next_halfedge, prev_halfedge, spec_next_halfedge, spec_prev_halfedge};
use vstd::prelude::*;

verus! {

/// One triangle within a [Triangulation].
pub struct Triangle<'a, I> {
    pub(crate) triangulation: &'a Triangulation<I>,
    pub(crate) index: usize,
}

/// One half-edge within a [Triangulation].
#[derive(Clone, Copy)]
pub struct HalfEdge<'a, I> {
    pub(crate) triangulation: &'a Triangulation<I>,
    pub(crate) index: usize,
}

/// One vertex within a [Triangulation], given by a half-edge that starts at
/// it.
#[derive(Clone, Copy)]
pub struct Vertex<'a, I> {
    pub(crate) triangulation: &'a Triangulation<I>,
    pub(crate) index: usize,
}

impl<'a, I: Index> Triangle<'a, I> {
    pub(crate) fn at(triangulation: &'a Triangulation<I>, index: usize) -> (r: Self)
        ensures
            r.mesh() == *triangulation,
            r.edge() == index,
    {
        Triangle { triangulation, index }
    }

    /// The triangulation that the triangle belongs to.
    pub closed spec fn mesh(&self) -> Triangulation<I> {
        *self.triangulation
    }

    /// The triangle's first half-edge.
    pub closed spec fn edge(&self) -> nat {
        self.index as nat
    }

    /// A triangle of a triangulation whose arrays index each other.
    pub open spec fn wf(&self) -> bool {
        &&& self.mesh().indices_ok()
        &&& self.edge() % 3 == 0
        &&& self.edge() + 3 <= self.mesh().edge_count()
    }

    /// A fixed identifier for this triangle which can be used to get it from its [Triangulation].
    pub fn id(&self) -> (r: usize)
        ensures
            r == self.edge() / 3,
    {
        self.index / 3
    }

    /// An iterator over the [HalfEdge]s of this triangle.
    pub fn edges(&self) -> (r: TriangleEdgeIter<'a, I>)
        requires
            self.wf(),
        ensures
            r.mesh() == self.mesh(),
            r.front() == self.edge(),
            r.back() == self.edge() + 3,
    {
        TriangleEdgeIter::range(self.triangulation, self.index, self.index + 3)
    }

    /// An iterator over the [Vertex]es of this triangle.
    pub fn vertices(&self) -> (r: TriangleVertexIter<'a, I>)
        requires
            self.wf(),
        ensures
            r.mesh() == self.mesh(),
            r.front() == self.edge(),
            r.back() == self.edge() + 3,
    {
        TriangleVertexIter::range(self.triangulation, self.index, self.index + 3)
    }

    /// The first [Vertex] of this triangle.
    pub fn a(&self) -> (r: Vertex<'a, I>)
        ensures
            r.mesh() == self.mesh(),
            r.edge() == self.edge(),
    {
        Vertex::at(self.triangulation, self.index)
    }

    /// The second [Vertex] of this triangle.
    pub fn b(&self) -> (r: Vertex<'a, I>)
        requires
            self.wf(),
        ensures
            r.mesh() == self.mesh(),
            r.edge() == self.edge() + 1,
    {
        Vertex::at(self.triangulation, self.index + 1)
    }

    /// The third [Vertex] of this triangle.
    pub fn c(&self) -> (r: Vertex<'a, I>)
        requires
            self.wf(),
        ensures
            r.mesh() == self.mesh(),
            r.edge() == self.edge() + 2,
    {
        Vertex::at(self.triangulation, self.index + 2)
    }

    /// The [HalfEdge] between the first and second vertices of this triangle.
    pub fn ab(&self) -> (r: HalfEdge<'a, I>)
        ensures
            r.mesh() == self.mesh(),
            r.edge() == self.edge(),
    {
        HalfEdge::at(self.triangulation, self.index)
    }

    /// The [HalfEdge] between the second and third vertices of this triangle.
    pub fn bc(&self) -> (r: HalfEdge<'a, I>)
        requires
            self.wf(),
        ensures
            r.mesh() == self.mesh(),
            r.edge() == self.edge() + 1,
    {
        HalfEdge::at(self.triangulation, self.index + 1)
    }

    /// The [HalfEdge] between the third and first vertices of this triangle.
    pub fn ca(&self) -> (r: HalfEdge<'a, I>)
        requires
            self.wf(),
        ensures
            r.mesh() == self.mesh(),
            r.edge() == self.edge() + 2,
    {
        HalfEdge::at(self.triangulation, self.index + 2)
    }
}

impl<'a, I: Index> HalfEdge<'a, I> {
    pub(crate) fn at(triangulation: &'a Triangulation<I>, index: usize) -> (r: Self)
        ensures
            r.mesh() == *triangulation,
            r.edge() == index,
    {
        HalfEdge { triangulation, index }
    }

    /// The triangulation that the half-edge belongs to.
    pub closed spec fn mesh(&self) -> Triangulation<I> {
        *self.triangulation
    }

    /// The half-edge's index.
    pub closed spec fn edge(&self) -> nat {
        self.index as nat
    }

    /// A half-edge of a triangulation whose arrays index each other.
    pub open spec fn wf(&self) -> bool {
        &&& self.mesh().indices_ok()
        &&& self.edge() < self.mesh().edge_count()
    }

    /// A fixed identifier for this half-edge which can be used to get it from its [Triangulation].
    pub fn id(&self) -> (r: usize)
        ensures
            r == self.edge(),
    {
        self.index
    }

    /// The corresponding half-edge in the other direction for the adjacent triangle.
    /// Returns `None` if this half-edge is on the convex hull.
    pub fn twin(&self) -> (r: Option<Self>)
        requires
            self.wf(),
        ensures
            r is None <==> self.mesh().twin(self.edge() as int) is None,
            r matches Some(h) ==> h.mesh() == self.mesh() && Some(h.edge()) == self.mesh().twin(
                self.edge() as int,
            ),
    {
        match self.triangulation.halfedges[self.index].to_option() {
            None => None,
            Some(index) => Some(HalfEdge::at(self.triangulation, index)),
        }
    }

    /// The next (counter-clockwise) half-edge of the [Triangle] to the left of this half-edge.
    pub fn next(&self) -> (r: Self)
        requires
            self.wf(),
        ensures
            r.mesh() == self.mesh(),
            r.edge() == spec_next_halfedge(self.edge() as int),
    {
        let index = next_halfedge(self.index);
        HalfEdge::at(self.triangulation, index)
    }

    /// The previous (clockwise) half-edge of the [Triangle] to the left of this half-edge.
    pub fn prev(&self) -> (r: Self)
        requires
            self.wf(),
        ensures
            r.mesh() == self.mesh(),
            r.edge() == spec_prev_halfedge(self.edge() as int),
    {
        let index = prev_halfedge(self.index);
        HalfEdge::at(self.triangulation, index)
    }

    /// The starting [Vertex] of this half-edge.
    pub fn start(&self) -> (r: Vertex<'a, I>)
        ensures
            r.mesh() == self.mesh(),
            r.edge() == self.edge(),
    {
        Vertex::at(self.triangulation, self.index)
    }

    /// The ending [Vertex] of this half-edge.
    pub fn end(&self) -> (r: Vertex<'a, I>)
        requires
            self.wf(),
        ensures
            r.mesh() == self.mesh(),
            r.edge() == spec_next_halfedge(self.edge() as int),
    {
        let index = next_halfedge(self.index);
        Vertex::at(self.triangulation, index)
    }

    /// The [Triangle] to the left of this half-edge.
    pub fn left(&self) -> (r: Triangle<'a, I>)
        ensures
            r.mesh() == self.mesh(),
            r.edge() == self.edge() - self.edge() % 3,
    {
        Triangle::at(self.triangulation, self.index - self.index % 3)
    }

    /// The [Triangle] to the right of this half-edge or `None` if this half-edge
    /// is on the convex hull.
    pub fn right(&self) -> (r: Option<Triangle<'a, I>>)
        requires
            self.wf(),
        ensures
            r is None <==> self.mesh().twin(self.edge() as int) is None,
            r matches Some(t) ==> t.mesh() == self.mesh() && (self.mesh().twin(self.edge() as int)
                matches Some(j) && t.edge() == j - j % 3),
    {
        match self.triangulation.halfedges[self.index].to_option() {
            None => None,
            Some(j) => Some(Triangle::at(self.triangulation, j - j % 3)),
        }
    }
}

impl<'a, I: Index> Vertex<'a, I> {
    pub(crate) fn at(triangulation: &'a Triangulation<I>, index: usize) -> (r: Self)
        ensures
            r.mesh() == *triangulation,
            r.edge() == index,
    {
        Vertex { triangulation, index }
    }

    /// The triangulation that the vertex belongs to.
    pub closed spec fn mesh(&self) -> Triangulation<I> {
        *self.triangulation
    }

    /// The half-edge by which the vertex is reached.
    pub closed spec fn edge(&self) -> nat {
        self.index as nat
    }

    /// A vertex of a triangulation whose arrays index each other.
    pub open spec fn wf(&self) -> bool {
        &&& self.mesh().indices_ok()
        &&& self.edge() < self.mesh().edge_count()
    }

    /// A fixed identifier for this vertex: the index of its point.
    pub fn id(&self) -> (r: usize)
        requires
            self.wf(),
        ensures
            r == self.mesh().tri(self.edge() as int),
    {
        self.triangulation.triangles[self.index].as_usize()
    }

    /// An iterator over the [HalfEdge]s that start from this vertex.
    pub fn edges(&self) -> (r: VertexEdgeIter<'a, I>)
        ensures
            r.mesh() == self.mesh(),
            r.first() == Some(self.edge()),
            r.current() == Some(self.edge()),
    {
        VertexEdgeIter::around(self.triangulation, self.index)
    }

    /// An iterator over the [Triangle]s that are adjacent to this vertex.
    pub fn triangles(&self) -> (r: VertexTriangleIter<'a, I>)
        ensures
            r.edges().mesh() == self.mesh(),
            r.edges().first() == Some(self.edge()),
            r.edges().current() == Some(self.edge()),
    {
        VertexTriangleIter::over(self.edges())
    }
}

} // verus!
