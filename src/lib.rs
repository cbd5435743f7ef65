//! Delaunay triangulation of 2D point sets by the sweep-hull method.
//!
//! The combinatorial structure of the result (triangles, half-edge twins and
//! the convex hull) is verified for every arithmetic supplied through
//! [`traits::Scalar`]; the geometric predicates are computed with that
//! arithmetic exactly as written in [`point::Point`].
pub mod elem;
pub mod iter;
pub mod traits;
pub mod util;
pub mod point;

pub use elem::{HalfEdge, Triangle, Vertex};
pub use point::Point;
pub mod hull;
pub mod triangulation;

pub use triangulation::Triangulation;
