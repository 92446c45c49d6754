//! Density-based clustering of 2-D points over a Delaunay triangulation.
//!
//! The triangulation of the input points is turned into a reusable geometry
//! structure (per-edge lengths, edge-to-triangle incidence, vertex adjacency,
//! per-triangle area and longest edge), and a single-pass traversal of the
//! adjacency graph then partitions the well-connected vertices into clusters.

pub mod adapter;
pub mod engine;
pub mod geometry;
pub mod maps;
pub mod primitives;

pub use engine::dtscan;
pub use geometry::GeometryData;
pub use geometry::Mode;
pub use geometry::TriangleData;
pub use primitives::Edge;
pub use primitives::Point2D;
