//! Planar computational geometry on an exact integer grid: 2D convex hull
//! and 2D Delaunay triangulation of a point set, returning indices into the
//! input sequence.

pub mod geo;
pub mod hull;
pub mod tri;
pub mod validate;

pub use geo::GeomError;
pub use geo::Vec2;
pub use hull::convex_hull_2;
pub use tri::Triangle;
pub use tri::delaunay_2;
