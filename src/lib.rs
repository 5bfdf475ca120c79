//! The combinatorial core of a ray tracer: bounding boxes, a bounding-volume
//! hierarchy over primitives, nearest-hit selection, raster assembly and the
//! mesh file grammar. Geometry enters as order keys (see [`key`]); the
//! arithmetic that produces them is left to the caller.
pub mod key;
pub mod color;
pub mod aabb;
pub mod hit;
pub mod bvh;
pub mod raster;
pub mod mesh;
