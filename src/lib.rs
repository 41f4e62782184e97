//! Bounding volume hierarchies for a GPU path tracer, built on the CPU with a
//! surface area heuristic and packed into flat arrays for the GPU.
//!
//! Geometry is held in fixed-point integers (`i32` coordinates); the caller
//! scales its positions before handing them over. With integers, centroids,
//! split positions and costs are exact.
//!
//! - `geometry`: points, vertices, per-triangle build records, boxes.
//! - `sah`: sides, boxes and costs of candidate splits.
//! - `bvh`: node layout, split search, the recursive builder.
//! - `tree`: what a valid hierarchy is, and why an accepted split keeps it valid.
//! - `packing`: the flat per-triangle record the GPU reads.
//! - `instances`: one hierarchy per distinct geometry, shared by its instances.
//! - `laws`: properties of every finished build.
//! - `perm`, `stats`, `frame`, `material`: supporting pieces.
pub mod geometry;
pub mod perm;
pub mod sah;
pub mod packing;
pub mod bvh;
pub mod tree;
pub mod stats;
pub mod instances;
pub mod laws;
pub mod frame;
pub mod material;
