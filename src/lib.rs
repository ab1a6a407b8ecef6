//! The core of a path tracer on a fixed-point integer lattice: intervals and axis-aligned
//! boxes with an exact slab test, a bounding-volume hierarchy with a pruned nearest-hit
//! search and its flattened export, the depth-bounded integrator, and the adaptive per-pixel
//! sampler.
pub mod interval;
pub mod ray;
pub mod aabb;
pub mod hittable;
pub mod bvh;
pub mod color;
pub mod sampler;
pub mod material;
pub mod integrator;
