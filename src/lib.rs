//! Verified core of a Monte Carlo path tracer.
//!
//! Floating-point geometry stays with the caller; this crate holds the
//! decisions around it: ordering of box corners, construction and traversal
//! of the bounding volume hierarchy, the closest-hit scan of a surface list,
//! the bounce budget of the integrator and the text form of the image.
pub mod aabb;
pub mod bvh;
pub mod hittable_list;
pub mod image;
pub mod integrator;
pub mod nearest;
pub mod order;
mod rng;
