//! A bounding-volume hierarchy over moving point-like agents, with the two
//! traversal queries (nearest and in-radius) and the flocking update that
//! consumes them.
//!
//! All geometry is carried in fixed-point integer coordinates, so every
//! comparison the algorithms make (point containment, distance against a
//! radius, distance against distance) is exact.  A caller that works in
//! floating point picks a scale, rounds once at the boundary, and gets the
//! exact semantics of the scaled integer model.

pub mod aabb;
pub mod boids;
pub mod bvh;
pub mod vec3;
