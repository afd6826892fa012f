//! A Monte-Carlo ray tracer over fixed-point arithmetic.
//!
//! The library estimates the light that reaches a camera from a scene of
//! spheres: it casts rays, finds the nearest surface each one hits, lets the
//! surface's material scatter it, and follows the scattered ray for a bounded
//! number of bounces.
//!
//! Numbers are [`fixed::Fixed`]: signed multiples of 2^-32 with arithmetic
//! that clamps and never fails, so that no input makes the library panic.
//! Every function is specified by a spec function over the same values. What is random is drawn through
//! [`fixed::Fixed::random`]. A function that draws has a twin that takes the
//! random choice as an argument and is specified exactly, and states itself
//! that its result is the twin's for some admissible choice.

pub mod accuracy;
pub mod camera;
pub mod compare;
pub mod fixed;
pub mod hit;
pub mod material;
pub mod random;
pub mod ray;
pub mod render;
pub mod sphere;
pub mod vec;
