//! The decision logic of a recursive Monte Carlo ray tracer: the bounce
//! budget of the light-transport estimator, and the bounding volume hierarchy
//! with its search for the closest hit. The geometry itself (vectors, rays,
//! spheres, boxes and materials, all in floating point) is held by the caller
//! and reaches these modules as the answers to yes-or-no questions.
pub mod bvh;
pub mod integrator;
