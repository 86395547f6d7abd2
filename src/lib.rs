//! Verified core of a Monte-Carlo path tracer: the topology of the bounding
//! volume hierarchy and its closest-hit search, the bounce decisions of the
//! light-transport integrator, and the split of the sampling budget across
//! workers. Floating-point geometry and shading live with the caller.

pub mod bvh;
pub mod traverse;
pub mod integrator;
pub mod schedule;
