//! Scalars, vectors and random draws.

pub mod fixed;
pub mod utility;
pub mod vec3;
