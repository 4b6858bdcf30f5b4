//! Rays, the camera, surfaces and the things rays hit.

pub mod camera;
pub mod hit;
pub mod material;
pub mod ppm;
pub mod ray;
pub mod sphere;
