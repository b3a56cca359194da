//! An offline ray tracer over fixed-point arithmetic.
//!
//! Geometry is carried in signed 64-bit fixed-point numbers with 16
//! fractional bits, so every arithmetic step has an exact integer
//! specification and the whole pipeline — vectors, rays, sphere
//! intersection, scene search, camera rays, shading and color
//! encoding — is verified against it.

pub mod camera;
pub mod color;
pub mod fixed;
pub mod hittable;
pub mod ray;
pub mod render;
pub mod rng;
pub mod utils;
pub mod vec3;
