//! A path tracer over fixed-point arithmetic: vectors, rays, spheres,
//! materials, a thin-lens camera and a per-pixel sampling driver.
pub mod camera;
pub mod fixed;
pub mod hittable;
pub mod material;
pub mod point;
pub mod random;
pub mod render;
pub mod ray;
pub mod sphere;
pub mod vec3;
