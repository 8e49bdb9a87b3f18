//! A Monte-Carlo ray tracer over spheres, verified.
//!
//! Numbers are fixed-point integers (see `fixed`): a real `x` is held as
//! `x * ONE` rounded down, so every rule of the tracer (which root a ray meets,
//! which hit is closest, how a material scatters, when the recursion stops,
//! how a pixel is tone-mapped) is stated and proved over exact integers.
//! Randomness comes from an explicit `random::Sampler`.

pub mod camera;
pub mod fixed;
pub mod hittable;
pub mod hittable_list;
pub mod material;
pub mod ppm;
pub mod random;
pub mod ray;
pub mod render;
pub mod sphere;
pub mod vec3;
