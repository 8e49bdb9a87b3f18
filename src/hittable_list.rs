//! The scene aggregate under its own module path.
pub use crate::hittable::HittableList;
