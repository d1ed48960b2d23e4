//! The deciding core of a ray tracer.
//!
//! A ray tracer computes with floating-point numbers, and this library does
//! not: it takes the numbers that were computed elsewhere, by their bit
//! patterns, and decides by them. Whether a ray hits a sphere or a plane
//! (`geometry`), which of the primitives it hits first (`trace`), which
//! material that primitive has (`material`), and whether the ray is followed
//! further (`scene`) are all decided here, and so is which pixels a worker
//! renders (`driver`, `camera`) and what the finished image looks like on
//! disk (`ppm`) or on a display (`viewer`).

pub mod camera;
pub mod driver;
pub mod geometry;
pub mod material;
pub mod ppm;
pub mod scalar;
pub mod scene;
pub mod trace;
pub mod viewer;
