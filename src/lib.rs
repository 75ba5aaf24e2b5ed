//! A small ray caster over fixed-point integers.
//!
//! Coordinates, colors and coefficients are `i64` values counting `1 / SCALE` units
//! (`fixed::SCALE` is 65536), so that every intersection and shading step is exact integer
//! arithmetic with each division rounded down. A scene is a sequence of `Hittable`
//! primitives (spheres, axis-aligned rectangles and boxes) lit by point lights under the
//! Phong model; `render::render` produces an RGB byte buffer, row by row from the top left,
//! with black where a pixel's ray hits nothing.
use vstd::prelude::*;

pub mod fixed;
pub mod vmaths;
pub mod ray;
pub mod material;
pub mod hittable;
pub mod geometry;
pub mod camera;
pub mod shading;
pub mod render;

verus! {

} // verus!
