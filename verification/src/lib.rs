//! A height-field wireframe renderer: a grid of elevation samples is
//! perspective-projected under an interactive camera and drawn, edge by edge,
//! into a packed RGBA pixel buffer with per-pixel color interpolation and
//! slope-preserving clipping.
//!
//! All scalar state (elevations, angles, camera fields) is held in
//! fixed-point arithmetic: an `i64` counts units of `1 / fixed::SCALE`.

pub mod camera;
pub mod fixed;
pub mod heightfield;
pub mod numeral;
pub mod project;
pub mod raster;
pub mod render;
pub mod trig;

use vstd::prelude::*;

verus! {

/// Width of the fixed-size pixel buffer, in pixels.
pub const BUF_WIDTH: usize = 1024;

/// Height of the fixed-size pixel buffer, in pixels.
pub const BUF_HEIGHT: usize = 1024;

} // verus!
