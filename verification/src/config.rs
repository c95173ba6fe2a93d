//! The default camera and canvas.

use vstd::prelude::*;

verus! {

/// Width and height of the viewport, as a scalar: 1.
pub const VIEWPORT_SIZE: i64 = 32768;

/// Distance from the camera to the projection plane, as a scalar: 1.
pub const PROJECTION_PLANE_D: i64 = 32768;

/// Width of the canvas in pixels.
pub const CANVAS_WIDTH: u32 = 400;

/// Height of the canvas in pixels.
pub const CANVAS_HEIGHT: u32 = 400;

/// Number of mirror bounces that a primary ray may spawn.
pub const RECURSION_DEPTH: u32 = 3;

} // verus!
