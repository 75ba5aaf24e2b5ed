//! The pinhole camera that rays are cast from.
use vstd::prelude::*;

use crate::fixed::SCALE;
use crate::vmaths::{LIMIT, Point};

verus! {

/// A camera at `pos` looking down `+z`, with a viewport `w` by `h` at distance `focl`.
#[derive(Clone, Copy, Debug, PartialEq, Eq, Structural)]
pub struct Camera {
    pub pos: Point,
    pub focl: i64,
    pub w: i64,
    pub h: i64,
}

impl Camera {
    /// Position, focal length and viewport within range.
    pub open spec fn wf(self) -> bool {
        self.pos.in_world() && 0 <= self.focl <= LIMIT && 0 <= self.w <= LIMIT && 0 <= self.h <= LIMIT
    }

    /// The standard camera: at `(0, 0, -30)`, focal length 1, a 16 by 9 viewport.
    pub fn new() -> (r: Camera)
        ensures
            r == (Camera { pos: Point { x: 0, y: 0, z: -1966080i64 }, focl: SCALE, w: 1048576, h: 589824 }),
            r.wf(),
    {
        Camera { pos: Point { x: 0, y: 0, z: -30 * SCALE }, focl: SCALE, w: 16 * SCALE, h: 9 * SCALE }
    }
}

} // verus!
