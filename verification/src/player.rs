//! The camera: where it stands and which way it faces, in fixed point.

use vstd::prelude::*;

verus! {

/// One world unit in fixed point: positions and direction components carry
/// sixteen fractional bits.
pub const SCALE: i64 = 65536;

/// A ray direction: the cosine and the sine of its angle, each multiplied by
/// `SCALE` and rounded.
#[derive(Clone, Copy, Debug, PartialEq, Eq, Structural)]
pub struct Direction {
    pub dx: i64,
    pub dy: i64,
}

impl Direction {
    /// Neither component exceeds one in magnitude, and the direction is not
    /// the zero vector.
    pub open spec fn wf(self) -> bool {
        &&& -SCALE <= self.dx <= SCALE
        &&& -SCALE <= self.dy <= SCALE
        &&& (self.dx != 0 || self.dy != 0)
    }
}

/// The camera pose. `x` and `y` are world coordinates multiplied by `SCALE`;
/// `heading` is the direction the camera moves along.
#[derive(Clone, Copy, Debug, PartialEq, Eq, Structural)]
pub struct Player {
    pub x: i64,
    pub y: i64,
    pub heading: Direction,
}

impl Direction {
    /// Decides `wf`.
    pub fn is_valid(&self) -> (ok: bool)
        ensures
            ok == self.wf(),
    {
        -SCALE <= self.dx && self.dx <= SCALE && -SCALE <= self.dy && self.dy <= SCALE && (self.dx
            != 0 || self.dy != 0)
    }
}

impl Player {
    pub fn new(x: i64, y: i64, heading: Direction) -> (p: Player)
        ensures
            p == (Player { x, y, heading }),
    {
        Player { x, y, heading }
    }
}

/// The pixel coordinate of a fixed-point coordinate: its whole part, and 0
/// for a negative coordinate.
pub open spec fn to_pixel(f: int) -> int {
    if f < 0 {
        0
    } else {
        f / (SCALE as int)
    }
}

/// Computes `to_pixel`.
pub fn pixel_of(f: i64) -> (p: u64)
    ensures
        p == to_pixel(f as int),
{
    if f < 0 {
        0
    } else {
        (f / SCALE) as u64
    }
}

} // verus!
