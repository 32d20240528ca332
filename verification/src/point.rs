//! A vertex after projection onto the canvas.

use vstd::prelude::*;

verus! {

/// A projected vertex: centred pixel coordinates, and a value `h` that the
/// library carries along for its caller without reading it.
#[derive(Clone, Copy, Debug, PartialEq)]
pub struct Point<H> {
    pub x: i64,
    pub y: i64,
    pub h: H,
}

impl<H> Point<H> {
    pub fn new(x: i64, y: i64, h: H) -> (point: Point<H>)
        ensures
            point.x == x,
            point.y == y,
            point.h == h,
    {
        Point { x, y, h }
    }
}

} // verus!
