//! A small standalone integer point type kept alongside the pipeline.
use vstd::prelude::*;

verus! {

/// A 2D integer point.
#[derive(Debug)]
pub struct Vec2i {
    pub x: i32,
    pub y: i32,
}

impl Vec2i {
    pub fn new(x: i32, y: i32) -> (r: Vec2i)
        ensures
            r.x == x,
            r.y == y,
    {
        Vec2i { x, y }
    }
}

} // verus!
