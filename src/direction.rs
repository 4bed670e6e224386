//! Face directions and the rotating 2D vectors used to sample corners.
use vstd::prelude::*;

verus! {

pub const DIRECTION_UP: u32 = 0;
pub const DIRECTION_FRONT: u32 = 1;
pub const DIRECTION_LEFT: u32 = 2;
pub const DIRECTION_BACK: u32 = 3;
pub const DIRECTION_RIGHT: u32 = 4;
pub const DIRECTION_DOWN: u32 = 5;

/// A 2D integer vector in a face's local plane.
pub struct DirXY {
    pub x: i32,
    pub y: i32,
}

/// The vector `(x, y)` turned 90 degrees counter-clockwise.
pub open spec fn rot_ccw(p: (int, int)) -> (int, int) {
    (-p.1, p.0)
}

impl DirXY {
    pub open spec fn view(&self) -> (int, int) {
        (self.x as int, self.y as int)
    }

    /// Sets both components.
    pub fn set(&mut self, x: i32, y: i32)
        ensures
            final(self).x == x,
            final(self).y == y,
    {
        self.x = x;
        self.y = y;
    }

    /// Turns the vector a quarter counter-clockwise.
    pub fn rotate_ccw(&mut self)
        requires
            old(self).y > i32::MIN,
        ensures
            final(self)@ == rot_ccw(old(self)@),
    {
        self.set(-self.y, self.x);
    }
}

} // verus!
