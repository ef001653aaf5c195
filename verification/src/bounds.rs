//! A physical rectangle, used only to translate pointer positions into
//! grid coordinates.

use vstd::prelude::*;

verus! {

/// An axis-aligned rectangle: its lower corner and its extent.
#[derive(Debug, Copy, Clone, Eq, PartialEq, Structural)]
pub struct Bounds2 {
    pub x: i64,
    pub y: i64,
    pub width: u64,
    pub height: u64,
}

impl Bounds2 {
    /// The far corner still fits the coordinate range.
    pub open spec fn wf(&self) -> bool {
        &&& self.x + self.width <= i64::MAX
        &&& self.y + self.height <= i64::MAX
    }

    /// The position lies inside the rectangle.
    pub open spec fn contains_pos(&self, px: int, py: int) -> bool {
        &&& self.x <= px < self.x + self.width
        &&& self.y <= py < self.y + self.height
    }

    /// Bounds check of a physical position against the rectangle.
    pub fn in_bounds(&self, px: i64, py: i64) -> (r: bool)
        ensures
            r == self.contains_pos(px as int, py as int),
    {
        let dx = (px as i128) - (self.x as i128);
        let dy = (py as i128) - (self.y as i128);
        dx >= 0 && dy >= 0 && dx < self.width as i128 && dy < self.height as i128
    }
}

} // verus!
