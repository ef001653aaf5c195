//! Grid coordinates and the 8-neighborhood relation shared by mine-count
//! derivation and the reveal cascade.

use vstd::prelude::*;

verus! {

/// A cell position on the board: column `x`, row `y`.
#[derive(Debug, Copy, Clone, Eq, PartialEq, Hash, Structural)]
pub struct Coordinates {
    pub x: u16,
    pub y: u16,
}

/// Two coordinates are adjacent when they are distinct and differ by at
/// most one in each axis: the 8-neighborhood, diagonals included.
pub open spec fn adjacent(a: Coordinates, b: Coordinates) -> bool {
    &&& a != b
    &&& -1 <= b.x - a.x <= 1
    &&& -1 <= b.y - a.y <= 1
}


} // verus!
