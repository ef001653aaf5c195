//! The error kinds that board construction and queries can report.

use vstd::prelude::*;

verus! {

/// Every fallible operation of the engine reports one of these kinds.
#[derive(Debug, Copy, Clone, Eq, PartialEq, Structural)]
pub enum BoardError {
    /// A zero width or height was passed at board creation.
    InvalidDimensions,
    /// The requested mine count is at least the number of cells.
    TooManyMines,
    /// A coordinate query named a cell outside the grid extent.
    OutOfBounds,
}

impl BoardError {
    /// A short description of the error, for hosts that print it.
    pub fn message(&self) -> (r: &'static str)
        ensures
            *self is InvalidDimensions ==> r@ == "board dimensions must be positive"@,
            *self is TooManyMines ==> r@ == "mine count must be below the cell count"@,
            *self is OutOfBounds ==> r@ == "coordinate lies outside the grid"@,
    {
        match self {
            BoardError::InvalidDimensions => "board dimensions must be positive",
            BoardError::TooManyMines => "mine count must be below the cell count",
            BoardError::OutOfBounds => "coordinate lies outside the grid",
        }
    }
}

} // verus!
