use vstd::prelude::*;

verus! {

/// A board coordinate: row and column, counted from the top-left corner.
#[derive(Debug, Clone, Copy, PartialEq, Eq, Hash, Structural)]
pub struct Position {
    pub row: usize,
    pub col: usize,
}

impl Position {
    pub fn new(row: usize, col: usize) -> (result: Self)
        ensures
            result.row == row,
            result.col == col,
    {
        Self { row, col }
    }
}

} // verus!
