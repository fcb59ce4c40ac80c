use vstd::prelude::*;

use crate::offset::Offset;
use crate::position::Position;

verus! {

/// Cells per row and per column.
pub const WIDTH: usize = 15;

/// Cells on the board.
pub const COUNT: usize = 225;

/// A cell of the board, stored as its index in row-major order.
#[derive(Debug, Clone, Copy, PartialEq, Eq, Hash, PartialOrd, Ord, Structural)]
pub struct PositionId {
    index: u8,
}

/// The cell at `row`, `col` in row-major order.
pub open spec fn index_of(row: int, col: int) -> int {
    row * 15 + col
}

/// Whether `row`, `col` lies on the board.
pub open spec fn on_board(row: int, col: int) -> bool {
    0 <= row < 15 && 0 <= col < 15
}

impl PositionId {
    pub const WIDTH: usize = 15;

    pub const COUNT: usize = 225;

    #[verifier::type_invariant]
    spec fn index_in_range(self) -> bool {
        self.index < 225
    }

    /// The row-major index of the cell.
    pub closed spec fn idx(self) -> int {
        self.index as int
    }

    pub open spec fn spec_row(self) -> int {
        self.idx() / 15
    }

    pub open spec fn spec_col(self) -> int {
        self.idx() % 15
    }

    /// The index names a cell of the board; every value built by this
    /// type's functions does.
    pub open spec fn valid(self) -> bool {
        0 <= self.idx() < 225
    }

    /// A valid cell's row and column are on the board and give its index back.
    pub proof fn lemma_row_col(self)
        requires
            self.valid(),
        ensures
            0 <= self.spec_row() < 15,
            0 <= self.spec_col() < 15,
            self.idx() == index_of(self.spec_row(), self.spec_col()),
    {
    }

    /// Two cells are equal exactly when their indices are.
    pub proof fn idx_determines(self, other: PositionId)
        ensures
            (self.idx() == other.idx()) <==> (self == other),
    {
    }

    /// The value of this type is valid.
    pub fn check_valid(&self)
        ensures
            self.valid(),
    {
        proof {
            use_type_invariant(self);
        }
    }

    pub fn from_index(index: usize) -> (result: Self)
        requires
            index < 225,
        ensures
            result.idx() == index,
            result.valid(),
    {
        Self { index: index as u8 }
    }

    pub fn from_row_col(row: usize, col: usize) -> (result: Self)
        requires
            row < 15,
            col < 15,
        ensures
            result.idx() == index_of(row as int, col as int),
            result.spec_row() == row,
            result.spec_col() == col,
            result.valid(),
    {
        Self { index: (row * 15 + col) as u8 }
    }

    pub fn from_position(position: Position) -> (result: Self)
        requires
            position.row < 15,
            position.col < 15,
        ensures
            result.spec_row() == position.row,
            result.spec_col() == position.col,
            result.valid(),
    {
        Self::from_row_col(position.row, position.col)
    }

    pub fn to_index(self) -> (result: usize)
        ensures
            result == self.idx(),
            result < 225,
            self.valid(),
    {
        proof {
            use_type_invariant(self);
        }
        self.index as usize
    }

    pub fn row(self) -> (result: usize)
        ensures
            result == self.spec_row(),
            result < 15,
            self.valid(),
    {
        proof {
            use_type_invariant(self);
        }
        self.index as usize / 15
    }

    pub fn col(self) -> (result: usize)
        ensures
            result == self.spec_col(),
            result < 15,
            self.valid(),
    {
        proof {
            use_type_invariant(self);
        }
        self.index as usize % 15
    }

    /// The middle of the board.
    pub fn center() -> (result: Self)
        ensures
            result.spec_row() == 7,
            result.spec_col() == 7,
            result.valid(),
    {
        Self::from_row_col(7, 7)
    }

    /// Every cell, in row-major order.
    pub fn iter() -> (result: Vec<PositionId>)
        ensures
            result@.len() == 225,
            forall|i: int| 0 <= i < 225 ==> (#[trigger] result@[i]).idx() == i,
            forall|i: int| 0 <= i < 225 ==> (#[trigger] result@[i]).valid(),
    {
        let mut result: Vec<PositionId> = Vec::new();
        let mut index: usize = 0;
        while index < 225
            invariant
                index <= 225,
                result@.len() == index,
                forall|i: int| 0 <= i < index ==> (#[trigger] result@[i]).idx() == i,
                forall|i: int| 0 <= i < index ==> (#[trigger] result@[i]).valid(),
            decreases 225 - index,
        {
            result.push(Self::from_index(index));
            index = index + 1;
        }
        result
    }

    /// The cell `offset` away, or `None` when that falls off the board.
    pub fn from_offset(self, offset: Offset) -> (result: Option<PositionId>)
        ensures
            self.valid(),
            match result {
                Some(p) => on_board(
                    self.spec_row() + offset.spec_row_delta(),
                    self.spec_col() + offset.spec_col_delta(),
                ) && p.spec_row() == self.spec_row() + offset.spec_row_delta() && p.spec_col()
                    == self.spec_col() + offset.spec_col_delta() && p.valid(),
                None => !on_board(
                    self.spec_row() + offset.spec_row_delta(),
                    self.spec_col() + offset.spec_col_delta(),
                ),
            },
    {
        self.check_valid();
        let dr = offset.row_delta();
        let dc = offset.col_delta();
        if dr < -15 || dr > 15 || dc < -15 || dc > 15 {
            return None;
        }
        let row = self.row() as isize + dr;
        let col = self.col() as isize + dc;
        if row < 0 || row >= 15 || col < 0 || col >= 15 {
            None
        } else {
            Some(Self::from_row_col(row as usize, col as usize))
        }
    }

    /// The same as [`Self::from_offset`].
    pub fn offset(self, offset: Offset) -> (result: Option<PositionId>)
        ensures
            result == self.from_offset_spec(offset),
            self.valid(),
            result matches Some(p) ==> p.valid(),
    {
        let result = self.from_offset(offset);
        proof {
            self.from_offset_spec_unique(offset, result);
        }
        result
    }

    /// What [`Self::from_offset`] returns, as a spec function.
    pub open spec fn from_offset_spec(self, offset: Offset) -> Option<PositionId> {
        let row = self.spec_row() + offset.spec_row_delta();
        let col = self.spec_col() + offset.spec_col_delta();
        if on_board(row, col) {
            Some(choose|p: PositionId| p.valid() && p.spec_row() == row && p.spec_col() == col)
        } else {
            None
        }
    }

    proof fn from_offset_spec_unique(self, offset: Offset, result: Option<PositionId>)
        requires
            self.valid(),
            match result {
                Some(p) => on_board(
                    self.spec_row() + offset.spec_row_delta(),
                    self.spec_col() + offset.spec_col_delta(),
                ) && p.spec_row() == self.spec_row() + offset.spec_row_delta() && p.spec_col()
                    == self.spec_col() + offset.spec_col_delta() && p.valid(),
                None => !on_board(
                    self.spec_row() + offset.spec_row_delta(),
                    self.spec_col() + offset.spec_col_delta(),
                ),
            },
        ensures
            result == self.from_offset_spec(offset),
    {
        if let Some(p) = result {
            let q = choose|q: PositionId|
                q.valid() && q.spec_row() == p.spec_row() && q.spec_col() == p.spec_col();
            same_row_col_same_cell(p, q);
        }
    }

    /// The cell mirrored in the main diagonal: row and column swap.
    pub fn transpose(self) -> (result: Self)
        ensures
            result.spec_row() == self.spec_col(),
            result.spec_col() == self.spec_row(),
            result.valid(),
            self.valid(),
    {
        Self::from_row_col(self.col(), self.row())
    }

    /// The cell mirrored left to right.
    pub fn flip_horizontal(self) -> (result: Self)
        ensures
            result.spec_row() == self.spec_row(),
            result.spec_col() == 14 - self.spec_col(),
            result.valid(),
            self.valid(),
    {
        Self::from_row_col(self.row(), 14 - self.col())
    }

    /// The cell mirrored top to bottom.
    pub fn flip_vertical(self) -> (result: Self)
        ensures
            result.spec_row() == 14 - self.spec_row(),
            result.spec_col() == self.spec_col(),
            result.valid(),
            self.valid(),
    {
        Self::from_row_col(14 - self.row(), self.col())
    }

    /// The cell turned half way round the centre.
    pub fn invert(self) -> (result: Self)
        ensures
            result.spec_row() == 14 - self.spec_row(),
            result.spec_col() == 14 - self.spec_col(),
            result.valid(),
            self.valid(),
    {
        Self::from_row_col(14 - self.row(), 14 - self.col())
    }
}

impl Default for PositionId {
    fn default() -> (result: Self)
        ensures
            result.idx() == 0,
            result.valid(),
    {
        Self::from_index(0)
    }
}

/// Every index of the board is the index of a cell.
pub proof fn lemma_index_has_cell(i: int)
    requires
        0 <= i < 225,
    ensures
        exists|p: PositionId| p.valid() && #[trigger] p.idx() == i,
{
    let p = PositionId { index: i as u8 };
    assert(p.idx() == i);
}

/// A cell is determined by its row and column.
pub proof fn same_row_col_same_cell(p: PositionId, q: PositionId)
    requires
        p.valid(),
        q.valid(),
        p.spec_row() == q.spec_row(),
        p.spec_col() == q.spec_col(),
    ensures
        p == q,
{
}

/// Two cells of the board with the same index have the same row and column.
pub proof fn lemma_index_of_injective(r1: int, c1: int, r2: int, c2: int)
    requires
        on_board(r1, c1),
        on_board(r2, c2),
        index_of(r1, c1) == index_of(r2, c2),
    ensures
        r1 == r2,
        c1 == c2,
{
}

} // verus!
