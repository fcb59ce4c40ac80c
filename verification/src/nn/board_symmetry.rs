//! The eight symmetries of the square board.

use vstd::prelude::*;

use crate::board::{cell_at, Board};
use crate::position_id::{index_of, on_board, PositionId};
use crate::rng::rng_below;
use crate::stone::Stone;

verus! {

/// One of the eight ways to turn a square board over onto itself: four
/// rotations and four reflections.
#[derive(Debug, Clone, Copy, PartialEq, Eq, Hash, Structural)]
pub enum BoardSymmetry {
    Identity,
    Rotate90,
    Rotate180,
    Rotate270,
    FlipHorizontal,
    FlipVertical,
    FlipDiagonal,
    FlipAntiDiagonal,
}

/// The row a symmetry sends `row`, `col` to.
pub open spec fn turned_row(symmetry: BoardSymmetry, row: int, col: int) -> int {
    match symmetry {
        BoardSymmetry::Identity => row,
        BoardSymmetry::Rotate90 => col,
        BoardSymmetry::Rotate180 => 14 - row,
        BoardSymmetry::Rotate270 => 14 - col,
        BoardSymmetry::FlipHorizontal => row,
        BoardSymmetry::FlipVertical => 14 - row,
        BoardSymmetry::FlipDiagonal => col,
        BoardSymmetry::FlipAntiDiagonal => 14 - col,
    }
}

/// The column a symmetry sends `row`, `col` to.
pub open spec fn turned_col(symmetry: BoardSymmetry, row: int, col: int) -> int {
    match symmetry {
        BoardSymmetry::Identity => col,
        BoardSymmetry::Rotate90 => 14 - row,
        BoardSymmetry::Rotate180 => 14 - col,
        BoardSymmetry::Rotate270 => row,
        BoardSymmetry::FlipHorizontal => 14 - col,
        BoardSymmetry::FlipVertical => col,
        BoardSymmetry::FlipDiagonal => row,
        BoardSymmetry::FlipAntiDiagonal => 14 - row,
    }
}

/// The row a symmetry takes to `row`, `col`.
pub open spec fn source_row(symmetry: BoardSymmetry, row: int, col: int) -> int {
    match symmetry {
        BoardSymmetry::Identity => row,
        BoardSymmetry::Rotate90 => 14 - col,
        BoardSymmetry::Rotate180 => 14 - row,
        BoardSymmetry::Rotate270 => col,
        BoardSymmetry::FlipHorizontal => row,
        BoardSymmetry::FlipVertical => 14 - row,
        BoardSymmetry::FlipDiagonal => col,
        BoardSymmetry::FlipAntiDiagonal => 14 - col,
    }
}

/// The column a symmetry takes to `row`, `col`.
pub open spec fn source_col(symmetry: BoardSymmetry, row: int, col: int) -> int {
    match symmetry {
        BoardSymmetry::Identity => col,
        BoardSymmetry::Rotate90 => row,
        BoardSymmetry::Rotate180 => 14 - col,
        BoardSymmetry::Rotate270 => 14 - row,
        BoardSymmetry::FlipHorizontal => 14 - col,
        BoardSymmetry::FlipVertical => col,
        BoardSymmetry::FlipDiagonal => row,
        BoardSymmetry::FlipAntiDiagonal => 14 - row,
    }
}

/// Every symmetry keeps the board, and undoing it gives the cell back.
pub proof fn symmetries_are_invertible(symmetry: BoardSymmetry, row: int, col: int)
    requires
        on_board(row, col),
    ensures
        on_board(turned_row(symmetry, row, col), turned_col(symmetry, row, col)),
        on_board(source_row(symmetry, row, col), source_col(symmetry, row, col)),
        source_row(symmetry, turned_row(symmetry, row, col), turned_col(symmetry, row, col)) == row,
        source_col(symmetry, turned_row(symmetry, row, col), turned_col(symmetry, row, col)) == col,
        turned_row(symmetry, source_row(symmetry, row, col), source_col(symmetry, row, col)) == row,
        turned_col(symmetry, source_row(symmetry, row, col), source_col(symmetry, row, col)) == col,
{
}

/// Turning a quarter round four times gives every cell back.
pub proof fn four_quarter_turns_are_the_identity(row: int, col: int)
    ensures
        ({
            let q = BoardSymmetry::Rotate90;
            let (r1, c1) = (turned_row(q, row, col), turned_col(q, row, col));
            let (r2, c2) = (turned_row(q, r1, c1), turned_col(q, r1, c1));
            let (r3, c3) = (turned_row(q, r2, c2), turned_col(q, r2, c2));
            turned_row(q, r3, c3) == row && turned_col(q, r3, c3) == col
        }),
{
}

/// The board after a symmetry: the cell a symmetry sends each stone to
/// holds it.
pub open spec fn turned_cells(symmetry: BoardSymmetry, cells: Seq<Stone>) -> Seq<Stone> {
    Seq::new(
        225,
        |i: int| cell_at(cells, source_row(symmetry, i / 15, i % 15), source_col(symmetry, i / 15, i % 15)),
    )
}

impl BoardSymmetry {
    /// Every symmetry, identity first.
    #[allow(non_snake_case)]
    pub fn ALL() -> (result: [Self; 8])
        ensures
            result@ == seq![
                BoardSymmetry::Identity,
                BoardSymmetry::Rotate90,
                BoardSymmetry::Rotate180,
                BoardSymmetry::Rotate270,
                BoardSymmetry::FlipHorizontal,
                BoardSymmetry::FlipVertical,
                BoardSymmetry::FlipDiagonal,
                BoardSymmetry::FlipAntiDiagonal,
            ],
    {
        let result = [
            BoardSymmetry::Identity,
            BoardSymmetry::Rotate90,
            BoardSymmetry::Rotate180,
            BoardSymmetry::Rotate270,
            BoardSymmetry::FlipHorizontal,
            BoardSymmetry::FlipVertical,
            BoardSymmetry::FlipDiagonal,
            BoardSymmetry::FlipAntiDiagonal,
        ];
        assert(result@ =~= seq![
            BoardSymmetry::Identity,
            BoardSymmetry::Rotate90,
            BoardSymmetry::Rotate180,
            BoardSymmetry::Rotate270,
            BoardSymmetry::FlipHorizontal,
            BoardSymmetry::FlipVertical,
            BoardSymmetry::FlipDiagonal,
            BoardSymmetry::FlipAntiDiagonal,
        ]);
        result
    }

    /// A random symmetry.
    pub fn random(rng: &mut fastrand::Rng) -> (result: Self) {
        let all = Self::ALL();
        all[rng_below(rng, 8)]
    }

    /// Where this symmetry sends a position.
    pub fn apply(self, pos: PositionId) -> (result: PositionId)
        ensures
            result.valid(),
            result.spec_row() == turned_row(self, pos.spec_row(), pos.spec_col()),
            result.spec_col() == turned_col(self, pos.spec_row(), pos.spec_col()),
    {
        pos.check_valid();
        match self {
            BoardSymmetry::Identity => pos,
            BoardSymmetry::Rotate90 => pos.transpose().flip_horizontal(),
            BoardSymmetry::Rotate180 => pos.invert(),
            BoardSymmetry::Rotate270 => pos.transpose().flip_vertical(),
            BoardSymmetry::FlipHorizontal => pos.flip_horizontal(),
            BoardSymmetry::FlipVertical => pos.flip_vertical(),
            BoardSymmetry::FlipDiagonal => pos.transpose(),
            BoardSymmetry::FlipAntiDiagonal => pos.transpose().invert(),
        }
    }

    /// Where a position came from: undoes [`Self::apply`].
    pub fn apply_inverse(self, pos: PositionId) -> (result: PositionId)
        ensures
            result.valid(),
            result.spec_row() == source_row(self, pos.spec_row(), pos.spec_col()),
            result.spec_col() == source_col(self, pos.spec_row(), pos.spec_col()),
    {
        pos.check_valid();
        match self {
            BoardSymmetry::Identity => pos,
            BoardSymmetry::Rotate90 => pos.transpose().flip_vertical(),
            BoardSymmetry::Rotate180 => pos.invert(),
            BoardSymmetry::Rotate270 => pos.transpose().flip_horizontal(),
            BoardSymmetry::FlipHorizontal => pos.flip_horizontal(),
            BoardSymmetry::FlipVertical => pos.flip_vertical(),
            BoardSymmetry::FlipDiagonal => pos.transpose(),
            BoardSymmetry::FlipAntiDiagonal => pos.transpose().invert(),
        }
    }

    /// Turns a whole board: every stone moves to where this symmetry sends
    /// its position.
    pub fn apply_to_board(self, board: &Board) -> (result: Board)
        requires
            board.wf(),
        ensures
            result.wf(),
            result@ == turned_cells(self, board@),
            result.spec_move_count() == board.spec_move_count(),
    {
        proof {
            board.lemma_wf();
        }
        let mut turned = Board::new();
        let mut index: usize = 0;
        while index < 225
            invariant
                index <= 225,
                board.wf(),
                board@.len() == 225,
                turned.wf(),
                turned@.len() == 225,
                turned.spec_move_count() == crate::board::stone_count(board@.take(index as int)),
                forall|r: int, c: int|
                    on_board(r, c) ==> #[trigger] cell_at(turned@, r, c) == if index_of(
                        source_row(self, r, c),
                        source_col(self, r, c),
                    ) < index {
                        cell_at(board@, source_row(self, r, c), source_col(self, r, c))
                    } else {
                        Stone::Empty
                    },
            decreases 225 - index,
        {
            let position = PositionId::from_index(index);
            let target = self.apply(position);
            let ghost r0 = position.spec_row();
            let ghost c0 = position.spec_col();
            let ghost tr = target.spec_row();
            let ghost tc = target.spec_col();
            proof {
                position.lemma_row_col();
                target.lemma_row_col();
                symmetries_are_invertible(self, r0, c0);
                turned.lemma_wf();
                assert(cell_at(turned@, tr, tc) == Stone::Empty);
                assert(board@.take(index + 1).drop_last() =~= board@.take(index as int));
            }
            let stone = board.stone_at(position);
            let ghost before = turned@;
            if stone != Stone::Empty {
                turned.place_unchecked(target, stone);
            }
            proof {
                turned.lemma_wf();
                assert forall|r: int, c: int| on_board(r, c) implies #[trigger] cell_at(turned@, r, c)
                    == if index_of(source_row(self, r, c), source_col(self, r, c)) < index + 1 {
                    cell_at(board@, source_row(self, r, c), source_col(self, r, c))
                } else {
                    Stone::Empty
                } by {
                    symmetries_are_invertible(self, r, c);
                    let sr = source_row(self, r, c);
                    let sc = source_col(self, r, c);
                    if r == tr && c == tc {
                        assert(sr == r0 && sc == c0);
                    } else {
                        assert(index_of(r, c) != index_of(tr, tc));
                        assert(cell_at(turned@, r, c) == cell_at(before, r, c));
                        assert(sr != r0 || sc != c0);
                        assert(index_of(sr, sc) != index_of(r0, c0));
                    }
                }
            }
            index = index + 1;
        }
        proof {
            turned.lemma_wf();
            assert(board@.take(225) =~= board@);
            assert forall|i: int| 0 <= i < 225 implies #[trigger] turned@[i] == turned_cells(self, board@)[i] by {
                let r = i / 15;
                let c = i % 15;
                assert(index_of(r, c) == i);
                symmetries_are_invertible(self, r, c);
                assert(cell_at(turned@, r, c) == turned@[i]);
            }
            assert(turned@ =~= turned_cells(self, board@));
        }
        turned
    }
}

} // verus!
