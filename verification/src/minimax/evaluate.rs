//! Static evaluation of a whole board.

use vstd::prelude::*;

use crate::board::Board;
use crate::stone::Stone;

use super::score::clamp_points;
pub use super::score::Score;
use super::search_state::{lines_total, SearchState};

verus! {

/// The evaluation of `cells` from `stone`'s side: the sum of every line's
/// shapes, Black's counted for Black and White's against, clamped to the
/// score range.
pub open spec fn evaluation(cells: Seq<Stone>, stone: Stone) -> int {
    if stone == Stone::Black {
        clamp_points(lines_total(cells, 88))
    } else {
        clamp_points(-lines_total(cells, 88))
    }
}

/// Evaluates the board from `stone`'s perspective.
///
/// Returns positive if `stone` has the advantage, negative if the opponent does.
pub fn evaluate(board: &Board, stone: Stone) -> (result: Score)
    requires
        board.wf(),
        stone.is_colour(),
    ensures
        result.0 == evaluation(board@, stone),
{
    let state = SearchState::from_board(board);
    proof {
        state.lemma_total_is_lines_total();
    }
    let total = state.total_score();
    if stone == Stone::Black {
        total
    } else {
        Score(-total.0)
    }
}

/// The two sides see the same board with opposite signs.
pub proof fn evaluation_is_symmetric(cells: Seq<Stone>)
    ensures
        evaluation(cells, Stone::White) == -evaluation(cells, Stone::Black),
{
}

} // verus!
