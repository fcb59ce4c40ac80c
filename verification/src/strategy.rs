//! What a player of the game offers.

use vstd::prelude::*;

use crate::board::{outcome_of, Board};
use crate::cache_repository::CacheKind;
use crate::position_id::PositionId;
use crate::stone::Stone;

verus! {

/// A way of playing: a name, and the neighbour-count caches it reads.
pub trait Strategy {
    /// `label` is a name this strategy goes by. A strategy that says
    /// nothing of its name may go by any.
    open spec fn names(&self, label: Seq<char>) -> bool {
        true
    }

    /// `kinds` are caches this strategy may ask for. A strategy that says
    /// nothing of its caches may ask for any.
    open spec fn reads(&self, kinds: Seq<CacheKind>) -> bool {
        true
    }

    /// `p` is a move this strategy may choose for `stone` on `cells`. A
    /// strategy that says nothing of its moves may choose any empty cell.
    open spec fn may_choose(&self, stone: Stone, cells: Seq<Stone>, p: PositionId) -> bool {
        true
    }

    /// The strategy's name.
    fn label(&self) -> (result: &str)
        ensures
            self.names(result@),
    ;

    /// The caches the strategy reads while choosing moves.
    fn cache_dependencies(&self) -> (result: Vec<CacheKind>)
        ensures
            self.reads(result@),
    ;

    /// The move `current_stone` plays on `board`, a game still in progress:
    /// an empty cell.
    fn choose_move(&self, current_stone: Stone, board: &Board, rng: &mut fastrand::Rng) -> (result: PositionId)
        requires
            board.wf(),
            current_stone.is_colour(),
            outcome_of(board@).is_none(),
        ensures
            result.valid(),
            board@[result.idx()] == Stone::Empty,
            self.may_choose(current_stone, board@, result),
    ;
}

} // verus!
