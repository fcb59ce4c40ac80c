//! The minimax search as a player of the game.

use vstd::prelude::*;

use crate::board::Board;
use crate::cache_repository::CacheKind;
use crate::position_id::PositionId;
use crate::stone::Stone;
use crate::strategy::Strategy;
use crate::text::{append_decimal, decimal};

use super::search::find_best_move;

verus! {

/// A minimax strategy with alpha-beta pruning.
pub struct MinimaxStrategy {
    depth: u32,
    label: String,
}

impl MinimaxStrategy {
    /// The search goes at least one move deep, and no deeper than the
    /// transposition table records.
    #[verifier::type_invariant]
    spec fn depth_in_range(self) -> bool {
        0 < self.depth <= 86
    }

    /// How many moves deep the strategy searches.
    pub closed spec fn spec_depth(&self) -> u32 {
        self.depth
    }

    /// The strategy's name.
    pub closed spec fn spec_label(&self) -> Seq<char> {
        self.label@
    }

    pub fn new(depth: u32) -> (result: Self)
        requires
            0 < depth <= 86,
        ensures
            result.spec_depth() == depth,
            result.spec_label() == "minimax-d"@ + decimal(depth as nat),
    {
        let mut label = String::from_str("minimax-d");
        append_decimal(&mut label, depth as u64);
        MinimaxStrategy { depth, label }
    }

    pub fn depth(&self) -> (result: u32)
        ensures
            result == self.spec_depth(),
    {
        self.depth
    }
}

impl Strategy for MinimaxStrategy {
    /// Its name is its label.
    open spec fn names(&self, label: Seq<char>) -> bool {
        label == self.spec_label()
    }

    /// The search reads the board alone.
    open spec fn reads(&self, kinds: Seq<CacheKind>) -> bool {
        kinds.len() == 0
    }

    /// A five when one can be completed, otherwise a block of the
    /// opponent's five when it has one; the centre on an empty board, and
    /// otherwise the first candidate whose searched value is highest.
    open spec fn may_choose(&self, stone: Stone, cells: Seq<Stone>, p: PositionId) -> bool {
        &&& crate::minimax::search::tactical(cells, stone, p)
        &&& crate::board::stone_count(cells) == 0 ==> p.spec_row() == 7 && p.spec_col() == 7
        &&& crate::board::stone_count(cells) > 0 ==> crate::minimax::search::best_of_searched(
            cells,
            stone,
            (3 * self.spec_depth()) as u32,
            p,
        )
    }

    fn label(&self) -> (result: &str)
        ensures
            result@ == self.spec_label(),
    {
        self.label.as_str()
    }

    /// The best move the search finds: a five when one can be completed,
    /// otherwise a block of the opponent's five when it has one.
    fn choose_move(&self, current_stone: Stone, board: &Board, rng: &mut fastrand::Rng) -> (result: PositionId)
        ensures
            result.valid(),
            board@[result.idx()] == Stone::Empty,
            crate::minimax::search::tactical(board@, current_stone, result),
            crate::board::stone_count(board@) == 0 ==> result.spec_row() == 7 && result.spec_col() == 7,
            crate::board::stone_count(board@) > 0 ==> crate::minimax::search::best_of_searched(
                board@,
                current_stone,
                (3 * self.spec_depth()) as u32,
                result,
            ),
    {
        proof {
            use_type_invariant(self);
        }
        find_best_move(board, current_stone, self.depth, rng)
    }

    /// The search reads the board alone.
    fn cache_dependencies(&self) -> (result: Vec<CacheKind>)
        ensures
            result@.len() == 0,
    {
        Vec::new()
    }
}

} // verus!
