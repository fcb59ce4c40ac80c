//! Freestyle gomoku after a random opening.

use vstd::prelude::*;

use crate::board::{outcome_of, Board};
use crate::position_id::PositionId;
use crate::outcome::Outcome;
use crate::strategy::Strategy;

use super::observer::GameObserver;
use super::{
    chosen_by, extends, game_played, legal_moves, observed_moves, opened_with, place_opening, play_to_end, replay,
    run_from, stopped_on, watched_game,
};

verus! {

/// Freestyle Gomoku with a random opening: places `moves` stones alternating
/// Black/White on random empty positions before the strategies begin play.
///
/// If the board reaches a finished state during setup, setup stops early and
/// the game resolves immediately.
#[derive(Debug, Clone, Copy, Default, PartialEq, Eq, Structural)]
pub struct RandomOpening {
    pub moves: u32,
}

impl RandomOpening {
    pub fn play_from<B: Strategy, W: Strategy, O: GameObserver>(
        &self,
        board: &mut Board,
        black_strategy: &B,
        white_strategy: &W,
        observer: &mut O,
        rng: &mut fastrand::Rng,
    ) -> (result: Option<Outcome>)
        requires
            old(board).wf(),
        ensures
            final(board).wf(),
            extends(old(board)@, final(board)@),
            result == outcome_of(final(board)@),
            old(observer).never_stops() ==> result is Some,
            exists|opening: Seq<PositionId>, moves: Seq<PositionId>|
                #[trigger] game_played(
                    black_strategy,
                    white_strategy,
                    old(board)@,
                    self.moves as nat,
                    opening,
                    moves,
                    final(board)@,
                ),
            exists|opening: Seq<PositionId>, moves: Seq<PositionId>, states: Seq<O>, boards: Seq<Board>|
                #[trigger] watched_game(
                    *old(observer),
                    old(board)@,
                    self.moves as nat,
                    opening,
                    moves,
                    states,
                    boards,
                    *final(board),
                    *final(observer),
                    result,
                ),
    {
        place_opening(board, self.moves, rng);
        let ghost opened = board@;
        let ghost opening = choose|opening: Seq<PositionId>| #[trigger] opened_with(old(board)@, self.moves as nat, opening, opened);
        let result = run_from(board, black_strategy, white_strategy, observer, rng);
        proof {
            let moves = choose|moves: Seq<PositionId>|
                legal_moves(opened, moves) && chosen_by(black_strategy, white_strategy, opened, moves)
                    && #[trigger] replay(opened, moves) == board@;
            assert(game_played(black_strategy, white_strategy, old(board)@, self.moves as nat, opening, moves, board@));
            let (shown, states, boards) = choose|shown: Seq<PositionId>, states: Seq<O>, boards: Seq<Board>|
                {
                    &&& #[trigger] observed_moves(*old(observer), states, boards, opened, shown)
                    &&& replay(opened, shown) == board@
                    &&& result is Some ==> states.last() == *observer
                    &&& result is None ==> stopped_on(states.last(), *board)
                };
            assert(watched_game(
                *old(observer),
                old(board)@,
                self.moves as nat,
                opening,
                shown,
                states,
                boards,
                *board,
                *observer,
                result,
            ));
        }
        assert forall|i: int| 0 <= i < old(board)@.len() && old(board)@[i] != crate::stone::Stone::Empty implies #[trigger] board@[i] == old(board)@[i] by {
            assert(opened[i] == old(board)@[i]);
        }
        result
    }

    /// Plays a complete game from an empty board.
    pub fn play<B: Strategy, W: Strategy>(&self, black_strategy: &B, white_strategy: &W, rng: &mut fastrand::Rng) -> (result: Outcome)
        ensures
            exists|cells: Seq<crate::stone::Stone>| outcome_of(cells) == Some(result),
    {
        let mut board = Board::new();
        place_opening(&mut board, self.moves, rng);
        play_to_end(&mut board, black_strategy, white_strategy, rng)
    }
}

} // verus!
