//! A hook into a game in progress.

use vstd::prelude::*;

use core::ops::ControlFlow;

use crate::board::Board;
use crate::position_id::PositionId;
use crate::stone::Stone;

verus! {

/// Hook called after each move is chosen but before it is placed on the board.
///
/// The board reflects the state *before* the chosen move is placed. Return
/// `ControlFlow::Break(())` to abort the game early.
pub trait GameObserver {
    /// The observer lets every game run to its end, now and after any move.
    /// An observer that says nothing of itself may stop a game.
    open spec fn never_stops(&self) -> bool {
        false
    }

    /// Whether the observer, as it is now, stops the game when `stone` is
    /// about to play `position` on `board`.
    spec fn stops(&self, stone: Stone, position: PositionId, board: &Board) -> bool;

    /// What the observer carries over from one move to the next. An
    /// observer that says nothing of itself may change in any way.
    open spec fn keeps(&self, next: &Self) -> bool {
        true
    }

    fn on_move(&mut self, stone: Stone, position: PositionId, board: &Board) -> (result: ControlFlow<()>)
        requires
            board.wf(),
            stone.is_colour(),
            position.valid(),
            board@[position.idx()] == Stone::Empty,
            crate::board::outcome_of(board@).is_none(),
        ensures
            old(self).never_stops() ==> result is Continue && final(self).never_stops(),
            result is Break <==> old(self).stops(stone, position, board),
            old(self).keeps(final(self)),
    ;
}

/// An observer that lets every game run to its end.
pub struct NoOpObserver;

impl GameObserver for NoOpObserver {
    open spec fn never_stops(&self) -> bool {
        true
    }

    open spec fn stops(&self, stone: Stone, position: PositionId, board: &Board) -> bool {
        false
    }

    fn on_move(&mut self, stone: Stone, position: PositionId, board: &Board) -> (result: ControlFlow<()>)
        ensures
            result == ControlFlow::<()>::Continue(()),
    {
        ControlFlow::Continue(())
    }
}

} // verus!
