//! What a finished match between two strategies left behind.

use vstd::prelude::*;

use crate::outcome::Outcome;

verus! {

/// The result of a match between two strategies.
#[derive(Debug, Clone)]
pub struct MatchResult {
    outcome: Outcome,
    black_label: String,
    white_label: String,
    turn_count: usize,
    board_state: String,
}

impl MatchResult {
    pub closed spec fn spec_outcome(&self) -> Outcome {
        self.outcome
    }

    pub closed spec fn spec_black_label(&self) -> Seq<char> {
        self.black_label@
    }

    pub closed spec fn spec_white_label(&self) -> Seq<char> {
        self.white_label@
    }

    pub closed spec fn spec_turn_count(&self) -> usize {
        self.turn_count
    }

    pub closed spec fn spec_board_state(&self) -> Seq<char> {
        self.board_state@
    }

    pub fn new(
        outcome: Outcome,
        black_label: String,
        white_label: String,
        turn_count: usize,
        board_state: String,
    ) -> (result: Self)
        ensures
            result.spec_outcome() == outcome,
            result.spec_black_label() == black_label@,
            result.spec_white_label() == white_label@,
            result.spec_turn_count() == turn_count,
            result.spec_board_state() == board_state@,
    {
        MatchResult { outcome, black_label, white_label, turn_count, board_state }
    }

    pub fn outcome(&self) -> (result: Outcome)
        ensures
            result == self.spec_outcome(),
    {
        self.outcome
    }

    pub fn black_label(&self) -> (result: &str)
        ensures
            result@ == self.spec_black_label(),
    {
        self.black_label.as_str()
    }

    pub fn white_label(&self) -> (result: &str)
        ensures
            result@ == self.spec_white_label(),
    {
        self.white_label.as_str()
    }

    pub fn turn_count(&self) -> (result: usize)
        ensures
            result == self.spec_turn_count(),
    {
        self.turn_count
    }

    pub fn board_state(&self) -> (result: &str)
        ensures
            result@ == self.spec_board_state(),
    {
        self.board_state.as_str()
    }
}

} // verus!
