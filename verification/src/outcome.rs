use vstd::prelude::*;

use crate::stone::Stone;

verus! {

/// The result of a completed game.
#[derive(Debug, Clone, Copy, PartialEq, Eq, Structural)]
pub enum Outcome {
    BlackWins,
    WhiteWins,
    Draw,
}

/// The outcome in which `stone` completed five in a row.
pub open spec fn win_for(stone: Stone) -> Outcome
    recommends
        stone.is_colour(),
{
    if stone == Stone::Black {
        Outcome::BlackWins
    } else {
        Outcome::WhiteWins
    }
}

#[allow(non_snake_case)]
impl Outcome {
    /// The outcome in which `stone` wins.
    pub fn Win(stone: Stone) -> (result: Outcome)
        requires
            stone.is_colour(),
        ensures
            result == win_for(stone),
    {
        match stone {
            Stone::Black => Outcome::BlackWins,
            _ => Outcome::WhiteWins,
        }
    }

    /// The colour that won, if any.
    pub fn winner(self) -> (result: Option<Stone>)
        ensures
            result == match self {
                Outcome::BlackWins => Some(Stone::Black),
                Outcome::WhiteWins => Some(Stone::White),
                Outcome::Draw => None::<Stone>,
            },
    {
        match self {
            Outcome::BlackWins => Some(Stone::Black),
            Outcome::WhiteWins => Some(Stone::White),
            Outcome::Draw => None,
        }
    }
}

} // verus!
