use vstd::prelude::*;

verus! {

/// The content of a board cell: a stone of either colour, or nothing.
#[derive(Debug, Clone, Copy, PartialEq, Eq, Hash, Structural)]
pub enum Stone {
    Black,
    White,
    Empty,
}

impl Stone {
    /// The other colour; `Empty` stays `Empty`.
    pub open spec fn spec_opponent(self) -> Stone {
        match self {
            Stone::Black => Stone::White,
            Stone::White => Stone::Black,
            Stone::Empty => Stone::Empty,
        }
    }

    /// Whether this is a stone rather than an empty cell.
    pub open spec fn is_colour(self) -> bool {
        self != Stone::Empty
    }

    /// Black is side 0 and White side 1; tables indexed by colour use it.
    pub open spec fn spec_side(self) -> int {
        match self {
            Stone::Black => 0,
            Stone::White => 1,
            Stone::Empty => 2,
        }
    }

    #[verifier::when_used_as_spec(spec_opponent)]
    pub fn opponent(self) -> (result: Stone)
        ensures
            result == self.spec_opponent(),
    {
        match self {
            Stone::Black => Stone::White,
            Stone::White => Stone::Black,
            Stone::Empty => Stone::Empty,
        }
    }

    /// The index of a colour in per-side tables: 0 for Black, 1 for White.
    pub fn side(self) -> (result: usize)
        requires
            self.is_colour(),
        ensures
            result == self.spec_side(),
            result < 2,
    {
        match self {
            Stone::Black => 0,
            Stone::White => 1,
            Stone::Empty => 2,
        }
    }
}

/// Swapping colours twice gives the colour back.
pub proof fn opponent_is_an_involution(stone: Stone)
    ensures
        stone.spec_opponent().spec_opponent() == stone,
{
}

} // verus!
