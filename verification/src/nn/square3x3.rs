//! The encoder that looks at the square of cells around a position.

use vstd::prelude::*;

verus! {

/// Looks at the position and the eight cells around it.
#[derive(Debug, Clone, Copy, PartialEq, Eq, Default)]
pub struct Square3x3;

impl Square3x3 {
    /// The encoder's name.
    pub fn to_string(&self) -> (result: String)
        ensures
            result@ == "3x3 square"@,
    {
        String::from_str("3x3 square")
    }
}

} // verus!
