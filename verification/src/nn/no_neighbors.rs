//! The encoder that looks at a position alone.

use vstd::prelude::*;

verus! {

/// Looks at the position itself and none of its neighbors.
#[derive(Debug, Clone, Copy, PartialEq, Eq, Default)]
pub struct NoNeighbors;

impl NoNeighbors {
    /// The encoder's name.
    pub fn to_string(&self) -> (result: String)
        ensures
            result@ == "no neighbors"@,
    {
        String::from_str("no neighbors")
    }
}

} // verus!
