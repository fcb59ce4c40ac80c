//! The encoder that looks at clusters of a position's neighbours.

use vstd::prelude::*;

use crate::text::{append_decimal, decimal};

verus! {

/// How many clusters a full expansion has: the position itself, two kinds
/// of single neighbour, and six kinds of neighbour pair.
pub const CLUSTER_COUNT: usize = 9;

/// Looks at the position and the first `CLUSTERS` clusters of its
/// neighbours. Clusters are ordered by size, so keeping the first N of them
/// truncates the expansion.
#[derive(Debug, Clone, Copy, PartialEq, Eq, Default)]
pub struct ClusterExpansion<const CLUSTERS: usize>;

impl<const CLUSTERS: usize> ClusterExpansion<CLUSTERS> {
    /// The encoder's name: how many clusters it keeps.
    pub fn to_string(&self) -> (result: String)
        ensures
            result@ == decimal(CLUSTERS as nat) + "-cluster expansion"@,
    {
        let mut text = String::new();
        append_decimal(&mut text, CLUSTERS as u64);
        text.append("-cluster expansion");
        text
    }
}

} // verus!
