//! One gene of an evolved strategy.

use vstd::prelude::*;

verus! {

/// A gene representing a fingerprint index in a strategy's priority ordering.
///
/// Genes are indices into a fingerprint lookup table. Lower positions in a
/// strategy's gene list indicate higher priority for that fingerprint pattern.
#[derive(Debug, Clone, Copy, PartialEq, Eq, PartialOrd, Ord, Hash, Structural)]
pub struct Gene(usize);

impl Gene {
    pub closed spec fn spec_index(self) -> usize {
        self.0
    }

    /// Creates a new gene with the given index value.
    pub fn new(value: usize) -> (result: Self)
        ensures
            result.spec_index() == value,
    {
        Gene(value)
    }

    /// Returns the underlying index value.
    pub fn index(self) -> (result: usize)
        ensures
            result == self.spec_index(),
    {
        self.0
    }
}

/// Genes with the same index are the same gene.
pub proof fn lemma_index_identifies(a: Gene, b: Gene)
    ensures
        a.spec_index() == b.spec_index() <==> a == b,
{
}

} // verus!
