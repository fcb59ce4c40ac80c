//! Ways of changing an individual's genes.

pub mod insert;
pub mod inversion;
pub mod swap;

use vstd::prelude::*;

use crate::gene::Gene;

verus! {

/// `child` holds the genes of `genes`, each exactly once, in some order:
/// position `i` of `child` holds the gene from position `from[i]` of
/// `genes`, and no position of `genes` is used twice.
pub open spec fn rearranges(genes: Seq<Gene>, child: Seq<Gene>) -> bool {
    exists|from: Seq<int>|
        #![trigger from.no_duplicates()]
        from.len() == genes.len() && child.len() == genes.len() && from.no_duplicates() && (forall|i: int|
            0 <= i < from.len() ==> 0 <= #[trigger] from[i] < genes.len() && child[i] == genes[from[i]])
}

} // verus!
