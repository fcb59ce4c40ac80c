//! Inversion mutation: a segment of the gene sequence turned around.

use vstd::prelude::*;

use crate::evolution::mutation::rearranges;
use crate::gene::Gene;
use crate::rng::rng_below;

verus! {

/// `child` is `genes` with the cells from `start` to `end` reversed.
pub open spec fn inverted(genes: Seq<Gene>, child: Seq<Gene>, start: int, end: int) -> bool {
    &&& child.len() == genes.len()
    &&& forall|i: int| 0 <= i < genes.len() ==> #[trigger] child[i] == if start <= i <= end {
        genes[start + end - i]
    } else {
        genes[i]
    }
}

/// Inversion mutation: reverses a random segment of the sequence.
#[derive(Debug, Default, Clone, Copy)]
pub struct Inversion;

impl Inversion {
    pub fn new() -> (result: Self) {
        Inversion
    }

    /// The mutated genes and the reversed segment, of two or more genes.
    pub fn mutate_internal(self, genes: &[Gene], rng: &mut fastrand::Rng) -> (result: (Vec<Gene>, (usize, usize)))
        requires
            genes@.len() >= 2,
        ensures
            result.1.0 < result.1.1 < genes@.len(),
            inverted(genes@, result.0@, result.1.0 as int, result.1.1 as int),
    {
        let n = genes.len();
        let a = rng_below(rng, n);
        let b = rng_below(rng, n - 1);
        self.reverse_drawn(genes, a, b)
    }

    /// The genes with the segment between two drawn cells reversed: `a`,
    /// drawn among all cells, and `b`, drawn among the others (counted past
    /// `a`). The segment runs from the lower of the two cells to the higher,
    /// and its ends are exactly those two cells.
    pub fn reverse_drawn(self, genes: &[Gene], a: usize, b: usize) -> (result: (Vec<Gene>, (usize, usize)))
        requires
            genes@.len() >= 2,
            a < genes@.len(),
            b < genes@.len() - 1,
        ensures
            result.1.0 < result.1.1 < genes@.len(),
            inverted(genes@, result.0@, result.1.0 as int, result.1.1 as int),
            ({
                let other = if b >= a { b + 1 } else { b as int };
                ||| result.1.0 == a && result.1.1 == other
                ||| result.1.0 == other && result.1.1 == a
            }),
    {
        let n = genes.len();
        let b = if b >= a {
            b + 1
        } else {
            b
        };
        let (start, end) = if a < b {
            (a, b)
        } else {
            (b, a)
        };
        let mut child: Vec<Gene> = Vec::new();
        let mut i: usize = 0;
        while i < n
            invariant
                i <= n,
                n == genes@.len(),
                start < end < n,
                child@.len() == i,
                forall|k: int| 0 <= k < i ==> #[trigger] child@[k] == if start <= k <= end {
                    genes@[start + end - k]
                } else {
                    genes@[k]
                },
            decreases n - i,
        {
            let gene = if start <= i && i <= end {
                genes[start + (end - i)]
            } else {
                genes[i]
            };
            child.push(gene);
            i = i + 1;
        }
        (child, (start, end))
    }

    /// The genes with a random segment of two or more reversed.
    pub fn mutate(&self, genes: &[Gene], rng: &mut fastrand::Rng) -> (result: Vec<Gene>)
        requires
            genes@.len() >= 2,
        ensures
            exists|start: int, end: int| 0 <= start < end < genes@.len() && inverted(genes@, result@, start, end),
    {
        let (child, (start, end)) = self.mutate_internal(genes, rng);
        proof {
            assert(inverted(genes@, child@, start as int, end as int));
        }
        child
    }
}

/// Reversing the same segment twice gives the genes back.
pub proof fn inverting_twice_restores(genes: Seq<Gene>, once: Seq<Gene>, twice: Seq<Gene>, start: int, end: int)
    requires
        0 <= start < end < genes.len(),
        inverted(genes, once, start, end),
        inverted(once, twice, start, end),
    ensures
        twice == genes,
{
    assert(twice =~= genes) by {
        assert forall|i: int| 0 <= i < genes.len() implies twice[i] == genes[i] by {
            if start <= i <= end {
                assert(once[start + end - i] == genes[i]);
            }
        }
    }
}

/// An inversion keeps every gene: the child is a rearrangement of the
/// parent.
pub proof fn inverting_keeps_every_gene(genes: Seq<Gene>, child: Seq<Gene>, start: int, end: int)
    requires
        0 <= start < end < genes.len(),
        inverted(genes, child, start, end),
    ensures
        rearranges(genes, child),
{
    let from = Seq::new(genes.len(), |i: int| if start <= i <= end { start + end - i } else { i });
    assert(from.no_duplicates());
    assert(forall|i: int| 0 <= i < from.len() ==> 0 <= #[trigger] from[i] < genes.len() && child[i] == genes[from[i]]);
}

} // verus!
