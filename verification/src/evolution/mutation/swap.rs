//! Swap mutation: two genes trade places.

use vstd::prelude::*;

use crate::evolution::copy_of;
use crate::evolution::mutation::rearranges;
use crate::gene::Gene;
use crate::rng::rng_below;

verus! {

/// `child` is `genes` with the genes at `a` and `b` exchanged.
pub open spec fn swapped(genes: Seq<Gene>, child: Seq<Gene>, a: int, b: int) -> bool {
    child == genes.update(a, genes[b]).update(b, genes[a])
}

/// The mutated genes and the two positions exchanged, which differ.
pub fn mutate_internal(genes: &[Gene], rng: &mut fastrand::Rng) -> (result: (Vec<Gene>, (usize, usize)))
    requires
        genes@.len() >= 2,
    ensures
        result.1.0 < genes@.len(),
        result.1.1 < genes@.len(),
        result.1.0 != result.1.1,
        swapped(genes@, result.0@, result.1.0 as int, result.1.1 as int),
{
    let a = rng_below(rng, genes.len());
    let b = rng_below(rng, genes.len() - 1);
    swap_drawn(genes, a, b)
}

/// The genes with two drawn cells exchanged: `a`, drawn among all cells,
/// and `b`, drawn among the others (counted past `a`).
pub fn swap_drawn(genes: &[Gene], a: usize, b: usize) -> (result: (Vec<Gene>, (usize, usize)))
    requires
        genes@.len() >= 2,
        a < genes@.len(),
        b < genes@.len() - 1,
    ensures
        result.1.0 == a,
        result.1.1 == if b >= a { b + 1 } else { b as int },
        swapped(genes@, result.0@, result.1.0 as int, result.1.1 as int),
{
    let n = genes.len();
    assert(b + 1 < n);
    let b = if b >= a {
        b + 1
    } else {
        b
    };
    let mut child = copy_of(genes);
    let gene_a = child[a];
    let gene_b = child[b];
    child.set(a, gene_b);
    child.set(b, gene_a);
    (child, (a, b))
}

/// Performs swap mutation: exchanges two random genes.
pub fn swap_mutate(genes: &[Gene], rng: &mut fastrand::Rng) -> (result: Vec<Gene>)
    requires
        genes@.len() >= 2,
    ensures
        exists|a: int, b: int| 0 <= a < genes@.len() && 0 <= b < genes@.len() && a != b && swapped(genes@, result@, a, b),
{
    let (child, (a, b)) = mutate_internal(genes, rng);
    proof {
        assert(swapped(genes@, child@, a as int, b as int));
    }
    child
}

/// Swapping the same two positions twice gives the genes back.
pub proof fn swapping_twice_restores(genes: Seq<Gene>, once: Seq<Gene>, twice: Seq<Gene>, a: int, b: int)
    requires
        0 <= a < genes.len(),
        0 <= b < genes.len(),
        swapped(genes, once, a, b),
        swapped(once, twice, a, b),
    ensures
        twice == genes,
{
    assert(twice =~= genes);
}

/// A swap keeps every gene: the child is a rearrangement of the parent.
pub proof fn swapping_keeps_every_gene(genes: Seq<Gene>, child: Seq<Gene>, a: int, b: int)
    requires
        0 <= a < genes.len(),
        0 <= b < genes.len(),
        swapped(genes, child, a, b),
    ensures
        rearranges(genes, child),
{
    let from = Seq::new(genes.len(), |i: int| if i == a { b } else if i == b { a } else { i });
    assert(from.no_duplicates());
    assert(forall|i: int| 0 <= i < from.len() ==> 0 <= #[trigger] from[i] < genes.len() && child[i] == genes[from[i]]);
}

} // verus!
