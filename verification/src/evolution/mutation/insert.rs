//! Insert mutation: one gene moved to another place.

use vstd::prelude::*;

use crate::evolution::copy_of;
use crate::evolution::mutation::rearranges;
use crate::gene::Gene;
use crate::rng::rng_below;

verus! {

/// `child` is `genes` with the gene at `from` taken out and put back at `to`.
pub open spec fn moved(genes: Seq<Gene>, child: Seq<Gene>, from: int, to: int) -> bool {
    child == genes.remove(from).insert(to, genes[from])
}

/// The mutated genes and the positions the gene moved from and to, which
/// differ.
pub fn mutate_internal(genes: &[Gene], rng: &mut fastrand::Rng) -> (result: (Vec<Gene>, (usize, usize)))
    requires
        genes@.len() >= 2,
    ensures
        result.1.0 < genes@.len(),
        result.1.1 < genes@.len(),
        result.1.0 != result.1.1,
        moved(genes@, result.0@, result.1.0 as int, result.1.1 as int),
{
    let from = rng_below(rng, genes.len());
    let to = rng_below(rng, genes.len() - 1);
    move_drawn(genes, from, to)
}

/// The genes with the gene at `from`, drawn among all cells, moved to `to`,
/// drawn among the others (counted past `from`).
pub fn move_drawn(genes: &[Gene], from: usize, to: usize) -> (result: (Vec<Gene>, (usize, usize)))
    requires
        genes@.len() >= 2,
        from < genes@.len(),
        to < genes@.len() - 1,
    ensures
        result.1.0 == from,
        result.1.1 == if to >= from { to + 1 } else { to as int },
        moved(genes@, result.0@, result.1.0 as int, result.1.1 as int),
{
    let n = genes.len();
    assert(to + 1 < n);
    let to = if to >= from {
        to + 1
    } else {
        to
    };
    let mut child = copy_of(genes);
    let element = child.remove(from);
    child.insert(to, element);
    (child, (from, to))
}

/// Performs insert mutation: removes a gene and reinserts it at a different
/// position.
pub fn insert_mutate(genes: &[Gene], rng: &mut fastrand::Rng) -> (result: Vec<Gene>)
    requires
        genes@.len() >= 2,
    ensures
        exists|from: int, to: int|
            0 <= from < genes@.len() && 0 <= to < genes@.len() && from != to && moved(genes@, result@, from, to),
{
    let (child, (from, to)) = mutate_internal(genes, rng);
    proof {
        assert(moved(genes@, child@, from as int, to as int));
    }
    child
}

/// Moving a gene and then moving it back gives the genes back.
pub proof fn moving_back_restores(genes: Seq<Gene>, once: Seq<Gene>, twice: Seq<Gene>, from: int, to: int)
    requires
        0 <= from < genes.len(),
        0 <= to < genes.len(),
        moved(genes, once, from, to),
        moved(once, twice, to, from),
    ensures
        twice == genes,
{
    assert(once[to] == genes[from]);
    assert(twice =~= genes);
}

/// Moving a gene keeps every gene: the child is a rearrangement of the
/// parent.
pub proof fn moving_keeps_every_gene(genes: Seq<Gene>, child: Seq<Gene>, from: int, to: int)
    requires
        0 <= from < genes.len(),
        0 <= to < genes.len(),
        moved(genes, child, from, to),
    ensures
        rearranges(genes, child),
{
    let source = Seq::new(
        genes.len(),
        |i: int|
            if i == to {
                from
            } else if from < to && from <= i < to {
                i + 1
            } else if to < from && to < i <= from {
                i - 1
            } else {
                i
            },
    );
    assert(source.no_duplicates());
    assert(forall|i: int|
        0 <= i < source.len() ==> 0 <= #[trigger] source[i] < genes.len() && child[i] == genes[source[i]]);
}

} // verus!
