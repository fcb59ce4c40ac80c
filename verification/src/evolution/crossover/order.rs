//! Order crossover (OX) of two gene sequences.

use vstd::prelude::*;

use fixedbitset::FixedBitSet;

use crate::gene::{lemma_index_identifies, Gene};
use crate::rng::rng_below;

verus! {

/// `fixedbitset::FixedBitSet`: a fixed number of bits, each on or off.
#[verifier::external_type_specification]
#[verifier::external_body]
pub struct ExFixedBitSet(FixedBitSet);

/// The bits of a `FixedBitSet` that are on.
pub uninterp spec fn bitset_bits(set: FixedBitSet) -> Set<usize>;

/// The number of bits a `FixedBitSet` holds, on or off.
pub uninterp spec fn bitset_len(set: FixedBitSet) -> usize;

/// `FixedBitSet::with_capacity`: `bits` bits, all off.
pub assume_specification[ FixedBitSet::with_capacity ](bits: usize) -> (result: FixedBitSet)
    ensures
        bitset_bits(result) == Set::<usize>::empty(),
        bitset_len(result) == bits,
;

/// `FixedBitSet::insert`: turns one bit on; it panics on a bit past the end.
pub assume_specification[ FixedBitSet::insert ](set: &mut FixedBitSet, k: usize)
    requires
        k < bitset_len(*old(set)),
    ensures
        bitset_bits(*final(set)) == bitset_bits(*old(set)).insert(k),
        bitset_len(*final(set)) == bitset_len(*old(set)),
;

/// `FixedBitSet::contains`: whether a bit is on; a bit past the end is off.
pub assume_specification[ FixedBitSet::contains ](set: &FixedBitSet, k: usize) -> (result: bool)
    ensures
        result == (k < bitset_len(*set) && bitset_bits(*set).contains(k)),
;

/// The indices of the genes of `parent1` from `start` to `end`.
pub open spec fn segment_indices(parent1: Seq<Gene>, start: int, end: int) -> Set<usize> {
    Set::new(|x: usize| exists|k: int| start <= k <= end && #[trigger] parent1[k].spec_index() == x)
}

/// The genes of `parent2`, in order, whose index is not in the segment.
pub open spec fn outside_segment(parent1: Seq<Gene>, parent2: Seq<Gene>, start: int, end: int) -> Seq<Gene> {
    parent2.filter(|g: Gene| !segment_indices(parent1, start, end).contains(g.spec_index()))
}

/// The child of order crossover for the segment from `start` to `end`: the
/// segment of `parent1` in place, the other positions filled left to right
/// with the genes of `parent2` outside the segment, in their order.
pub open spec fn order_child(parent1: Seq<Gene>, parent2: Seq<Gene>, start: int, end: int) -> Seq<Gene> {
    let rest = outside_segment(parent1, parent2, start, end);
    Seq::new(
        parent1.len(),
        |i: int|
            if start <= i <= end {
                parent1[i]
            } else if i < start {
                rest[i]
            } else {
                rest[i - (end - start + 1)]
            },
    )
}

/// Order crossover can use the segment from `start` to `end`: every index in
/// it fits the child, and `parent2` has enough genes outside it to fill the
/// other positions.
pub open spec fn segment_fits(parent1: Seq<Gene>, parent2: Seq<Gene>, start: int, end: int) -> bool {
    &&& forall|k: int| start <= k <= end ==> (#[trigger] parent1[k]).spec_index() < parent1.len()
    &&& outside_segment(parent1, parent2, start, end).len() >= parent1.len() - (end - start + 1)
}

/// Keeping only some items of a sequence without repeats leaves no repeats.
proof fn lemma_filter_keeps_distinct(items: Seq<Gene>, keep: spec_fn(Gene) -> bool)
    requires
        items.no_duplicates(),
    ensures
        items.filter(keep).no_duplicates(),
    decreases items.len(),
{
    reveal_with_fuel(Seq::filter, 1);
    if items.len() > 0 {
        let rest = items.drop_last();
        lemma_filter_keeps_distinct(rest, keep);
        if keep(items.last()) {
            if rest.filter(keep).contains(items.last()) {
                rest.lemma_filter_contains_rev(keep, items.last());
                let k = choose|k: int| 0 <= k < rest.len() && rest[k] == items.last();
                assert(items[k] == items[items.len() - 1]);
            }
        }
    }
}

/// Order crossover of two permutations of the same genes is again a
/// permutation of them: no gene twice, every gene once.
pub proof fn order_child_is_a_permutation(parent1: Seq<Gene>, parent2: Seq<Gene>, start: int, end: int)
    requires
        0 <= start <= end < parent1.len(),
        parent2.len() == parent1.len(),
        parent1.no_duplicates(),
        parent2.no_duplicates(),
        parent1.to_set() == parent2.to_set(),
    ensures
        outside_segment(parent1, parent2, start, end).len() == parent1.len() - (end - start + 1),
        order_child(parent1, parent2, start, end).len() == parent1.len(),
        order_child(parent1, parent2, start, end).no_duplicates(),
        order_child(parent1, parent2, start, end).to_set() == parent1.to_set(),
{
    let n = parent1.len();
    let span = end - start + 1;
    let seg = segment_indices(parent1, start, end);
    let keep = |g: Gene| !seg.contains(g.spec_index());
    let rest = outside_segment(parent1, parent2, start, end);
    let picked = parent1.subrange(start, end + 1);
    let everything = parent2.to_set();
    let chosen = picked.to_set();
    assert(rest == parent2.filter(keep));
    // A gene's index is in the segment exactly when the gene is.
    assert forall|g: Gene| #[trigger] chosen.contains(g) <==> seg.contains(g.spec_index()) by {
        if seg.contains(g.spec_index()) {
            let k = choose|k: int| start <= k <= end && #[trigger] parent1[k].spec_index() == g.spec_index();
            lemma_index_identifies(parent1[k], g);
            assert(picked[k - start] == g);
        }
        if chosen.contains(g) {
            let k = choose|k: int| 0 <= k < picked.len() && picked[k] == g;
            assert(parent1[start + k] == g);
        }
    }
    // What is left of `parent2` is every gene but the chosen ones.
    lemma_filter_keeps_distinct(parent2, keep);
    assert forall|g: Gene| #[trigger] rest.to_set().contains(g) <==> everything.difference(chosen).contains(g) by {
        if rest.contains(g) {
            parent2.lemma_filter_contains_rev(keep, g);
            let k = choose|k: int| 0 <= k < rest.len() && rest[k] == g;
            parent2.lemma_filter_pred(keep, k);
        }
        if everything.contains(g) && !chosen.contains(g) {
            let k = choose|k: int| 0 <= k < parent2.len() && parent2[k] == g;
            parent2.lemma_filter_contains(keep, k);
        }
    }
    assert(rest.to_set() =~= everything.difference(chosen));
    assert(picked.no_duplicates());
    picked.unique_seq_to_set();
    parent2.unique_seq_to_set();
    rest.unique_seq_to_set();
    vstd::seq_lib::seq_to_set_is_finite(picked);
    vstd::seq_lib::seq_to_set_is_finite(parent2);
    assert(chosen.subset_of(everything)) by {
        assert forall|g: Gene| chosen.contains(g) implies everything.contains(g) by {
            let k = choose|k: int| 0 <= k < picked.len() && picked[k] == g;
            assert(parent1[start + k] == g);
            assert(parent1.to_set().contains(g));
        }
    }
    vstd::set_lib::lemma_set_difference_len(everything, chosen);
    assert(everything.intersect(chosen) =~= chosen);
    assert(rest.len() == n - span);

    let child = order_child(parent1, parent2, start, end);
    assert forall|a: int, b: int| 0 <= a < child.len() && 0 <= b < child.len() && a != b implies child[a]
        != child[b] by {
        let ra = if a < start { a } else { a - span };
        let rb = if b < start { b } else { b - span };
        if start <= a <= end && start <= b <= end {
        } else if start <= a <= end {
            assert(chosen.contains(child[a])) by {
                assert(picked[a - start] == child[a]);
            }
            assert(rest.contains(rest[rb]));
            assert(!chosen.contains(child[b]));
        } else if start <= b <= end {
            assert(chosen.contains(child[b])) by {
                assert(picked[b - start] == child[b]);
            }
            assert(rest.contains(rest[ra]));
            assert(!chosen.contains(child[a]));
        } else {
            assert(ra != rb);
        }
    }
    assert forall|g: Gene| child.to_set().contains(g) implies parent1.to_set().contains(g) by {
        let i = choose|i: int| 0 <= i < child.len() && child[i] == g;
        if !(start <= i <= end) {
            let r = if i < start { i } else { i - span };
            assert(rest[r] == g);
            assert(rest.contains(g));
            parent2.lemma_filter_contains_rev(keep, g);
            assert(everything.contains(g));
        } else {
            assert(parent1.contains(g));
        }
    }
    child.unique_seq_to_set();
    parent1.unique_seq_to_set();
    vstd::seq_lib::seq_to_set_is_finite(child);
    vstd::seq_lib::seq_to_set_is_finite(parent1);
    vstd::set_lib::lemma_subset_equality(child.to_set(), parent1.to_set());
}

/// Two permutations of the same genes, each gene's index below their
/// length, fit order crossover with any segment.
pub proof fn permutations_fit_every_segment(parent1: Seq<Gene>, parent2: Seq<Gene>)
    requires
        parent2.len() == parent1.len(),
        parent1.no_duplicates(),
        parent2.no_duplicates(),
        parent1.to_set() == parent2.to_set(),
        forall|k: int| 0 <= k < parent1.len() ==> (#[trigger] parent1[k]).spec_index() < parent1.len(),
    ensures
        forall|start: int, end: int|
            0 <= start <= end < parent1.len() ==> #[trigger] segment_fits(parent1, parent2, start, end),
{
    assert forall|start: int, end: int| 0 <= start <= end < parent1.len() implies #[trigger] segment_fits(
        parent1,
        parent2,
        start,
        end,
    ) by {
        order_child_is_a_permutation(parent1, parent2, start, end);
    }
}

/// The child of order crossover for a segment drawn at random, and that
/// segment.
pub fn crossover_internal(parent1: &[Gene], parent2: &[Gene], rng: &mut fastrand::Rng) -> (result: (
    Vec<Gene>,
    (usize, usize),
))
    requires
        parent1@.len() > 0,
        forall|start: int, end: int|
            0 <= start <= end < parent1@.len() ==> #[trigger] segment_fits(parent1@, parent2@, start, end),
    ensures
        result.1.0 <= result.1.1 < parent1@.len(),
        result.0@ == order_child(parent1@, parent2@, result.1.0 as int, result.1.1 as int),
{
    let size = parent1.len();
    let a = rng_below(rng, size);
    let b = rng_below(rng, size);
    crossover_drawn(parent1, parent2, a, b)
}

/// The child of order crossover for the segment between two drawn cells
/// `a` and `b`: it runs from the lower of the two to the higher.
pub fn crossover_drawn(parent1: &[Gene], parent2: &[Gene], a: usize, b: usize) -> (result: (Vec<Gene>, (usize, usize)))
    requires
        a < parent1@.len(),
        b < parent1@.len(),
        forall|start: int, end: int|
            0 <= start <= end < parent1@.len() ==> #[trigger] segment_fits(parent1@, parent2@, start, end),
    ensures
        result.1.0 == if a <= b { a } else { b },
        result.1.1 == if a <= b { b } else { a },
        result.0@ == order_child(parent1@, parent2@, result.1.0 as int, result.1.1 as int),
{
    let size = parent1.len();
    let (start, end) = if a <= b {
        (a, b)
    } else {
        (b, a)
    };
    assert(segment_fits(parent1@, parent2@, start as int, end as int));
    let ghost seg = segment_indices(parent1@, start as int, end as int);

    let mut segment = FixedBitSet::with_capacity(size);
    let mut k: usize = start;
    while k <= end
        invariant
            start <= k <= end + 1,
            end < size == parent1@.len(),
            segment_fits(parent1@, parent2@, start as int, end as int),
            bitset_len(segment) == size,
            bitset_bits(segment) == Set::new(
                |x: usize| exists|m: int| start <= m < k && #[trigger] parent1@[m].spec_index() == x,
            ),
        decreases end + 1 - k,
    {
        let ghost before = bitset_bits(segment);
        let index = parent1[k].index();
        segment.insert(index);
        assert(bitset_bits(segment) =~= Set::new(
            |x: usize| exists|m: int| start <= m < k + 1 && #[trigger] parent1@[m].spec_index() == x,
        )) by {
            assert forall|x: usize| (exists|m: int| start <= m < k + 1 && #[trigger] parent1@[m].spec_index() == x)
                implies #[trigger] bitset_bits(segment).contains(x) by {
                let m = choose|m: int| start <= m < k + 1 && #[trigger] parent1@[m].spec_index() == x;
                if m < k {
                    assert(before.contains(x));
                }
            }
        }
        k = k + 1;
    }
    assert(bitset_bits(segment) =~= seg);
    let ghost keep = |g: Gene| !seg.contains(g.spec_index());

    let mut remaining: Vec<Gene> = Vec::new();
    let mut j: usize = 0;
    while j < parent2.len()
        invariant
            j <= parent2@.len(),
            end < size == parent1@.len(),
            bitset_len(segment) == size,
            bitset_bits(segment) == seg,
            seg == segment_indices(parent1@, start as int, end as int),
            forall|x: usize| #[trigger] seg.contains(x) ==> x < size,
            keep == (|g: Gene| !seg.contains(g.spec_index())),
            remaining@ == parent2@.subrange(0, j as int).filter(keep),
        decreases parent2@.len() - j,
    {
        let gene = parent2[j];
        let ghost prefix = parent2@.subrange(0, j + 1);
        assert(prefix.drop_last() == parent2@.subrange(0, j as int));
        assert(prefix.last() == gene);
        proof {
            reveal_with_fuel(Seq::filter, 1);
        }
        if !segment.contains(gene.index()) {
            remaining.push(gene);
        }
        j = j + 1;
    }
    assert(parent2@.subrange(0, parent2@.len() as int) == parent2@);
    assert(remaining@ == outside_segment(parent1@, parent2@, start as int, end as int));

    let mut child: Vec<Gene> = Vec::new();
    let mut next: usize = 0;
    let mut i: usize = 0;
    while i < size
        invariant
            i <= size == parent1@.len(),
            start <= end < size,
            remaining@ == outside_segment(parent1@, parent2@, start as int, end as int),
            remaining@.len() >= size - (end - start + 1),
            next == if i <= start { i as int } else if i <= end + 1 { start as int } else { i - (end - start + 1) },
            child@.len() == i,
            forall|m: int| 0 <= m < i ==> #[trigger] child@[m] == order_child(parent1@, parent2@, start as int, end as int)[m],
        decreases size - i,
    {
        if start <= i && i <= end {
            child.push(parent1[i]);
        } else {
            child.push(remaining[next]);
            next = next + 1;
        }
        i = i + 1;
    }
    assert(child@ =~= order_child(parent1@, parent2@, start as int, end as int));
    (child, (start, end))
}

/// Performs order crossover (OX) on two parent gene sequences.
///
/// Copies a random segment from parent1, then fills remaining positions
/// with elements from parent2 in order, skipping those already in the
/// segment.
pub fn order_crossover(parent1: &[Gene], parent2: &[Gene], rng: &mut fastrand::Rng) -> (result: Vec<Gene>)
    requires
        parent1@.len() > 0,
        forall|start: int, end: int|
            0 <= start <= end < parent1@.len() ==> #[trigger] segment_fits(parent1@, parent2@, start, end),
    ensures
        exists|start: int, end: int|
            0 <= start <= end < parent1@.len() && result@ == order_child(parent1@, parent2@, start, end),
{
    let (child, (start, end)) = crossover_internal(parent1, parent2, rng);
    proof {
        assert(child@ == order_child(parent1@, parent2@, start as int, end as int));
    }
    child
}

} // verus!
