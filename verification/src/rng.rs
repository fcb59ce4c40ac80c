//! The random number generator of the `fastrand` crate, as the search, the
//! games and the genetic operators use it.

use vstd::prelude::*;

verus! {

/// `fastrand::Rng`: a small seeded pseudo-random generator.
#[verifier::external_type_specification]
#[verifier::external_body]
pub struct ExRng(fastrand::Rng);

/// Calls `fastrand::Rng::with_seed`: a generator whose sequence depends on
/// the seed alone. Nothing is claimed about the values it will produce.
#[verifier::external_body]
pub(crate) fn rng_with_seed(seed: u64) -> fastrand::Rng {
    fastrand::Rng::with_seed(seed)
}

/// The state of a wyrand generator made from `seed` when it makes its
/// value after `count` earlier ones: each value first adds the generator's
/// increment to the state, wrapping.
pub closed spec fn wyrand_state(seed: u64, count: nat) -> u64 {
    ((seed + (count + 1) * 0x2d35_8dcc_aa6c_78a5) % 0x1_0000_0000_0000_0000) as u64
}

/// The value that `fastrand::Rng::u64` over the full range gives after
/// `count` earlier such calls on a generator made by
/// `fastrand::Rng::with_seed(seed)`: one wyrand step, the 128-bit product
/// of the state and the state xored with the generator's mixing constant,
/// its low and high halves xored.
pub closed spec fn seeded_u64(seed: u64, count: nat) -> u64 {
    let s = wyrand_state(seed, count);
    let t = (s as nat) * ((s ^ 0x8bb8_4b93_962e_acc9u64) as nat);
    ((t % 0x1_0000_0000_0000_0000) as u64) ^ ((t / 0x1_0000_0000_0000_0000) as u64)
}

/// A `fastrand` generator made from a known seed, with how many values have
/// been drawn from it.
pub(crate) struct SeededRng {
    rng: fastrand::Rng,
    seed: Ghost<u64>,
    drawn: Ghost<nat>,
}

impl SeededRng {
    pub(crate) closed spec fn spec_seed(&self) -> u64 {
        self.seed@
    }

    pub(crate) closed spec fn spec_drawn(&self) -> nat {
        self.drawn@
    }

    /// A generator made from `seed`, nothing drawn yet.
    pub(crate) fn new(seed: u64) -> (result: Self)
        ensures
            result.spec_seed() == seed,
            result.spec_drawn() == 0,
    {
        SeededRng { rng: rng_with_seed(seed), seed: Ghost(seed), drawn: Ghost(0nat) }
    }
}

/// Calls `fastrand::Rng::u64` over the full range on a generator made from a
/// known seed: the next value of that seed's sequence.
#[verifier::external_body]
pub(crate) fn rng_u64(rng: &mut SeededRng) -> (result: u64)
    ensures
        result == seeded_u64(old(rng).spec_seed(), old(rng).spec_drawn()),
        final(rng).spec_seed() == old(rng).spec_seed(),
        final(rng).spec_drawn() == old(rng).spec_drawn() + 1,
{
    rng.rng.u64(..)
}

/// Calls `fastrand::Rng::usize` on `0..bound`, which panics on an empty
/// range; the result lies in the range.
#[verifier::external_body]
pub(crate) fn rng_below(rng: &mut fastrand::Rng, bound: usize) -> (result: usize)
    requires
        bound > 0,
    ensures
        result < bound,
{
    rng.usize(..bound)
}

/// Calls `fastrand::Rng::bool`; either value may come out.
#[verifier::external_body]
pub(crate) fn rng_bool(rng: &mut fastrand::Rng) -> bool {
    rng.bool()
}

/// Calls `fastrand::Rng::shuffle`, which only exchanges items of the
/// slice: the items come back in some order, each as often as before.
#[verifier::external_body]
pub(crate) fn rng_shuffle<T>(rng: &mut fastrand::Rng, items: &mut Vec<T>)
    ensures
        final(items)@.to_multiset() == old(items)@.to_multiset(),
{
    rng.shuffle(items);
}

/// Every item of a shuffled sequence was an item before.
pub(crate) proof fn lemma_shuffled_items<T>(before: Seq<T>, after: Seq<T>)
    requires
        after.to_multiset() == before.to_multiset(),
    ensures
        after.len() == before.len(),
        forall|k: int| 0 <= k < after.len() ==> before.contains(#[trigger] after[k]),
{
    before.to_multiset_ensures();
    after.to_multiset_ensures();
    assert forall|k: int| 0 <= k < after.len() implies before.contains(#[trigger] after[k]) by {
        let x = after[k];
        assert(after.contains(x));
        assert(after.to_multiset().count(x) > 0);
        assert(before.to_multiset().count(x) > 0);
    }
}

} // verus!
