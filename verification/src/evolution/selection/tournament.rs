//! Tournament selection: the fittest of a random sample.

use vstd::prelude::*;

use crate::rng::{rng_below, rng_shuffle};

use super::{fitnesses_of, HasFitness};

verus! {

/// How tournament selection draws the individuals it compares.
#[derive(Debug, Clone, Copy, PartialEq, Eq, Structural)]
pub enum TournamentMode {
    /// The same individual may be drawn more than once.
    WithReplacement,
    /// Every drawn individual is distinct.
    WithoutReplacement,
}

/// `best` is drawn, nobody drawn before it is fitter, and everybody drawn
/// after it is less fit: the last of the fittest drawn.
pub open spec fn last_fittest(fitnesses: Seq<u32>, drawn: Seq<usize>, best: usize) -> bool {
    exists|m: int|
        0 <= m < drawn.len() && #[trigger] drawn[m] == best && (forall|k: int|
            0 <= k < m ==> fitnesses[#[trigger] drawn[k] as int] <= fitnesses[best as int]) && (forall|k: int|
            m < k < drawn.len() ==> fitnesses[#[trigger] drawn[k] as int] < fitnesses[best as int])
}

/// What a tournament of `size` in `mode` may draw from a population of `n`:
/// `size` indices below `n`, all different without replacement.
pub open spec fn possible_draw(mode: TournamentMode, size: nat, n: nat, drawn: Seq<usize>) -> bool {
    &&& drawn.len() == size
    &&& forall|k: int| 0 <= k < drawn.len() ==> #[trigger] drawn[k] < n
    &&& mode == TournamentMode::WithoutReplacement ==> drawn.no_duplicates()
}

/// Tournament selection: selects the best individual from a random sample.
#[derive(Debug, Clone, Copy, PartialEq, Eq, Structural)]
pub struct Tournament {
    size: usize,
    mode: TournamentMode,
}

impl Tournament {
    pub closed spec fn spec_size(self) -> usize {
        self.size
    }

    pub closed spec fn spec_mode(self) -> TournamentMode {
        self.mode
    }

    pub fn new(size: usize, mode: TournamentMode) -> (result: Self)
        ensures
            result.spec_size() == size,
            result.spec_mode() == mode,
    {
        Tournament { size, mode }
    }

    /// The index of the fittest of `size` individuals drawn at random, by
    /// their fitnesses; among equally fit ones, the last drawn. Without
    /// replacement a tournament as large as the population always finds a
    /// fittest individual.
    pub fn select_by_fitness(&self, fitnesses: &[u32], rng: &mut fastrand::Rng) -> (result: usize)
        requires
            0 < self.spec_size() <= fitnesses@.len(),
        ensures
            result < fitnesses@.len(),
            exists|drawn: Seq<usize>|
                possible_draw(self.spec_mode(), self.spec_size() as nat, fitnesses@.len(), drawn) && last_fittest(
                    fitnesses@,
                    drawn,
                    result,
                ),
            self.spec_mode() == TournamentMode::WithoutReplacement && self.spec_size() == fitnesses@.len() ==> forall|
                i: int,
            | 0 <= i < fitnesses@.len() ==> fitnesses@[i] <= fitnesses@[result as int],
    {
        let n = fitnesses.len();
        match self.mode {
            TournamentMode::WithReplacement => {
                let mut drawn: Vec<usize> = Vec::new();
                let mut count: usize = 0;
                while count < self.size
                    invariant
                        count <= self.size,
                        n == fitnesses@.len(),
                        n > 0,
                        drawn@.len() == count,
                        forall|k: int| 0 <= k < drawn@.len() ==> #[trigger] drawn@[k] < n,
                    decreases self.size - count,
                {
                    drawn.push(rng_below(rng, n));
                    count = count + 1;
                }
                let best = fittest_drawn(fitnesses, &drawn, self.size);
                proof {
                    assert(drawn@.subrange(0, self.size as int) =~= drawn@);
                    assert(possible_draw(self.mode, self.size as nat, n as nat, drawn@));
                }
                best
            },
            TournamentMode::WithoutReplacement => {
                let mut indices: Vec<usize> = Vec::new();
                let mut i: usize = 0;
                while i < n
                    invariant
                        i <= n,
                        indices@ == Seq::new(i as nat, |k: int| k as usize),
                    decreases n - i,
                {
                    indices.push(i);
                    i = i + 1;
                }
                let ghost ordered = indices@;
                rng_shuffle(rng, &mut indices);
                proof {
                    ordered.to_multiset_ensures();
                    indices@.to_multiset_ensures();
                    assert(ordered.no_duplicates());
                    ordered.lemma_multiset_has_no_duplicates();
                    indices@.lemma_multiset_has_no_duplicates_conv();
                    assert forall|k: int| 0 <= k < indices@.len() implies #[trigger] indices@[k] < n by {
                        let x = indices@[k];
                        assert(indices@.contains(x));
                        assert(indices@.to_multiset().count(x) > 0);
                        assert(ordered.to_multiset().count(x) > 0);
                        assert(ordered.contains(x));
                    }
                    assert forall|m: int| 0 <= m < n implies #[trigger] indices@.contains(m as usize) by {
                        assert(ordered[m] == m as usize);
                        assert(ordered.contains(m as usize));
                        assert(ordered.to_multiset().count(m as usize) > 0);
                        assert(indices@.to_multiset().count(m as usize) > 0);
                    }
                }
                let best = fittest_drawn(fitnesses, &indices, self.size);
                let ghost drawn = indices@.subrange(0, self.size as int);
                proof {
                    assert(drawn.no_duplicates());
                    assert(possible_draw(self.mode, self.size as nat, n as nat, drawn));
                    if self.size == n {
                        let at = choose|m: int|
                            0 <= m < drawn.len() && #[trigger] drawn[m] == best && (forall|k: int|
                                0 <= k < m ==> fitnesses@[#[trigger] drawn[k] as int] <= fitnesses@[best as int]) && (
                            forall|k: int|
                                m < k < drawn.len() ==> fitnesses@[#[trigger] drawn[k] as int] < fitnesses@[best
                                    as int]);
                        assert forall|m: int| 0 <= m < n implies fitnesses@[m] <= fitnesses@[best as int] by {
                            assert(indices@.contains(m as usize));
                            let k = choose|k: int| 0 <= k < n && indices@[k] == m as usize;
                            assert(drawn[k] == indices@[k]);
                            if k < at {
                                assert(fitnesses@[drawn[k] as int] <= fitnesses@[best as int]);
                            } else if k > at {
                                assert(fitnesses@[drawn[k] as int] < fitnesses@[best as int]);
                            }
                        }
                    }
                }
                best
            },
        }
    }

    /// The index of the fittest of `size` individuals drawn from
    /// `population`; among equally fit ones, the last drawn.
    pub fn select<T: HasFitness>(&self, population: &[T], rng: &mut fastrand::Rng) -> (result: usize)
        requires
            0 < self.spec_size() <= population@.len(),
        ensures
            result < population@.len(),
            exists|drawn: Seq<usize>|
                possible_draw(self.spec_mode(), self.spec_size() as nat, population@.len(), drawn) && last_fittest(
                    fitnesses_of(population@),
                    drawn,
                    result,
                ),
            self.spec_mode() == TournamentMode::WithoutReplacement && self.spec_size() == population@.len() ==> forall|
                i: int,
            | 0 <= i < population@.len() ==> fitnesses_of(population@)[i] <= fitnesses_of(population@)[result as int],
    {
        let mut fitnesses: Vec<u32> = Vec::new();
        let mut i: usize = 0;
        while i < population.len()
            invariant
                i <= population@.len(),
                fitnesses@.len() == i,
                forall|j: int| 0 <= j < i ==> #[trigger] fitnesses@[j] == population@[j].spec_fitness(),
            decreases population@.len() - i,
        {
            fitnesses.push(population[i].fitness());
            i = i + 1;
        }
        assert(fitnesses@ == fitnesses_of(population@));
        self.select_by_fitness(&fitnesses, rng)
    }
}

/// The fittest of the first `count` individuals of `drawn`, by their
/// `fitnesses`; among equally fit ones, the last drawn.
pub fn fittest_drawn(fitnesses: &[u32], drawn: &Vec<usize>, count: usize) -> (result: usize)
    requires
        0 < count <= drawn@.len(),
        forall|k: int| 0 <= k < drawn@.len() ==> #[trigger] drawn@[k] < fitnesses@.len(),
    ensures
        result < fitnesses@.len(),
        last_fittest(fitnesses@, drawn@.subrange(0, count as int), result),
{
    let ghost first = drawn@.subrange(0, count as int);
    let mut best = drawn[0];
    let mut best_fitness = fitnesses[best];
    let ghost mut best_at: int = 0;
    let mut k: usize = 1;
    while k < count
        invariant
            1 <= k <= count <= drawn@.len(),
            first == drawn@.subrange(0, count as int),
            forall|j: int| 0 <= j < drawn@.len() ==> #[trigger] drawn@[j] < fitnesses@.len(),
            best < fitnesses@.len(),
            best_fitness == fitnesses@[best as int],
            0 <= best_at < k,
            drawn@[best_at] == best,
            forall|j: int| 0 <= j < best_at ==> fitnesses@[#[trigger] drawn@[j] as int] <= best_fitness,
            forall|j: int| best_at < j < k ==> fitnesses@[#[trigger] drawn@[j] as int] < best_fitness,
        decreases count - k,
    {
        let index = drawn[k];
        let fitness = fitnesses[index];
        if fitness >= best_fitness {
            best = index;
            best_fitness = fitness;
            proof {
                best_at = k as int;
            }
        }
        k = k + 1;
    }
    proof {
        assert(first[best_at] == best);
        assert forall|j: int| 0 <= j < best_at implies fitnesses@[#[trigger] first[j] as int] <= best_fitness by {
            assert(first[j] == drawn@[j]);
        }
        assert forall|j: int| best_at < j < first.len() implies fitnesses@[#[trigger] first[j] as int] < best_fitness by {
            assert(first[j] == drawn@[j]);
        }
    }
    best
}

impl Default for Tournament {
    /// Three individuals drawn with replacement.
    fn default() -> (result: Self)
        ensures
            result.spec_size() == 3,
            result.spec_mode() == TournamentMode::WithReplacement,
    {
        Tournament::new(3, TournamentMode::WithReplacement)
    }
}

} // verus!
