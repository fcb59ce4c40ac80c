//! Choosing parents by fitness.

use vstd::prelude::*;

pub mod tournament;

use tournament::Tournament;

verus! {

/// Items that can be selected based on fitness.
pub trait HasFitness {
    /// The item's fitness, as `fitness` gives it.
    spec fn spec_fitness(&self) -> u32;

    fn fitness(&self) -> (result: u32)
        ensures
            result == self.spec_fitness(),
    ;
}

/// The fitnesses of `population`, in order.
pub open spec fn fitnesses_of<T: HasFitness>(population: Seq<T>) -> Seq<u32> {
    population.map_values(|item: T| item.spec_fitness())
}

/// The ways of selecting a parent.
#[derive(Debug, Clone, Copy, PartialEq, Eq, Structural)]
pub enum Selection {
    Tournament(Tournament),
}

impl Selection {
    /// Picks one member of `population`, returning its index.
    pub fn select<T: HasFitness>(&self, population: &[T], rng: &mut fastrand::Rng) -> (result: usize)
        requires
            match *self {
                Selection::Tournament(t) => 0 < t.spec_size() <= population@.len(),
            },
        ensures
            result < population@.len(),
            match *self {
                Selection::Tournament(t) => exists|drawn: Seq<usize>|
                    tournament::possible_draw(t.spec_mode(), t.spec_size() as nat, population@.len(), drawn)
                        && tournament::last_fittest(fitnesses_of(population@), drawn, result),
            },
    {
        match self {
            Selection::Tournament(tournament) => tournament.select(population, rng),
        }
    }
}

impl Default for Selection {
    fn default() -> (result: Self)
        ensures
            match result {
                Selection::Tournament(t) => t.spec_size() == 3 && t.spec_mode() == tournament::TournamentMode::WithReplacement,
            },
    {
        Selection::Tournament(Tournament::default())
    }
}

} // verus!
