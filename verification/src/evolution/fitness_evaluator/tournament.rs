//! Fitness by standing in a tournament.

use vstd::prelude::*;

verus! {

/// `ranked` lists each of the `n` strategies exactly once.
pub open spec fn ranks_everyone(ranked: Seq<usize>, n: nat) -> bool {
    &&& ranked.len() == n
    &&& ranked.no_duplicates()
    &&& forall|r: int| 0 <= r < ranked.len() ==> #[trigger] ranked[r] < n
}

/// The fitness of each strategy from the tournament's standings: `ranked`
/// holds the strategies' indices from first place down, and a strategy in
/// place `r` (from 0) scores the population size minus `r`.
pub fn fitness_by_rank(ranked: &[usize]) -> (result: Vec<u16>)
    requires
        ranks_everyone(ranked@, ranked@.len()),
        ranked@.len() <= u16::MAX,
    ensures
        result@.len() == ranked@.len(),
        forall|r: int| 0 <= r < ranked@.len() ==> #[trigger] result@[ranked@[r] as int] == ranked@.len() - r,
{
    let n = ranked.len();
    let mut scores: Vec<u16> = Vec::new();
    let mut i: usize = 0;
    while i < n
        invariant
            i <= n,
            n == ranked@.len(),
            scores@.len() == i,
        decreases n - i,
    {
        scores.push(0);
        i = i + 1;
    }
    let mut rank: usize = 0;
    while rank < n
        invariant
            rank <= n,
            n == ranked@.len(),
            n <= u16::MAX,
            scores@.len() == n,
            ranks_everyone(ranked@, n as nat),
            forall|r: int| 0 <= r < rank ==> #[trigger] scores@[ranked@[r] as int] == n - r,
        decreases n - rank,
    {
        let index = ranked[rank];
        let ghost before = scores@;
        scores.set(index, (n - rank) as u16);
        proof {
            assert forall|r: int| 0 <= r < rank + 1 implies #[trigger] scores@[ranked@[r] as int] == n - r by {
                if r < rank {
                    assert(ranked@[r] != ranked@[rank as int]);
                    assert(scores@[ranked@[r] as int] == before[ranked@[r] as int]);
                }
            }
        }
        rank = rank + 1;
    }
    scores
}

} // verus!
