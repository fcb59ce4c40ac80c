//! Uniform crossover: each position from one parent or the other.

use vstd::prelude::*;

use crate::rng::rng_bool;

verus! {

/// Performs uniform crossover: for each position, randomly picks from
/// either parent.
pub fn uniform_crossover<T: Copy>(parent1: &[T], parent2: &[T], rng: &mut fastrand::Rng) -> (result: Vec<T>)
    requires
        parent1@.len() == parent2@.len(),
    ensures
        result@.len() == parent1@.len(),
        forall|i: int| 0 <= i < result@.len() ==> #[trigger] result@[i] == parent1@[i] || result@[i] == parent2@[i],
{
    let mut picks: Vec<bool> = Vec::new();
    let mut i: usize = 0;
    while i < parent1.len()
        invariant
            i <= parent1@.len(),
            picks@.len() == i,
        decreases parent1@.len() - i,
    {
        picks.push(rng_bool(rng));
        i = i + 1;
    }
    crossover_picked(parent1, parent2, &picks)
}

/// The child that takes each position from `parent1` where `picks` says so
/// and from `parent2` elsewhere.
pub fn crossover_picked<T: Copy>(parent1: &[T], parent2: &[T], picks: &Vec<bool>) -> (result: Vec<T>)
    requires
        parent1@.len() == parent2@.len(),
        picks@.len() == parent1@.len(),
    ensures
        result@.len() == parent1@.len(),
        forall|i: int| 0 <= i < result@.len() ==> #[trigger] result@[i] == if picks@[i] {
            parent1@[i]
        } else {
            parent2@[i]
        },
{
    let mut child: Vec<T> = Vec::new();
    let mut i: usize = 0;
    while i < parent1.len()
        invariant
            i <= parent1@.len() == parent2@.len() == picks@.len(),
            child@.len() == i,
            forall|k: int| 0 <= k < i ==> #[trigger] child@[k] == if picks@[k] {
                parent1@[k]
            } else {
                parent2@[k]
            },
        decreases parent1@.len() - i,
    {
        let value = if picks[i] {
            parent1[i]
        } else {
            parent2[i]
        };
        child.push(value);
        i = i + 1;
    }
    child
}

} // verus!
