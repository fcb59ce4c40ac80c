//! The genetic operators and fitness measures used to evolve strategies.

pub mod crossover;
pub mod fitness_evaluator;
pub mod mutation;
pub mod selection;

use vstd::prelude::*;

verus! {

/// A copy of `items`, element for element.
pub(crate) fn copy_of<T: Copy>(items: &[T]) -> (result: Vec<T>)
    ensures
        result@ == items@,
{
    let mut result: Vec<T> = Vec::new();
    let mut i: usize = 0;
    while i < items.len()
        invariant
            i <= items@.len(),
            result@ == items@.subrange(0, i as int),
        decreases items@.len() - i,
    {
        result.push(items[i]);
        i = i + 1;
    }
    result
}

} // verus!
