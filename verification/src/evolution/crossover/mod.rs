//! Ways of combining two parents into a child.

pub mod order;
pub mod pmx;
pub mod uniform;

use vstd::prelude::*;

verus! {

/// Crossover method for genetic algorithms.
#[derive(Debug, Default, Clone, Copy, PartialEq, Eq, Structural)]
pub enum Crossover {
    /// Each number is taken from one parent or the other at random.
    #[default]
    Uniform,
}

} // verus!
