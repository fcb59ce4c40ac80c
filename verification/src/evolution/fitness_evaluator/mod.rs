//! Ways of measuring how good a strategy is.

pub mod minimax;
pub mod tournament;
