//! Minimax search with alpha-beta pruning over an incrementally evaluated
//! board.

pub mod bits;
pub mod evaluate;
pub mod lines;
pub mod patterns;
pub mod score;
pub mod search;
pub mod search_state;
pub mod strategy;
pub mod threats;
pub mod tt;
