//! Gomoku on a 15×15 board: the board and its rules, a threat-based
//! minimax search, games between strategies, board symmetries, and the
//! genetic operators and fitness measures used to evolve strategies.

pub mod board;
pub mod cache_repository;
pub mod evolution;
pub mod game;
pub mod game_state;
pub mod gene;
pub mod interactive_strategy;
pub mod match_result;
pub mod minimax;
pub mod neighbor_cache;
pub mod neighbor_counts_cache;
pub mod nn;
pub mod offset;
pub mod outcome;
pub mod position;
pub mod position_id;
mod rng;
pub mod stone;
pub mod strategy;
pub mod text;
