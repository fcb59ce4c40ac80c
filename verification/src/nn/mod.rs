//! Board symmetries and the names of the board encoders.

pub mod board_symmetry;
pub mod cluster_expansion;
pub mod no_neighbors;
pub mod square3x3;
