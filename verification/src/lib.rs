//! A 9x9 digit-grid engine: coordinate topology, pairwise conflict
//! validation, and deterministic singles propagation (no search).

pub mod board;
pub mod board_neighbours;
pub mod board_solving;
