//! A randomized self-avoiding walk on a square grid.
//!
//! The walk starts from a random cell and repeatedly extends into an
//! unoccupied neighboring cell, backtracking at dead ends, until it covers
//! every cell of the grid (or runs indefinitely if no covering walk is
//! reachable from the current state).

pub mod config;
pub mod grid;
mod rng;
