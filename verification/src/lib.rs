//! Packing engine for the Calibron-12 puzzle: an occupancy board, rectangular
//! blocks with two orientations, and a backtracking search that tiles the
//! board.

pub mod block;
pub mod board;
pub mod grid;
pub mod layout;
pub mod rng;
pub mod solver;
pub mod tiling;
