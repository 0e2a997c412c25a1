//! A verified 9x9 Sudoku core: board validity checking, solved-state
//! detection, and a backtracking solver that fills empty cells while
//! preserving the original clues.
//!
//! A board is a `[[u8; 9]; 9]` grid; `0` marks an empty cell and `1..=9`
//! a placed digit. The caller-facing boundary (argument handling, display)
//! lives outside this crate and hands the core plain grids.

pub mod board;
pub mod laws;
pub mod solver;
