//! Constraint-propagating backtracking solver for 16x16 grid puzzles, with
//! the planning half of a root-level parallel search and timing ratios.
pub mod board;
pub mod lemmas;
pub mod solver;
pub mod parallel;
pub mod metrics;
pub mod laws;
pub mod parse;
