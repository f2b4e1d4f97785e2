//! Solver for Tumblestone puzzles: a board of colored and special stones that
//! must be cleared, three stones of one color at a time.

pub mod board;
pub mod solve;
pub mod parse;
