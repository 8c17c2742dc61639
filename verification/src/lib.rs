//! A verified solver for 9x9 grid-uniqueness puzzles (classic Sudoku,
//! optionally extended with diagonal-uniqueness groups).
//!
//! The crate models a puzzle as a set of groups of nine cells, each of which
//! must hold the digits 1 through 9 exactly once, together with a partial set
//! of clues.  The solver either produces a complete assignment satisfying
//! every group, or proves that none exists.

pub mod typedefs;
pub mod state;
pub mod solve;
