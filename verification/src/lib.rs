//! A verified solver for 9x9 Latin-square puzzles with 3x3 sub-regions.
//!
//! The library parses an 81-character puzzle description into a [`Puzzle`],
//! narrows per-cell candidate sets by peer exclusion (`sweep`), enumerates
//! completions with a bounded backtracking search (`recursive_solve`), and
//! reduces a solved grid to a smaller set of givens while keeping the
//! solution unique (`minimize_puzzle`).

pub mod cell;
pub mod grid;
pub mod laws;
pub mod minimize;
pub mod propagate;
pub mod solve;

pub use cell::Cell;
pub use cell::CellModel;
pub use cell::SolvedCell;
pub use grid::Puzzle;
