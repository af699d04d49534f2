//! The items that most callers need.

pub use crate::generate::generate;
pub use crate::grid::{Grid, Puzzle, Solution};
pub use crate::solver::{solve, solve_any};
