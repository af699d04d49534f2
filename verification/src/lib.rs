//! Solving and generating 9x9 Sudoku puzzles, with machine-checked contracts.
//!
//! A grid is a plain `[[u8; 9]; 9]` in reading order; `0` marks a blank cell.

pub mod generate;
pub mod grid;
pub mod prelude;
pub mod search;
pub mod solver;
pub mod text;
pub mod validate;

pub use generate::{blank_col_in_order, blank_positions_in_order, blank_row_in_order};
pub use generate::{create_random_blank_col, create_random_blank_positions};
pub use generate::{create_random_blank_row, create_random_solution, generate, solution_in_order};
pub use generate::{MAX_BLANKS_TO_GENERATE, TARGET_BLANKS_TO_GENERATE};
pub use grid::{blanks, horizontal_slice, is_well_formed, square_slice, vertical_slice};
pub use grid::{Grid, GridPos, Puzzle, Solution};
pub use search::{count_solutions, find_solution, find_solutions};
pub use solver::{has_unique_solution, solve, solve_any};
pub use text::{grid_row_to_border_string, grid_to_border_string, grid_to_string};
pub use text::{lines_fit_grid, lines_to_grid, ParseError};
pub use validate::{is_valid_puzzle, slice_has_unique_digits};
