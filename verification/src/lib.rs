//! A 9x9 Sudoku solver: candidate cells, constraint propagation over rows,
//! columns and boxes, and a depth-first search that falls back on guessing.
//!
//! A puzzle is given as eighty-one numbers, row by row, zero for a blank.
//! `build_grid` turns them into a `Grid`, `unique_sets` gives the rows,
//! columns and boxes, and `try_solutions` returns the solved grid, or nothing
//! when the puzzle has no solution.

pub mod bits;
pub mod cascade;
pub mod cell;
pub mod grid;
pub mod groups;
pub mod laws;
pub mod search;

pub use crate::cell::{build_elem, Cell};
pub use crate::grid::{build_grid, Grid};
pub use crate::groups::unique_sets;
pub use crate::search::try_solutions;
