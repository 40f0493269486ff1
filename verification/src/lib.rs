//! A Sudoku solver built on constraint propagation and backtracking search.
//!
//! A grid is 81 cells; each cell holds a bitmask of the digits 1..9 that are
//! still possible there. Assigning a digit to a cell removes it from the 20
//! peer cells sharing the cell's row, column, or box, cascading whenever a
//! peer collapses to a single candidate. Search picks the unsolved cell with
//! the fewest candidates and tries each in turn on an independent copy.

pub mod cell;
pub mod peers;
pub mod puzzle;
pub mod text;
