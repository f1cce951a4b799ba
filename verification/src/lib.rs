//! A solver for 9×9 Sudoku puzzles.
//!
//! A puzzle is solved by a depth-first search over its cells in row-major order. The
//! search keeps, for every row, column and 3×3 block, the set of digits that are still
//! missing there, so that the candidates of a cell are found by intersecting three
//! masks. Of all the solutions of a puzzle it finds the first one: the one that holds
//! the smallest digit in the first cell in which the solutions differ.
//!
//! - [`grid`] is the mathematical model of a grid and of its units.
//! - [`solution`] says what the solutions of a puzzle are and which of them is first.
//! - [`mask`] holds the sets of digits.
//! - [`board`] is the state of the search, and [`search`] the search itself.
//! - [`text`] reads and writes boards of characters: [`solve_sudoku`] solves one in
//!   place.
//! - [`laws`] states what holds of every call, and [`witness`] holds the solved grid
//!   that shows that the empty board can be solved.

pub mod board;
pub mod grid;
pub mod laws;
pub mod mask;
pub mod search;
pub mod solution;
pub mod text;
pub mod witness;

pub use board::BoardState;
pub use text::{solve_sudoku, SolveError};
