//! A solver for 9 by 9 Sudoku puzzles.
//!
//! A puzzle is a grid of 81 cells, each with the set of the digits that are
//! still possible in it. The solver removes candidates by propagation and
//! searches by backtracking where propagation alone does not decide.

pub mod bitcube;
pub mod topology;
pub mod rules;
pub mod puzzle;
pub mod parse;
pub mod global_pass;
pub mod pointwise_pass;
pub mod solve;

pub use bitcube::{BitCube, Cell};
pub use global_pass::update_constraints;
pub use parse::{parse_puzzle, ParseError};
pub use pointwise_pass::{make_choice, update_constraints_pointwise};
pub use puzzle::Puzzle;
pub use solve::{solve_puzzle, NoSolution};
pub use topology::Neighbors;
