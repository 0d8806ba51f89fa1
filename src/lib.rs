use vstd::prelude::*;

pub mod board;
pub mod generator;
pub mod solver;

pub use board::{Board, FieldRef};
pub use generator::generate;
pub use solver::{generate_solved, solve, SolverError};

verus! {

} // verus!
