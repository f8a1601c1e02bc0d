//! Placing non-attacking queens on a board: attack geometry, classification of placements,
//! symmetry reduction, and a best-first search for every solution.

use vstd::prelude::*;

pub mod position;
pub mod queen;
pub mod symmetry;
pub mod board;
pub mod checker;
pub mod visited;
pub mod frontier;
pub mod solver;
pub mod completeness;
pub mod solution_state;
pub mod render;

verus! {

/// The contents of one square of a board.
#[derive(Clone, Copy, Debug, PartialEq, Eq, Structural)]
pub enum Square {
    Empty,
    Queen,
}

} // verus!
