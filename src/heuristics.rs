//! Heuristics for the A* solver.
use vstd::prelude::*;

pub mod disjoint_databases;
pub mod dumb_heuristic;
pub mod manhattan_distance;

pub use disjoint_databases::DisjointDatabases;
pub use manhattan_distance::ManhattanDistance;

use crate::puzzle_state::{grid_of, valid_board, Grid};

verus! {

/// An estimate of the number of moves that a board needs to reach the solved board.
pub trait Heuristic<const PUZZLE_SIZE: usize> {
    /// The estimate given for board `g`.
    spec fn estimate(&self, g: Grid) -> int;

    /// The heuristic is ready for use.
    spec fn ready(&self) -> bool;

    /// Calculates the estimate for the board `numbers`.
    fn calculate(&self, numbers: &[[Option<u8>; PUZZLE_SIZE]; PUZZLE_SIZE]) -> (r: u8)
        requires
            self.ready(),
            2 <= PUZZLE_SIZE <= 4,
            valid_board(grid_of(*numbers), PUZZLE_SIZE as int),
        ensures
            r as int == self.estimate(grid_of(*numbers)),
    ;
}

} // verus!
