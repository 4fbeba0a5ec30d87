//! A blank move together with the board it leads to.
use vstd::prelude::*;

use super::direction::Direction;
use super::PuzzleState;

verus! {

/// Move of the blank in the sliding puzzle.
#[derive(Clone, Copy)]
pub struct Move<const PUZZLE_SIZE: usize> {
    direction: Direction,
    obtained_state: PuzzleState<PUZZLE_SIZE>,
}

impl<const PUZZLE_SIZE: usize> Move<PUZZLE_SIZE> {
    /// The direction in which the blank moved.
    pub closed spec fn direction_spec(&self) -> Direction {
        self.direction
    }

    /// The board after the move.
    pub closed spec fn state_spec(&self) -> PuzzleState<PUZZLE_SIZE> {
        self.obtained_state
    }

    /// Splits the move into its direction and the board it leads to.
    pub fn into_direction_and_puzzle_state(self) -> (r: (Direction, PuzzleState<PUZZLE_SIZE>))
        ensures
            r.0 == self.direction_spec(),
            r.1 == self.state_spec(),
    {
        (self.direction, self.obtained_state)
    }

    /// Creates a move.
    pub fn new(direction: Direction, obtained_state: PuzzleState<PUZZLE_SIZE>) -> (r: Self)
        ensures
            r.direction_spec() == direction,
            r.state_spec() == obtained_state,
    {
        Move { direction, obtained_state }
    }
}

} // verus!
