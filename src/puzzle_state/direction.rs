//! Direction in which the blank travels.
use vstd::prelude::*;

verus! {

/// Direction of a blank move.
#[derive(Debug, PartialEq, Eq, Structural, Clone, Copy)]
pub enum Direction {
    Up,
    Down,
    Left,
    Right,
}

/// Row difference of a move in direction `d`.
pub open spec fn row_delta(d: Direction) -> int {
    match d {
        Direction::Up => -1,
        Direction::Down => 1,
        _ => 0,
    }
}

/// Column difference of a move in direction `d`.
pub open spec fn column_delta(d: Direction) -> int {
    match d {
        Direction::Left => -1,
        Direction::Right => 1,
        _ => 0,
    }
}

/// The direction that undoes a move in direction `d`.
pub open spec fn opposite_of(d: Direction) -> Direction {
    match d {
        Direction::Up => Direction::Down,
        Direction::Down => Direction::Up,
        Direction::Left => Direction::Right,
        Direction::Right => Direction::Left,
    }
}

impl Direction {
    /// Gives the `(row, column)` difference of a move in this direction.
    pub fn as_coordinates(&self) -> (r: (isize, isize))
        ensures
            r.0 as int == row_delta(*self),
            r.1 as int == column_delta(*self),
    {
        match self {
            Direction::Up => (-1, 0),
            Direction::Down => (1, 0),
            Direction::Left => (0, -1),
            Direction::Right => (0, 1),
        }
    }

    /// Returns the opposite direction.
    pub fn opposite(self) -> (r: Self)
        ensures
            r == opposite_of(self),
            row_delta(r) == -row_delta(self),
            column_delta(r) == -column_delta(self),
            opposite_of(r) == self,
    {
        match self {
            Direction::Up => Direction::Down,
            Direction::Down => Direction::Up,
            Direction::Left => Direction::Right,
            Direction::Right => Direction::Left,
        }
    }
}

} // verus!
