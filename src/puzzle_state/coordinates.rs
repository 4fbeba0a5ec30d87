//! Coordinates on the puzzle board.
use vstd::prelude::*;

verus! {

/// Manhattan distance between two cells given by row and column.
pub open spec fn manhattan(r1: int, c1: int, r2: int, c2: int) -> int {
    (if r1 >= r2 { r1 - r2 } else { r2 - r1 }) + (if c1 >= c2 { c1 - c2 } else { c2 - c1 })
}

/// A cell `(row, column)` of a board of side `PUZZLE_SIZE`.
#[derive(Debug, PartialEq, Eq, Hash, Clone, Copy)]
pub struct BoardCoordinates<const PUZZLE_SIZE: usize> {
    row: u8,
    column: u8,
}

impl<const PUZZLE_SIZE: usize> View for BoardCoordinates<PUZZLE_SIZE> {
    type V = (int, int);

    closed spec fn view(&self) -> (int, int) {
        (self.row as int, self.column as int)
    }
}

impl<const PUZZLE_SIZE: usize> BoardCoordinates<PUZZLE_SIZE> {
    /// The row.
    pub open spec fn row_spec(&self) -> int {
        self@.0
    }

    /// The column.
    pub open spec fn column_spec(&self) -> int {
        self@.1
    }

    /// Both coordinates lie on the board.
    pub open spec fn wf(&self) -> bool {
        0 <= self.row_spec() < PUZZLE_SIZE && 0 <= self.column_spec() < PUZZLE_SIZE
    }

    /// Creates coordinates on the board.
    pub fn new(row: u8, column: u8) -> (r: Self)
        requires
            (row as usize) < PUZZLE_SIZE,
            (column as usize) < PUZZLE_SIZE,
        ensures
            r.row_spec() == row,
            r.column_spec() == column,
            r.wf(),
    {
        BoardCoordinates { row, column }
    }

    /// Returns the coordinates as a `(row, column)` tuple.
    pub fn as_tuple(&self) -> (r: (u8, u8))
        ensures
            r.0 == self.row_spec(),
            r.1 == self.column_spec(),
    {
        (self.row, self.column)
    }

    /// Manhattan distance between two cells.
    pub fn manhattan_distance(&self, other: &Self) -> (r: u8)
        requires
            self.wf(),
            other.wf(),
            PUZZLE_SIZE <= 128,
        ensures
            r as int == manhattan(
                self.row_spec(),
                self.column_spec(),
                other.row_spec(),
                other.column_spec(),
            ),
    {
        let dr = if self.row >= other.row {
            self.row - other.row
        } else {
            other.row - self.row
        };
        let dc = if self.column >= other.column {
            self.column - other.column
        } else {
            other.column - self.column
        };
        dr + dc
    }

    /// Manhattan distance from the cell where the blank stands when solved.
    pub fn blank_manhattan_distance(&self) -> (r: u8)
        requires
            self.wf(),
            PUZZLE_SIZE <= 128,
        ensures
            r as int == manhattan(
                self.row_spec(),
                self.column_spec(),
                PUZZLE_SIZE - 1,
                PUZZLE_SIZE - 1,
            ),
    {
        let correct_blank_position = Self::new((PUZZLE_SIZE - 1) as u8, (PUZZLE_SIZE - 1) as u8);
        self.manhattan_distance(&correct_blank_position)
    }

    /// Is the cell in the top row?
    pub fn at_upper_edge(&self) -> (r: bool)
        ensures
            r == (self.row_spec() == 0),
    {
        self.row == 0
    }

    /// Is the cell in the leftmost column?
    pub fn at_left_edge(&self) -> (r: bool)
        ensures
            r == (self.column_spec() == 0),
    {
        self.column == 0
    }

    /// Is the cell in the rightmost column?
    pub fn at_right_edge(&self) -> (r: bool)
        requires
            1 <= PUZZLE_SIZE <= 256,
        ensures
            r == (self.column_spec() == PUZZLE_SIZE - 1),
    {
        self.column == (PUZZLE_SIZE - 1) as u8
    }

    /// Is the cell in the bottom row?
    pub fn at_bottom_edge(&self) -> (r: bool)
        requires
            1 <= PUZZLE_SIZE <= 256,
        ensures
            r == (self.row_spec() == PUZZLE_SIZE - 1),
    {
        self.row == (PUZZLE_SIZE - 1) as u8
    }
}

} // verus!
