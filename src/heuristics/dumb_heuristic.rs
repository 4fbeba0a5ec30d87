//! A heuristic for tests: the sum of the numbers on the board.
use vstd::prelude::*;

use super::Heuristic;
use crate::puzzle_state::{grid_of, on_board, valid_board, Grid};

verus! {

/// Sum of the numbers in row `r` of `g` before column `c`.
pub open spec fn row_value_sum(g: Grid, r: int, c: int) -> int
    decreases c,
{
    if c <= 0 {
        0
    } else {
        row_value_sum(g, r, c - 1) + match g[r][c - 1] {
            Some(v) => v as int,
            None => 0,
        }
    }
}

/// Sum of the numbers in the first `r` rows of an `n` by `n` grid.
pub open spec fn value_sum(g: Grid, n: int, r: int) -> int
    decreases r,
{
    if r <= 0 {
        0
    } else {
        value_sum(g, n, r - 1) + row_value_sum(g, r - 1, n)
    }
}

/// Heuristic for tests: the sum of the numbers on the board.
pub struct DumbHeuristic;

impl<const PUZZLE_SIZE: usize> Heuristic<PUZZLE_SIZE> for DumbHeuristic {
    open spec fn estimate(&self, g: Grid) -> int {
        value_sum(g, PUZZLE_SIZE as int, PUZZLE_SIZE as int)
    }

    open spec fn ready(&self) -> bool {
        true
    }

    fn calculate(&self, numbers: &[[Option<u8>; PUZZLE_SIZE]; PUZZLE_SIZE]) -> (r: u8) {
        let ghost g = grid_of(*numbers);
        let ghost n = PUZZLE_SIZE as int;
        let mut heuristic_value: u8 = 0;
        let mut row: usize = 0;
        while row < PUZZLE_SIZE
            invariant
                2 <= PUZZLE_SIZE,
                row <= PUZZLE_SIZE <= 4,
                n == PUZZLE_SIZE,
                g == grid_of(*numbers),
                valid_board(g, n),
                heuristic_value == value_sum(g, n, row as int),
                heuristic_value <= row * n * 15,
            decreases PUZZLE_SIZE - row,
        {
            let mut column: usize = 0;
            while column < PUZZLE_SIZE
                invariant
                    2 <= PUZZLE_SIZE,
                    row < PUZZLE_SIZE <= 4,
                    column <= PUZZLE_SIZE,
                    n == PUZZLE_SIZE,
                    g == grid_of(*numbers),
                    valid_board(g, n),
                    heuristic_value == value_sum(g, n, row as int) + row_value_sum(g, row as int, column as int),
                    heuristic_value <= (row * n + column) * 15,
                decreases PUZZLE_SIZE - column,
            {
                proof {
                    assert(on_board(n, row as int, column as int));
                    assert(g[row as int][column as int] == numbers@[row as int]@[column as int]);
                    assert(n * n <= 16) by (nonlinear_arith) requires 2 <= n <= 4;
                    assert((row * n + column) * 15 + 15 <= 240) by (nonlinear_arith)
                        requires n * n <= 16, 0 <= row < n, 0 <= column < n;
                }
                if let Some(number_value) = numbers[row][column] {
                    heuristic_value += number_value;
                }
                proof {
                    assert((row * n + column) * 15 + 15 == (row * n + (column + 1)) * 15) by (nonlinear_arith);
                }
                column += 1;
            }
            proof {
                assert((row + 1) * n * 15 == (row * n + n) * 15) by (nonlinear_arith);
            }
            row += 1;
        }
        heuristic_value
    }
}

} // verus!
