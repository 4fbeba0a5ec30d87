//! Board configuration of the sliding puzzle.
use vstd::prelude::*;
use vstd::string::StringSliceAdditionalSpecFns;

pub mod coordinates;
pub mod direction;
pub mod errors;
pub mod parity_check_permutation;
pub mod puzzle_move;
pub mod text;

use coordinates::BoardCoordinates;
use direction::{column_delta, row_delta, Direction};
use errors::{PuzzleStateCreationError, PuzzleStateParseError};
use parity_check_permutation::{
    count_smaller_from, distinct_entries, inversions, inversions_from, lemma_swap_parity, permutation_of, swap_entries,
    ParityCheckPermutation,
};
use puzzle_move::Move;

verus! {

/// Code stored for the blank cell.
const BLANK_NUMBER: u64 = 0b1111;

/// A board as rows of cells; `None` is the blank.
pub type Grid = Seq<Seq<Option<u8>>>;

/// Digit `k` of `x` in base 16.
pub open spec fn nibble(x: nat, k: nat) -> nat
    decreases k,
{
    if k == 0 {
        x % 16
    } else {
        nibble(x / 16, (k - 1) as nat)
    }
}

/// `16` to the power `k`.
pub open spec fn pow16(k: nat) -> nat
    decreases k,
{
    if k == 0 {
        1
    } else {
        16 * pow16((k - 1) as nat)
    }
}

/// The cell that a stored code stands for.
pub open spec fn decode_cell(code: nat) -> Option<u8> {
    if code == 15 {
        None
    } else {
        Some((code + 1) as u8)
    }
}

/// The code stored for a cell.
pub open spec fn encode_cell(cell: Option<u8>) -> nat {
    match cell {
        None => 15,
        Some(v) => (v - 1) as nat,
    }
}

/// Position of cell `(row, column)` in row-major order.
pub open spec fn cell_index(n: int, row: int, column: int) -> int {
    row * n + column
}

/// The grid that a nested array holds.
pub open spec fn grid_of<const N: usize>(a: [[Option<u8>; N]; N]) -> Grid {
    Seq::new(N as nat, |r: int| a@[r]@)
}

/// The grid that a packed board of side `n` holds.
pub open spec fn unpack(numbers: nat, n: int) -> Grid {
    Seq::new(
        n as nat,
        |r: int| Seq::new(n as nat, |c: int| decode_cell(nibble(numbers, cell_index(n, r, c) as nat))),
    )
}

/// `(row, column)` lies on a board of side `n`.
pub open spec fn on_board(n: int, row: int, column: int) -> bool {
    0 <= row < n && 0 <= column < n
}

/// Cell `(r1, c1)` comes before `(r2, c2)` in row-major order.
pub open spec fn before(r1: int, c1: int, r2: int, c2: int) -> bool {
    r1 < r2 || (r1 == r2 && c1 < c2)
}

/// `g` is an `n` by `n` grid.
pub open spec fn is_square(g: Grid, n: int) -> bool {
    g.len() == n && forall|r: int| 0 <= r < n ==> #[trigger] g[r].len() == n
}

/// A valid board: every number lies in `1 .. n*n - 1`, no number appears twice, and
/// exactly one cell is blank.
pub open spec fn valid_board(g: Grid, n: int) -> bool {
    &&& is_square(g, n)
    &&& forall|r: int, c: int|
        on_board(n, r, c) && #[trigger] g[r][c] is Some ==> 1 <= g[r][c]->0 < n * n
    &&& forall|r1: int, c1: int, r2: int, c2: int|
        on_board(n, r1, c1) && on_board(n, r2, c2) && #[trigger] g[r1][c1] == #[trigger] g[r2][c2]
            && g[r1][c1] is Some ==> r1 == r2 && c1 == c2
    &&& exists|r: int, c: int| on_board(n, r, c) && #[trigger] g[r][c] is None
    &&& forall|r1: int, c1: int, r2: int, c2: int|
        on_board(n, r1, c1) && on_board(n, r2, c2) && #[trigger] g[r1][c1] is None
            && #[trigger] g[r2][c2] is None ==> r1 == r2 && c1 == c2
}

/// What cell `(r, c)` breaks, given the cells before it, if anything.
pub open spec fn cell_fault(g: Grid, n: int, r: int, c: int) -> Option<PuzzleStateCreationError> {
    match g[r][c] {
        Some(v) => if v < 1 || v >= n * n || exists|r2: int, c2: int|
            on_board(n, r2, c2) && before(r2, c2, r, c) && #[trigger] g[r2][c2] == Some(v) {
            Some(PuzzleStateCreationError::NotPermutation)
        } else {
            None
        },
        None => if exists|r2: int, c2: int|
            on_board(n, r2, c2) && before(r2, c2, r, c) && #[trigger] g[r2][c2] is None {
            Some(PuzzleStateCreationError::TwoBlanks)
        } else {
            None
        },
    }
}

/// Cell `(r, c)` is the first one, in row-major order, that breaks the rules.
pub open spec fn first_fault_at(g: Grid, n: int, r: int, c: int) -> bool {
    &&& on_board(n, r, c)
    &&& cell_fault(g, n, r, c) is Some
    &&& forall|r2: int, c2: int|
        on_board(n, r2, c2) && before(r2, c2, r, c) ==> #[trigger] cell_fault(g, n, r2, c2) is None
}

/// The error that building a board from `g` reports: the fault of the first cell that
/// breaks the rules, or `NotPermutation` when no cell does and the blank is missing.
pub open spec fn creation_error(g: Grid, n: int) -> PuzzleStateCreationError {
    if exists|r: int, c: int| #[trigger] first_fault_at(g, n, r, c) {
        let (r, c) = choose|r: int, c: int| #[trigger] first_fault_at(g, n, r, c);
        cell_fault(g, n, r, c)->0
    } else {
        PuzzleStateCreationError::NotPermutation
    }
}

/// Stores the configuration of a board of side `PUZZLE_SIZE`, four bits per cell.
#[derive(Debug, PartialEq, Eq, Hash, Clone, Copy)]
pub struct PuzzleState<const PUZZLE_SIZE: usize> {
    numbers: u64,
}

impl<const PUZZLE_SIZE: usize> View for PuzzleState<PUZZLE_SIZE> {
    type V = Grid;

    closed spec fn view(&self) -> Grid {
        unpack(self.numbers as nat, PUZZLE_SIZE as int)
    }
}


impl<const PUZZLE_SIZE: usize> std::str::FromStr for PuzzleState<PUZZLE_SIZE> {
    type Err = PuzzleStateParseError;

    fn from_str(s: &str) -> Result<Self, Self::Err> {
        Self::parse_text(s)
    }
}

impl<const PUZZLE_SIZE: usize> PuzzleState<PUZZLE_SIZE> {
    /// The packed form holds no digits beyond the board's cells.
    pub closed spec fn packed(&self) -> bool {
        (self.numbers as nat) < pow16((PUZZLE_SIZE * PUZZLE_SIZE) as nat)
    }

    /// A well-formed board: a side of 2 to 4 and a valid configuration.
    pub open spec fn wf(&self) -> bool {
        &&& 2 <= PUZZLE_SIZE <= 4
        &&& valid_board(self@, PUZZLE_SIZE as int)
        &&& self.packed()
    }

    /// Checks that `numbers` hold a valid board: each number of `1 .. N*N - 1` once, and
    /// one blank. Reports the fault of the first cell, in row-major order, that breaks
    /// this.
    pub fn check_numbers(numbers: &[[Option<u8>; PUZZLE_SIZE]; PUZZLE_SIZE]) -> (r: Result<(), PuzzleStateCreationError>)
        requires
            2 <= PUZZLE_SIZE <= 4,
        ensures
            r is Ok <==> valid_board(grid_of(*numbers), PUZZLE_SIZE as int),
            r is Err ==> r->Err_0 == creation_error(grid_of(*numbers), PUZZLE_SIZE as int),
    {
        broadcast use vstd::std_specs::hash::group_hash_axioms;
        let ghost n = PUZZLE_SIZE as int;
        let ghost g = grid_of(*numbers);
        proof {
            assert(n * n <= 16) by (nonlinear_arith) requires 2 <= n <= 4;
            assert(1 <= n * n) by (nonlinear_arith) requires 1 <= n;
        }
        let max_number_value: u8 = ((PUZZLE_SIZE * PUZZLE_SIZE) as u8) - 1;
        let mut permutation_numbers: std::collections::HashSet<u8> = std::collections::HashSet::new();
        let mut value: u8 = 1;
        while value <= max_number_value
            invariant
                1 <= value <= max_number_value + 1,
                max_number_value == n * n - 1,
                n * n <= 16,
                forall|v: u8| #[trigger] permutation_numbers@.contains(v) <==> 1 <= v < value,
            decreases max_number_value + 1 - value,
        {
            permutation_numbers.insert(value);
            value += 1;
        }
        let mut blank_found = false;
        let mut row: usize = 0;
        while row < PUZZLE_SIZE
            invariant
                row <= PUZZLE_SIZE <= 4,
                n == PUZZLE_SIZE,
                g == grid_of(*numbers),
                max_number_value == n * n - 1,
                forall|v: u8| #[trigger] permutation_numbers@.contains(v) <==> 1 <= v <= max_number_value
                    && !exists|r2: int, c2: int| on_board(n, r2, c2) && before(r2, c2, row as int, 0) && #[trigger] g[r2][c2] == Some(v),
                blank_found <==> exists|r2: int, c2: int| on_board(n, r2, c2) && before(r2, c2, row as int, 0) && #[trigger] g[r2][c2] is None,
                forall|r2: int, c2: int| on_board(n, r2, c2) && before(r2, c2, row as int, 0) ==> #[trigger] cell_fault(g, n, r2, c2) is None,
            decreases PUZZLE_SIZE - row,
        {
            let mut column: usize = 0;
            while column < PUZZLE_SIZE
                invariant
                    row < PUZZLE_SIZE <= 4,
                    column <= PUZZLE_SIZE,
                    n == PUZZLE_SIZE,
                    g == grid_of(*numbers),
                    max_number_value == n * n - 1,
                    forall|v: u8| #[trigger] permutation_numbers@.contains(v) <==> 1 <= v <= max_number_value
                        && !exists|r2: int, c2: int| on_board(n, r2, c2) && before(r2, c2, row as int, column as int) && #[trigger] g[r2][c2] == Some(v),
                    blank_found <==> exists|r2: int, c2: int| on_board(n, r2, c2) && before(r2, c2, row as int, column as int) && #[trigger] g[r2][c2] is None,
                    forall|r2: int, c2: int| on_board(n, r2, c2) && before(r2, c2, row as int, column as int) ==> #[trigger] cell_fault(g, n, r2, c2) is None,
                decreases PUZZLE_SIZE - column,
            {
                let ghost (r, c) = (row as int, column as int);
                assert(g[r][c] == numbers@[r]@[c]);
                if let Some(number_value) = numbers[row][column] {
                    let ghost old_set = permutation_numbers@;
                    if !permutation_numbers.remove(&number_value) {
                        proof {
                            assert(!old_set.contains(number_value));
                            assert(cell_fault(g, n, r, c) is Some);
                            assert(first_fault_at(g, n, r, c));
                            lemma_fault_breaks(g, n, r, c);
                            let (fr, fc) = choose|fr: int, fc: int| #[trigger] first_fault_at(g, n, fr, fc);
                            lemma_first_fault_unique(g, n, r, c, fr, fc);
                        }
                        return Err(PuzzleStateCreationError::NotPermutation);
                    }
                    proof {
                        assert(cell_fault(g, n, r, c) is None);
                        assert forall|v: u8| #[trigger] permutation_numbers@.contains(v) <==> 1 <= v <= max_number_value
                            && !exists|r2: int, c2: int| on_board(n, r2, c2) && before(r2, c2, row as int, column + 1) && #[trigger] g[r2][c2] == Some(v) by {
                            if v != number_value {
                                if exists|r2: int, c2: int| on_board(n, r2, c2) && before(r2, c2, row as int, column + 1) && #[trigger] g[r2][c2] == Some(v) {
                                    let (r2, c2) = choose|r2: int, c2: int| on_board(n, r2, c2) && before(r2, c2, row as int, column + 1) && #[trigger] g[r2][c2] == Some(v);
                                    assert(before(r2, c2, r, c));
                                }
                            } else {
                                assert(on_board(n, r, c) && before(r, c, row as int, column + 1) && g[r][c] == Some(v));
                            }
                        }
                    }
                } else if !blank_found {
                    blank_found = true;
                    proof {
                        assert(cell_fault(g, n, r, c) is None);
                        assert(on_board(n, r, c) && before(r, c, row as int, column + 1) && g[r][c] is None);
                        assert forall|v: u8| #[trigger] permutation_numbers@.contains(v) <==> 1 <= v <= max_number_value
                            && !exists|r2: int, c2: int| on_board(n, r2, c2) && before(r2, c2, row as int, column + 1) && #[trigger] g[r2][c2] == Some(v) by {
                            if exists|r2: int, c2: int| on_board(n, r2, c2) && before(r2, c2, row as int, column + 1) && #[trigger] g[r2][c2] == Some(v) {
                                let (r2, c2) = choose|r2: int, c2: int| on_board(n, r2, c2) && before(r2, c2, row as int, column + 1) && #[trigger] g[r2][c2] == Some(v);
                                assert(before(r2, c2, r, c));
                            }
                        }
                    }
                } else {
                    proof {
                        assert(cell_fault(g, n, r, c) is Some);
                        assert(first_fault_at(g, n, r, c));
                        lemma_fault_breaks(g, n, r, c);
                        let (fr, fc) = choose|fr: int, fc: int| #[trigger] first_fault_at(g, n, fr, fc);
                        lemma_first_fault_unique(g, n, r, c, fr, fc);
                    }
                    return Err(PuzzleStateCreationError::TwoBlanks);
                }
                proof {
                    assert forall|r2: int, c2: int| on_board(n, r2, c2) && before(r2, c2, row as int, column + 1) implies #[trigger] cell_fault(g, n, r2, c2) is None by {
                        if before(r2, c2, r, c) {
                        } else {
                            assert(r2 == r && c2 == c);
                        }
                    }
                    assert(blank_found <==> exists|r2: int, c2: int| on_board(n, r2, c2) && before(r2, c2, row as int, column + 1) && #[trigger] g[r2][c2] is None) by {
                        if exists|r2: int, c2: int| on_board(n, r2, c2) && before(r2, c2, row as int, column + 1) && #[trigger] g[r2][c2] is None {
                            let (r2, c2) = choose|r2: int, c2: int| on_board(n, r2, c2) && before(r2, c2, row as int, column + 1) && #[trigger] g[r2][c2] is None;
                            if before(r2, c2, r, c) {
                            }
                        }
                    }
                }
                column += 1;
            }
            row += 1;
        }
        proof {
            assert(forall|r2: int, c2: int| on_board(n, r2, c2) ==> before(r2, c2, n, 0));
            assert(is_square(g, n));
        }
        if !blank_found {
            proof {
                assert(!exists|fr: int, fc: int| #[trigger] first_fault_at(g, n, fr, fc));
            }
            return Err(PuzzleStateCreationError::NotPermutation);
        }
        proof {
            lemma_no_fault_valid(g, n);
        }
        Ok(())
    }

    /// Creates a board from its rows; fails unless they hold each number of
    /// `1 .. N*N - 1` once and one blank.
    pub fn new(numbers: [[Option<u8>; PUZZLE_SIZE]; PUZZLE_SIZE]) -> (r: Result<Self, PuzzleStateCreationError>)
        requires
            2 <= PUZZLE_SIZE <= 4,
        ensures
            r is Ok <==> valid_board(grid_of(numbers), PUZZLE_SIZE as int),
            r is Ok ==> r->Ok_0.wf() && r->Ok_0@ == grid_of(numbers),
            r is Err ==> r->Err_0 == creation_error(grid_of(numbers), PUZZLE_SIZE as int),
    {
        match Self::check_numbers(&numbers) {
            Err(e) => Err(e),
            Ok(()) => {
                proof {
                    let n = PUZZLE_SIZE as int;
                    assert(n * n <= 16) by (nonlinear_arith) requires 2 <= n <= 4;
                    let g = grid_of(numbers);
                    assert forall|i: int, j: int| 0 <= i < n && 0 <= j < n && #[trigger] numbers@[i]@[j] is Some
                        implies 1 <= numbers@[i]@[j]->0 <= 15 by {
                        assert(g[i][j] == numbers@[i]@[j]);
                    }
                }
                let state = PuzzleState { numbers: Self::numbers_from_readable(&numbers) };
                Ok(state)
            },
        }
    }

    /// Returns the board's rows.
    pub fn readable_numbers(&self) -> (r: [[Option<u8>; PUZZLE_SIZE]; PUZZLE_SIZE])
        requires
            self.wf(),
        ensures
            grid_of(r) == self@,
    {
        Self::numbers_into_readable(self.numbers)
    }

    /// Where the blank stands.
    pub fn blank_position(&self) -> (r: BoardCoordinates<PUZZLE_SIZE>)
        requires
            self.wf(),
        ensures
            r.wf(),
            blank_at(self@, PUZZLE_SIZE as int, r.row_spec(), r.column_spec()),
            blank_of(self@, PUZZLE_SIZE as int) == (r.row_spec(), r.column_spec()),
    {
        let readable_numbers = self.readable_numbers();
        let ghost g = self@;
        let ghost n = PUZZLE_SIZE as int;
        let mut row: usize = 0;
        while row < PUZZLE_SIZE
            invariant
                row <= PUZZLE_SIZE <= 4,
                n == PUZZLE_SIZE,
                g == self@,
                self.wf(),
                grid_of(readable_numbers) == g,
                forall|r2: int, c2: int| on_board(n, r2, c2) && r2 < row ==> #[trigger] g[r2][c2] is Some,
            decreases PUZZLE_SIZE - row,
        {
            let mut column: usize = 0;
            while column < PUZZLE_SIZE
                invariant
                    row < PUZZLE_SIZE <= 4,
                    column <= PUZZLE_SIZE,
                    n == PUZZLE_SIZE,
                    g == self@,
                    self.wf(),
                    grid_of(readable_numbers) == g,
                    forall|r2: int, c2: int| on_board(n, r2, c2) && before(r2, c2, row as int, column as int) ==> #[trigger] g[r2][c2] is Some,
                decreases PUZZLE_SIZE - column,
            {
                assert(g[row as int][column as int] == readable_numbers@[row as int]@[column as int]);
                if readable_numbers[row][column].is_none() {
                    proof {
                        lemma_blank_of(g, n, row as int, column as int);
                    }
                    return BoardCoordinates::new(row as u8, column as u8);
                }
                column += 1;
            }
            row += 1;
        }
        proof {
            let (br, bc) = choose|r: int, c: int| on_board(n, r, c) && #[trigger] g[r][c] is None;
            assert(g[br][bc] is Some);
        }
        BoardCoordinates::new(0, 0)
    }

    /// Are all numbers in ascending row-major order, ignoring the last cell?
    fn is_solved_permutation(&self) -> (r: bool)
        requires
            self.wf(),
        ensures
            r == forall|i: int, j: int| on_board(PUZZLE_SIZE as int, i, j)
                && cell_index(PUZZLE_SIZE as int, i, j) < PUZZLE_SIZE * PUZZLE_SIZE - 1
                ==> #[trigger] self@[i][j] == Some((cell_index(PUZZLE_SIZE as int, i, j) + 1) as u8),
    {
        let readable_numbers = self.readable_numbers();
        let ghost g = self@;
        let ghost n = PUZZLE_SIZE as int;
        proof {
            assert(n * n <= 16) by (nonlinear_arith) requires 2 <= n <= 4;
        }
        let last: u8 = (PUZZLE_SIZE * PUZZLE_SIZE) as u8;
        let mut curr_correct_number_value: u8 = 1;
        let mut row: usize = 0;
        while row < PUZZLE_SIZE
            invariant
                row <= PUZZLE_SIZE <= 4,
                n == PUZZLE_SIZE,
                n * n <= 16,
                last == n * n,
                g == self@,
                grid_of(readable_numbers) == g,
                curr_correct_number_value == cell_index(n, row as int, 0) + 1,
                forall|i: int, j: int| on_board(n, i, j) && i < row && cell_index(n, i, j) < n * n - 1
                    ==> #[trigger] g[i][j] == Some((cell_index(n, i, j) + 1) as u8),
            decreases PUZZLE_SIZE - row,
        {
            let mut column: usize = 0;
            while column < PUZZLE_SIZE
                invariant
                    row < PUZZLE_SIZE <= 4,
                    column <= PUZZLE_SIZE,
                    n == PUZZLE_SIZE,
                    n * n <= 16,
                    last == n * n,
                    g == self@,
                    grid_of(readable_numbers) == g,
                    curr_correct_number_value == cell_index(n, row as int, column as int) + 1,
                    forall|i: int, j: int| on_board(n, i, j) && before(i, j, row as int, column as int) && cell_index(n, i, j) < n * n - 1
                        ==> #[trigger] g[i][j] == Some((cell_index(n, i, j) + 1) as u8),
                decreases PUZZLE_SIZE - column,
            {
                proof {
                    lemma_cell_index_order(n, row as int, column as int, 0, 0);
                }
                assert(g[row as int][column as int] == readable_numbers@[row as int]@[column as int]);
                if curr_correct_number_value < last {
                    let matches = match readable_numbers[row][column] {
                        Some(number_value) => number_value == curr_correct_number_value,
                        None => false,
                    };
                    if !matches {
                        return false;
                    }
                }
                curr_correct_number_value += 1;
                proof {
                    assert forall|i: int, j: int| on_board(n, i, j) && before(i, j, row as int, column + 1) && cell_index(n, i, j) < n * n - 1
                        implies #[trigger] g[i][j] == Some((cell_index(n, i, j) + 1) as u8) by {
                        if !before(i, j, row as int, column as int) {
                            assert(i == row && j == column);
                        }
                    }
                }
                column += 1;
            }
            proof {
                assert(cell_index(n, row as int, n) == cell_index(n, row + 1, 0)) by (nonlinear_arith);
            }
            row += 1;
        }
        true
    }

    /// Is this the solved board?
    pub fn is_solved(&self) -> (r: bool)
        requires
            self.wf(),
        ensures
            r == is_goal(self@, PUZZLE_SIZE as int),
    {
        let blank = self.blank_position();
        let blank_manhattan_distance = blank.blank_manhattan_distance();
        let r = (blank_manhattan_distance == 0) && self.is_solved_permutation();
        proof {
            let g = self@;
            let n = PUZZLE_SIZE as int;
            if r {
                assert forall|i: int, j: int| on_board(n, i, j) implies #[trigger] g[i][j] == goal_cell(n, i, j) by {
                    lemma_cell_index_order(n, i, j, n - 1, n - 1);
                    assert(cell_index(n, n - 1, n - 1) == n * n - 1) by (nonlinear_arith);
                    if !(i == n - 1 && j == n - 1) {
                        assert(g[i][j] == Some((cell_index(n, i, j) + 1) as u8));
                    }
                }
            }
            if is_goal(g, n) {
                assert(g[n - 1][n - 1] == goal_cell(n, n - 1, n - 1));
                lemma_blank_of(g, n, n - 1, n - 1);
                assert forall|i: int, j: int| on_board(n, i, j) && cell_index(n, i, j) < n * n - 1
                    implies #[trigger] g[i][j] == Some((cell_index(n, i, j) + 1) as u8) by {
                    assert(cell_index(n, n - 1, n - 1) == n * n - 1) by (nonlinear_arith);
                    assert(g[i][j] == goal_cell(n, i, j));
                }
            }
        }
        r
    }

    /// Creates the board obtained by moving the blank in `direction`.
    pub fn create_neighbour_move_state(&self, direction: Direction) -> (r: PuzzleState<PUZZLE_SIZE>)
        requires
            self.wf(),
            can_move(self@, PUZZLE_SIZE as int, direction),
        ensures
            r.wf(),
            r@ == move_blank(self@, PUZZLE_SIZE as int, direction),
    {
        let (diff_row, diff_column) = direction.as_coordinates();
        let (blank_row, blank_column) = self.blank_position().as_tuple();
        let swap_row = ((blank_row as isize) + diff_row) as usize;
        let swap_column = ((blank_column as isize) + diff_column) as usize;
        let mut new_numbers = self.readable_numbers();
        let swap_number = new_numbers[swap_row][swap_column];
        new_numbers[swap_row][swap_column] = None;
        new_numbers[blank_row as usize][blank_column as usize] = swap_number;
        let ghost n = PUZZLE_SIZE as int;
        let ghost g = self@;
        let ghost moved = move_blank(g, n, direction);
        proof {
            lemma_swap_valid(g, n, blank_row as int, blank_column as int, swap_row as int, swap_column as int);
            assert forall|i: int| 0 <= i < n implies #[trigger] grid_of(new_numbers)[i] =~= moved[i] by {}
            assert(grid_of(new_numbers) =~~= moved);
            assert forall|i: int, j: int| 0 <= i < n && 0 <= j < n && #[trigger] new_numbers@[i]@[j] is Some
                implies 1 <= new_numbers@[i]@[j]->0 <= 15 by {
                assert(moved[i][j] == new_numbers@[i]@[j]);
                assert(n * n <= 16) by (nonlinear_arith) requires 2 <= n <= 4;
            }
        }
        PuzzleState { numbers: Self::numbers_from_readable(&new_numbers) }
    }

    /// Creates the boards reachable from this one by one move, in the order up, down,
    /// left, right.
    pub fn neighbours(&self) -> (r: Vec<Move<PUZZLE_SIZE>>)
        requires
            self.wf(),
        ensures
            r@.len() == legal_directions(self@, PUZZLE_SIZE as int).len(),
            forall|i: int| 0 <= i < r@.len() ==> #[trigger] r@[i].direction_spec() == legal_directions(self@, PUZZLE_SIZE as int)[i],
            forall|i: int| 0 <= i < r@.len() ==> (#[trigger] r@[i]).state_spec().wf()
                && r@[i].state_spec()@ == move_blank(self@, PUZZLE_SIZE as int, r@[i].direction_spec()),
    {
        let ghost g = self@;
        let ghost n = PUZZLE_SIZE as int;
        let blank = self.blank_position();
        let mut moves: Vec<Move<PUZZLE_SIZE>> = Vec::new();
        let ghost mut dirs: Seq<Direction> = seq![];
        if !blank.at_upper_edge() {
            moves.push(Move::new(Direction::Up, self.create_neighbour_move_state(Direction::Up)));
            proof { dirs = dirs.push(Direction::Up); }
        }
        assert(dirs == (if can_move(g, n, Direction::Up) { seq![Direction::Up] } else { seq![] }));
        let ghost d1 = dirs;
        if !blank.at_bottom_edge() {
            moves.push(Move::new(Direction::Down, self.create_neighbour_move_state(Direction::Down)));
            proof { dirs = dirs.push(Direction::Down); }
        }
        assert(dirs =~= d1 + (if can_move(g, n, Direction::Down) { seq![Direction::Down] } else { seq![] }));
        let ghost d2 = dirs;
        if !blank.at_left_edge() {
            moves.push(Move::new(Direction::Left, self.create_neighbour_move_state(Direction::Left)));
            proof { dirs = dirs.push(Direction::Left); }
        }
        assert(dirs =~= d2 + (if can_move(g, n, Direction::Left) { seq![Direction::Left] } else { seq![] }));
        let ghost d3 = dirs;
        if !blank.at_right_edge() {
            moves.push(Move::new(Direction::Right, self.create_neighbour_move_state(Direction::Right)));
            proof { dirs = dirs.push(Direction::Right); }
        }
        assert(dirs =~= d3 + (if can_move(g, n, Direction::Right) { seq![Direction::Right] } else { seq![] }));
        assert(dirs =~= legal_directions(g, n));
        assert(moves@.len() == dirs.len());
        assert forall|i: int| 0 <= i < moves@.len() implies #[trigger] moves@[i].direction_spec() == dirs[i] by {}
        moves
    }

    /// Can the solved board be reached from this one?
    pub fn is_solvable(&self) -> (r: bool)
        requires
            self.wf(),
        ensures
            r == solvable(self@, PUZZLE_SIZE as int),
    {
        let parity_check_permutation = ParityCheckPermutation::from_numbers(&self.readable_numbers());
        let blank_manhattan_distance = self.blank_position().blank_manhattan_distance();
        let is_blank_manhattan_distance_even = (blank_manhattan_distance % 2) == 0;
        proof {
            let n = PUZZLE_SIZE as int;
            assert(n * n <= 16) by (nonlinear_arith) requires 2 <= n <= 4;
        }
        let is_even = parity_check_permutation.is_even();
        (is_even && is_blank_manhattan_distance_even) || (!is_even && !is_blank_manhattan_distance_even)
    }

    /// The packed form of the board.
    pub closed spec fn key_spec(&self) -> u64 {
        self.numbers
    }

    /// The packed form of a board is the one packed form of its cells.
    pub proof fn lemma_key(&self)
        requires
            self.wf(),
        ensures
            key_of_grid(self@, PUZZLE_SIZE as int) == self.key_spec(),
            unpack(self.key_spec() as nat, PUZZLE_SIZE as int) == self@,
    {
        let n = PUZZLE_SIZE as int;
        let k = key_of_grid(self@, n);
        assert((self.numbers as nat) < pow16((n * n) as nat) && unpack(self.numbers as nat, n) == self@);
        lemma_unpack_injective(k as nat, self.numbers as nat, n);
    }

    /// The packed form of the board.
    pub fn key(&self) -> (r: u64)
        ensures
            r == self.key_spec(),
    {
        self.numbers
    }

    /// Calculates the estimate of `heuristic` for this board.
    pub fn calculate_heuristic<H: crate::heuristics::Heuristic<PUZZLE_SIZE>>(&self, heuristic: &H) -> (r: u8)
        requires
            self.wf(),
            heuristic.ready(),
        ensures
            r as int == heuristic.estimate(self@),
    {
        heuristic.calculate(&self.readable_numbers())
    }

    /// Reads a board from its text form, `[1, 2, 3, , ...]`: the cells in row-major
    /// order between the first `[` and the first `]`, separated by commas, the blank an
    /// empty field.
    pub fn parse_text(text: &str) -> (r: Result<Self, PuzzleStateParseError>)
        ensures
            r is Ok <==> parse_board(text.spec_bytes(), PUZZLE_SIZE as int) is Ok,
            r is Ok ==> r->Ok_0.wf() && r->Ok_0@ == parse_board(text.spec_bytes(), PUZZLE_SIZE as int)->Ok_0,
            r is Err ==> r->Err_0 == parse_board(text.spec_bytes(), PUZZLE_SIZE as int)->Err_0,
    {
        if PUZZLE_SIZE < 2 || PUZZLE_SIZE > 4 {
            return Err(PuzzleStateParseError::NotPermutation);
        }
        let bytes = text.as_bytes();
        let ghost s = bytes@;
        let ghost n = PUZZLE_SIZE as int;
        let permutation_start_index = text::find_byte(bytes, text::OPEN_BRACKET);
        let permutation_end_index = text::find_byte(bytes, text::CLOSE_BRACKET);
        if permutation_start_index == bytes.len() || permutation_end_index == bytes.len()
            || permutation_end_index < permutation_start_index {
            return Err(PuzzleStateParseError::NoBrackets);
        }
        proof {
            text::lemma_find_from(s, text::OPEN_BRACKET, 0);
            text::lemma_find_from(s, text::CLOSE_BRACKET, 0);
        }
        let permutation_members = text::split_fields(bytes, permutation_start_index + 1, permutation_end_index);
        let ghost fs = permutation_members@.map_values(|f: Vec<u8>| f@);
        assert(text::bracketed_fields(s) == Some(fs));
        proof {
            assert(n * n <= 16) by (nonlinear_arith) requires 2 <= n <= 4;
        }
        let mut numbers: [[Option<u8>; PUZZLE_SIZE]; PUZZLE_SIZE] = [[None; PUZZLE_SIZE]; PUZZLE_SIZE];
        let mut index: usize = 0;
        let mut row: usize = 0;
        while row < PUZZLE_SIZE
            invariant
                2 <= PUZZLE_SIZE <= 4,
                n == PUZZLE_SIZE,
                n * n <= 16,
                row <= PUZZLE_SIZE,
                index == row * n,
                fs == permutation_members@.map_values(|f: Vec<u8>| f@),
                text::bracketed_fields(s) == Some(fs),
                s == text.spec_bytes(),
                text::cells_error(fs, n * n, 0) == text::cells_error(fs, n * n, index as int),
                index <= fs.len(),
                forall|r: int, c: int| 0 <= r < row && 0 <= c < n ==> #[trigger] numbers@[r]@[c]
                    == text::field_cell(fs[r * n + c])->0,
            decreases PUZZLE_SIZE - row,
        {
            let mut column: usize = 0;
            while column < PUZZLE_SIZE
                invariant
                    2 <= PUZZLE_SIZE <= 4,
                    n == PUZZLE_SIZE,
                    n * n <= 16,
                    row < PUZZLE_SIZE,
                    column <= PUZZLE_SIZE,
                    index == row * n + column,
                    fs == permutation_members@.map_values(|f: Vec<u8>| f@),
                    text::bracketed_fields(s) == Some(fs),
                    s == text.spec_bytes(),
                    text::cells_error(fs, n * n, 0) == text::cells_error(fs, n * n, index as int),
                    index <= fs.len(),
                    forall|r: int, c: int| 0 <= r < row && 0 <= c < n ==> #[trigger] numbers@[r]@[c]
                        == text::field_cell(fs[r * n + c])->0,
                    forall|c: int| 0 <= c < column ==> #[trigger] numbers@[row as int]@[c]
                        == text::field_cell(fs[row * n + c])->0,
                decreases PUZZLE_SIZE - column,
            {
                proof {
                    assert(index < n * n) by (nonlinear_arith)
                        requires index == row * n + column, row < n, column < n;
                }
                if index >= permutation_members.len() {
                    assert(text::cells_error(fs, n * n, index as int) == Some(PuzzleStateParseError::NotEnoughNumbers));
                    assert(text::parse_grid(s, n) == Err::<Grid, PuzzleStateParseError>(PuzzleStateParseError::NotEnoughNumbers));
                    return Err(PuzzleStateParseError::NotEnoughNumbers);
                }
                assert(fs[index as int] == permutation_members@[index as int]@);
                let cell = text::parse_field(permutation_members[index].as_slice());
                match cell {
                    None => {
                        assert(text::cells_error(fs, n * n, index as int) == Some(PuzzleStateParseError::NumberParseError));
                        assert(text::parse_grid(s, n) == Err::<Grid, PuzzleStateParseError>(PuzzleStateParseError::NumberParseError));
                        return Err(PuzzleStateParseError::NumberParseError);
                    },
                    Some(number) => {
                        numbers[row][column] = number;
                        assert(text::cells_error(fs, n * n, index as int) == text::cells_error(fs, n * n, index + 1));
                    },
                }
                index += 1;
                column += 1;
            }
            proof {
                assert((row + 1) * n == row * n + n) by (nonlinear_arith);
            }
            row += 1;
        }
        proof {
            assert(index == n * n);
            assert(text::cells_error(fs, n * n, index as int) is None);
        }
        if permutation_members.len() > index {
            return Err(PuzzleStateParseError::TooManyNumbers);
        }
        proof {
            let g = text::grid_of_fields(fs, n);
            assert forall|r: int| 0 <= r < n implies #[trigger] grid_of(numbers)[r] =~= g[r] by {}
            assert(grid_of(numbers) =~~= g);
        }
        match Self::new(numbers) {
            Ok(state) => Ok(state),
            Err(e) => Err(PuzzleStateParseError::from(e)),
        }
    }

    /// The text form of the board, `[1, 2, 3, , ...]`.
    pub fn to_string(&self) -> (r: String)
        requires
            self.wf(),
        ensures
            r@ == text::board_text(self@, PUZZLE_SIZE as int),
    {
        let readable_numbers = self.readable_numbers();
        let ghost g = self@;
        let ghost n = PUZZLE_SIZE as int;
        proof {
            assert(n * n <= 16) by (nonlinear_arith) requires 2 <= n <= 4;
            reveal_strlit("[");
            reveal_strlit("]");
            reveal_strlit(", ");
        }
        let mut text = String::new();
        text.append("[");
        let mut index: usize = 0;
        let mut row: usize = 0;
        while row < PUZZLE_SIZE
            invariant
                2 <= PUZZLE_SIZE <= 4,
                n == PUZZLE_SIZE,
                n * n <= 16,
                g == self@,
                self.wf(),
                grid_of(readable_numbers) == g,
                row <= PUZZLE_SIZE,
                index == row * n,
                text@ == seq!['['] + text::cells_text(g, n, index as int),
            decreases PUZZLE_SIZE - row,
        {
            let mut column: usize = 0;
            while column < PUZZLE_SIZE
                invariant
                    2 <= PUZZLE_SIZE <= 4,
                    n == PUZZLE_SIZE,
                    n * n <= 16,
                    g == self@,
                    self.wf(),
                    grid_of(readable_numbers) == g,
                    row < PUZZLE_SIZE,
                    column <= PUZZLE_SIZE,
                    index == row * n + column,
                    text@ == seq!['['] + text::cells_text(g, n, index as int),
                decreases PUZZLE_SIZE - column,
            {
                proof {
                    vstd::arithmetic::div_mod::lemma_fundamental_div_mod_converse(index as int, n, row as int, column as int);
                    assert(on_board(n, row as int, column as int));
                    assert(index < n * n) by (nonlinear_arith)
                        requires index == row * n + column, row < n, column < n;
                    assert(g[row as int][column as int] == readable_numbers@[row as int]@[column as int]);
                }
                let ghost before = text@;
                if index > 0 {
                    text.append(", ");
                    proof {
                        reveal_strlit(", ");
                        assert(", "@ =~= seq![',', ' ']);
                    }
                    assert(text@ =~= before + seq![',', ' ']);
                }
                text::append_cell(&mut text, readable_numbers[row][column]);
                proof {
                    if index == 0 {
                        assert(row == 0 && column == 0);
                        assert(text@ =~= seq!['['] + text::cells_text(g, n, 1));
                    } else {
                        assert(text::cells_text(g, n, index + 1) == text::cells_text(g, n, index as int) + seq![',', ' ']
                            + text::cell_text(g[row as int][column as int]));
                        assert(text@ =~= seq!['['] + text::cells_text(g, n, index + 1));
                    }
                }
                index += 1;
                column += 1;
            }
            proof {
                assert((row + 1) * n == row * n + n) by (nonlinear_arith);
            }
            row += 1;
        }
        text.append("]");
        text
    }

    /// Transforms numbers from their packed form into rows of cells.
    pub fn numbers_into_readable(numbers: u64) -> (r: [[Option<u8>; PUZZLE_SIZE]; PUZZLE_SIZE])
        requires
            PUZZLE_SIZE <= 4,
        ensures
            grid_of(r) == unpack(numbers as nat, PUZZLE_SIZE as int),
    {
        let mut readable_numbers: [[Option<u8>; PUZZLE_SIZE]; PUZZLE_SIZE] = [[None; PUZZLE_SIZE]; PUZZLE_SIZE];
        let mut rest: u64 = numbers;
        let ghost n = PUZZLE_SIZE as int;
        let mut row: usize = 0;
        while row < PUZZLE_SIZE
            invariant
                row <= PUZZLE_SIZE <= 4,
                n == PUZZLE_SIZE,
                forall|j: nat| nibble(rest as nat, j) == #[trigger] nibble(numbers as nat, (row * n + j) as nat),
                forall|r: int, c: int| 0 <= r < row && 0 <= c < n ==>
                    #[trigger] readable_numbers@[r]@[c] == decode_cell(nibble(numbers as nat, cell_index(n, r, c) as nat)),
            decreases PUZZLE_SIZE - row,
        {
            let mut line: [Option<u8>; PUZZLE_SIZE] = [None; PUZZLE_SIZE];
            let mut column: usize = 0;
            while column < PUZZLE_SIZE
                invariant
                    row < PUZZLE_SIZE <= 4,
                    column <= PUZZLE_SIZE,
                    n == PUZZLE_SIZE,
                    forall|j: nat| nibble(rest as nat, j) == #[trigger] nibble(numbers as nat, (row * n + column + j) as nat),
                    forall|c: int| 0 <= c < column ==>
                        #[trigger] line@[c] == decode_cell(nibble(numbers as nat, cell_index(n, row as int, c) as nat)),
                decreases PUZZLE_SIZE - column,
            {
                proof {
                    lemma_nibble_step(rest);
                    assert(nibble(rest as nat, 0) == nibble(numbers as nat, (row * n + column + 0) as nat));
                }
                let internal_number = rest & 0b1111;
                if internal_number < BLANK_NUMBER {
                    line[column] = Some((internal_number + 1) as u8);
                } else {
                    line[column] = None;
                }
                let ghost old_rest = rest;
                rest = rest >> 4;
                proof {
                    assert forall|j: nat| nibble(rest as nat, j) == #[trigger] nibble(numbers as nat, (row * n + (column + 1) + j) as nat) by {
                        assert(nibble(old_rest as nat, j + 1) == nibble(rest as nat, j));
                        assert(nibble(old_rest as nat, j + 1) == nibble(numbers as nat, (row * n + column + (j + 1)) as nat));
                    }
                }
                column += 1;
            }
            proof {
                assert((row + 1) * n == row * n + n) by (nonlinear_arith);
            }
            readable_numbers[row] = line;
            row += 1;
        }
        proof {
            assert forall|r: int| 0 <= r < n implies #[trigger] grid_of(readable_numbers)[r] =~= unpack(numbers as nat, n)[r] by {}
            assert(grid_of(readable_numbers) =~~= unpack(numbers as nat, n));
        }
        readable_numbers
    }

    /// Transforms rows of cells into their packed form.
    pub fn numbers_from_readable(numbers: &[[Option<u8>; PUZZLE_SIZE]; PUZZLE_SIZE]) -> (r: u64)
        requires
            PUZZLE_SIZE <= 4,
            forall|i: int, j: int| 0 <= i < PUZZLE_SIZE && 0 <= j < PUZZLE_SIZE && #[trigger] numbers@[i]@[j] is Some
                ==> 1 <= numbers@[i]@[j]->0 <= 15,
        ensures
            unpack(r as nat, PUZZLE_SIZE as int) == grid_of(*numbers),
            (r as nat) < pow16((PUZZLE_SIZE * PUZZLE_SIZE) as nat),
    {
        let ghost n = PUZZLE_SIZE as int;
        let ghost a = *numbers;
        let mut internal_number: u64 = 0;
        let mut row: usize = PUZZLE_SIZE;
        proof {
            assert(n * n <= 16) by (nonlinear_arith) requires 0 <= n <= 4;
            assert forall|r2: int, c2: int| on_board(n, r2, c2) implies cell_index(n, r2, c2) < cell_index(n, row as int, 0) by {
                lemma_cell_index_order(n, r2, c2, 0, 0);
            }
        }
        while row > 0
            invariant
                row <= PUZZLE_SIZE <= 4,
                n == PUZZLE_SIZE,
                n * n <= 16,
                a == *numbers,
                forall|i: int, j: int| 0 <= i < n && 0 <= j < n && #[trigger] a@[i]@[j] is Some
                    ==> 1 <= a@[i]@[j]->0 <= 15,
                (internal_number as nat) < pow16((n * n - cell_index(n, row as int, 0)) as nat),
                forall|r2: int, c2: int| on_board(n, r2, c2) && cell_index(n, r2, c2) >= cell_index(n, row as int, 0) ==>
                    nibble(internal_number as nat, (cell_index(n, r2, c2) - cell_index(n, row as int, 0)) as nat)
                        == encode_cell(#[trigger] a@[r2]@[c2]),
            decreases row,
        {
            row -= 1;
            let mut column: usize = PUZZLE_SIZE;
            proof {
                assert(cell_index(n, row as int, n) == cell_index(n, row + 1, 0)) by (nonlinear_arith);
            }
            while column > 0
                invariant
                    row < PUZZLE_SIZE <= 4,
                    column <= PUZZLE_SIZE,
                    n == PUZZLE_SIZE,
                    n * n <= 16,
                    a == *numbers,
                    forall|i: int, j: int| 0 <= i < n && 0 <= j < n && #[trigger] a@[i]@[j] is Some
                        ==> 1 <= a@[i]@[j]->0 <= 15,
                    (internal_number as nat) < pow16((n * n - cell_index(n, row as int, column as int)) as nat),
                    forall|r2: int, c2: int| on_board(n, r2, c2) && cell_index(n, r2, c2) >= cell_index(n, row as int, column as int) ==>
                        nibble(internal_number as nat, (cell_index(n, r2, c2) - cell_index(n, row as int, column as int)) as nat)
                            == encode_cell(#[trigger] a@[r2]@[c2]),
                decreases column,
            {
                column -= 1;
                let code: u64 = match numbers[row][column] {
                    Some(number_value) => (number_value - 1) as u64,
                    None => BLANK_NUMBER,
                };
                let ghost idx = cell_index(n, row as int, column as int);
                let ghost old_number = internal_number;
                proof {
                    assert(0 <= idx < n * n) by (nonlinear_arith)
                        requires idx == row * n + column, 0 <= row < n, 0 <= column < n;
                    lemma_pow16_bound((n * n - (idx + 1)) as nat);
                    lemma_push_nibble(internal_number, code);
                }
                internal_number = (internal_number << 4) | code;
                proof {
                    assert(pow16((n * n - idx) as nat) == 16 * pow16((n * n - (idx + 1)) as nat));
                    assert forall|r2: int, c2: int| on_board(n, r2, c2) && cell_index(n, r2, c2) >= idx implies
                        nibble(internal_number as nat, (cell_index(n, r2, c2) - idx) as nat)
                            == encode_cell(#[trigger] a@[r2]@[c2]) by {
                        lemma_cell_index_order(n, r2, c2, row as int, column as int);
                        if cell_index(n, r2, c2) > idx {
                            let k = (cell_index(n, r2, c2) - idx) as nat;
                            assert(nibble(internal_number as nat, k) == nibble(internal_number as nat / 16, (k - 1) as nat));
                            assert(internal_number as nat / 16 == old_number as nat);
                        }
                    }
                }
            }
        }
        proof {
            assert forall|r: int| 0 <= r < n implies #[trigger] unpack(internal_number as nat, n)[r] =~= grid_of(a)[r] by {
                assert forall|c: int| 0 <= c < n implies #[trigger] unpack(internal_number as nat, n)[r][c] == grid_of(a)[r][c] by {
                    lemma_cell_index_order(n, r, c, 0, 0);
                    assert(0 * n == 0);
                    assert(cell_index(n, r, c) - cell_index(n, 0, 0) == cell_index(n, r, c));
                }
            }
            assert(unpack(internal_number as nat, n) =~~= grid_of(a));
        }
        internal_number
    }
}

/// The solved board can be reached from `g`: the permutation's parity matches the
/// parity of the blank's distance from its place on the solved board.
pub open spec fn solvable(g: Grid, n: int) -> bool {
    let (r, c) = blank_of(g, n);
    (inversions(permutation_of(g, n)) % 2 == 0) == (coordinates::manhattan(r, c, n - 1, n - 1) % 2 == 0)
}

/// The board reached from `g` by moving the blank along `path`, if every move stays on
/// the board.
pub open spec fn replay(g: Grid, n: int, path: Seq<Direction>) -> Option<Grid>
    decreases path.len(),
{
    if path.len() == 0 {
        Some(g)
    } else {
        match replay(g, n, path.drop_last()) {
            Some(h) => if can_move(h, n, path.last()) {
                Some(move_blank(h, n, path.last()))
            } else {
                None
            },
            None => None,
        }
    }
}

/// The packed form of a board of side `n`.
pub open spec fn key_of_grid(g: Grid, n: int) -> u64 {
    choose|k: u64| (k as nat) < pow16((n * n) as nat) && unpack(k as nat, n) == g
}

/// A move followed by the opposite move leaves the board as it was.
pub proof fn lemma_move_undo(g: Grid, n: int, d: Direction)
    requires
        valid_board(g, n),
        can_move(g, n, d),
    ensures
        valid_board(move_blank(g, n, d), n),
        blank_of(move_blank(g, n, d), n) == (blank_of(g, n).0 + row_delta(d), blank_of(g, n).1 + column_delta(d)),
        can_move(move_blank(g, n, d), n, direction::opposite_of(d)),
        move_blank(move_blank(g, n, d), n, direction::opposite_of(d)) == g,
{
    let (r0, c0) = choose|r: int, c: int| on_board(n, r, c) && #[trigger] g[r][c] is None;
    lemma_blank_of(g, n, r0, c0);
    let (br, bc) = blank_of(g, n);
    let (sr, sc) = (br + row_delta(d), bc + column_delta(d));
    let h = move_blank(g, n, d);
    lemma_swap_valid(g, n, br, bc, sr, sc);
    assert(blank_at(h, n, sr, sc));
    lemma_blank_of(h, n, sr, sc);
    let back = move_blank(h, n, direction::opposite_of(d));
    assert forall|r: int| 0 <= r < g.len() implies #[trigger] back[r] =~= g[r] by {}
    assert(back =~~= g);
}

proof fn lemma_nibble_bound(x: nat, k: nat)
    ensures
        nibble(x, k) < 16,
    decreases k,
{
    if k > 0 {
        lemma_nibble_bound(x / 16, (k - 1) as nat);
    }
}

proof fn lemma_nibbles_equal(x: nat, y: nat, m: nat)
    requires
        x < pow16(m),
        y < pow16(m),
        forall|k: nat| k < m ==> #[trigger] nibble(x, k) == nibble(y, k),
    ensures
        x == y,
    decreases m,
{
    if m == 0 {
    } else {
        assert(nibble(x, 0) == nibble(y, 0));
        assert forall|k: nat| k < (m - 1) as nat implies #[trigger] nibble(x / 16, k) == nibble(y / 16, k) by {
            assert(nibble(x, k + 1) == nibble(y, k + 1));
        }
        assert(x / 16 < pow16((m - 1) as nat)) by {
            vstd::arithmetic::div_mod::lemma_div_by_multiple_is_strongly_ordered(x as int, (16 * pow16((m - 1) as nat)) as int, pow16((m - 1) as nat) as int, 16);
        }
        assert(y / 16 < pow16((m - 1) as nat)) by {
            vstd::arithmetic::div_mod::lemma_div_by_multiple_is_strongly_ordered(y as int, (16 * pow16((m - 1) as nat)) as int, pow16((m - 1) as nat) as int, 16);
        }
        lemma_nibbles_equal(x / 16, y / 16, (m - 1) as nat);
    }
}

/// Two packed boards that hold the same cells are equal.
proof fn lemma_unpack_injective(x: nat, y: nat, n: int)
    requires
        2 <= n <= 4,
        x < pow16((n * n) as nat),
        y < pow16((n * n) as nat),
        unpack(x, n) == unpack(y, n),
    ensures
        x == y,
{
    assert forall|k: nat| k < (n * n) as nat implies #[trigger] nibble(x, k) == nibble(y, k) by {
        let r = k as int / n;
        let c = k as int % n;
        assert(cell_index(n, r, c) == k && on_board(n, r, c)) by (nonlinear_arith)
            requires r == k as int / n, c == k as int % n, 0 <= k < n * n, n > 0;
        assert(unpack(x, n)[r][c] == unpack(y, n)[r][c]);
        lemma_nibble_bound(x, k);
        lemma_nibble_bound(y, k);
    }
    lemma_nibbles_equal(x, y, (n * n) as nat);
}

/// What reading the text `s` as a board of side `n` gives: the board, or the first
/// fault of the text, or the fault of its cells.
pub open spec fn parse_board(s: Seq<u8>, n: int) -> Result<Grid, PuzzleStateParseError> {
    if n < 2 || n > 4 {
        Err(PuzzleStateParseError::NotPermutation)
    } else {
        match text::parse_grid(s, n) {
            Err(e) => Err(e),
            Ok(g) => if valid_board(g, n) {
                Ok(g)
            } else {
                Err(match creation_error(g, n) {
                    PuzzleStateCreationError::TwoBlanks => PuzzleStateParseError::TwoBlanks,
                    PuzzleStateCreationError::NotPermutation => PuzzleStateParseError::NotPermutation,
                })
            },
        }
    }
}

/// Decoding a packed board and packing its cells again gives the packed board back;
/// packing a valid board's cells and decoding them gives the cells back.
pub proof fn lemma_decode_encode(x: u64, n: int)
    requires
        2 <= n <= 4,
        (x as nat) < pow16((n * n) as nat),
    ensures
        key_of_grid(unpack(x as nat, n), n) == x,
        unpack(key_of_grid(unpack(x as nat, n), n) as nat, n) == unpack(x as nat, n),
{
    let k = key_of_grid(unpack(x as nat, n), n);
    assert((x as nat) < pow16((n * n) as nat) && unpack(x as nat, n) == unpack(x as nat, n));
    lemma_unpack_injective(k as nat, x as nat, n);
}

/// Reading the text form of a valid board gives the board back; so rendering a board
/// that was read from text reproduces that text.
pub proof fn lemma_text_round_trip(g: Grid, n: int)
    requires
        2 <= n <= 4,
        valid_board(g, n),
    ensures
        parse_board(vstd::utf8::encode_utf8(text::board_text(g, n)), n) == Ok::<Grid, PuzzleStateParseError>(g),
{
    text::lemma_board_text_bytes(g, n);
    text::lemma_parse_board_bytes(g, n);
}

/// Position `k` of the row-major order is the cell `(k / n, k % n)`.
proof fn lemma_index_cell(n: int, k: int)
    requires
        2 <= n,
        0 <= k < n * n,
    ensures
        on_board(n, k / n, k % n),
        cell_index(n, k / n, k % n) == k,
{
    vstd::arithmetic::div_mod::lemma_fundamental_div_mod(k, n);
    assert(0 <= k / n < n) by (nonlinear_arith) requires 0 <= k < n * n, 2 <= n;
    assert(cell_index(n, k / n, k % n) == k) by (nonlinear_arith)
        requires k == n * (k / n) + k % n, cell_index(n, k / n, k % n) == (k / n) * n + k % n;
}

/// The permutation of a valid board has no repeated entry.
proof fn lemma_permutation_distinct(g: Grid, n: int)
    requires
        2 <= n <= 4,
        valid_board(g, n),
    ensures
        distinct_entries(permutation_of(g, n)),
        permutation_of(g, n).len() == n * n,
{
    let p = permutation_of(g, n);
    assert(n * n <= 16) by (nonlinear_arith) requires 2 <= n <= 4;
    assert forall|a: int, b: int| 0 <= a < p.len() && 0 <= b < p.len() && a != b implies #[trigger] p[a] != #[trigger] p[b] by {
        lemma_index_cell(n, a);
        lemma_index_cell(n, b);
        let (ra, ca) = (a / n, a % n);
        let (rb, cb) = (b / n, b % n);
        if ra == rb && ca == cb {
            assert(cell_index(n, ra, ca) == cell_index(n, rb, cb));
        }
        if g[ra][ca] is Some && g[rb][cb] is Some {
            if g[ra][ca] == g[rb][cb] {
                assert(ra == rb && ca == cb);
            }
        }
        if g[ra][ca] is None && g[rb][cb] is None {
            assert(ra == rb && ca == cb);
        }
    }
}

/// A move of the blank exchanges two entries of the board's permutation.
proof fn lemma_permutation_move(g: Grid, n: int, d: Direction)
    requires
        2 <= n <= 4,
        valid_board(g, n),
        can_move(g, n, d),
    ensures
        permutation_of(move_blank(g, n, d), n) == swap_entries(
            permutation_of(g, n),
            cell_index(n, blank_of(g, n).0, blank_of(g, n).1),
            cell_index(n, blank_of(g, n).0 + row_delta(d), blank_of(g, n).1 + column_delta(d)),
        ),
{
    let (br, bc) = blank_of(g, n);
    let (r0, c0) = choose|r: int, c: int| on_board(n, r, c) && #[trigger] g[r][c] is None;
    lemma_blank_of(g, n, r0, c0);
    let (tr, tc) = (br + row_delta(d), bc + column_delta(d));
    let kb = cell_index(n, br, bc);
    let kt = cell_index(n, tr, tc);
    let h = move_blank(g, n, d);
    let p = permutation_of(g, n);
    let q = permutation_of(h, n);
    let w = swap_entries(p, kb, kt);
    lemma_cell_index_order(n, br, bc, tr, tc);
    lemma_cell_index_order(n, br, bc, 0, 0);
    lemma_cell_index_order(n, tr, tc, 0, 0);
    lemma_index_cell(n, kb);
    lemma_index_cell(n, kt);
    vstd::arithmetic::div_mod::lemma_fundamental_div_mod_converse(kb, n, br, bc);
    vstd::arithmetic::div_mod::lemma_fundamental_div_mod_converse(kt, n, tr, tc);
    assert forall|k: int| 0 <= k < q.len() implies #[trigger] q[k] == w[k] by {
        lemma_index_cell(n, k);
        let (r, c) = (k / n, k % n);
        lemma_cell_index_order(n, r, c, br, bc);
        lemma_cell_index_order(n, r, c, tr, tc);
    }
    assert(q =~= w);
}

/// The solved board's permutation has no inversion.
proof fn lemma_goal_inversions(g: Grid, n: int)
    requires
        2 <= n <= 4,
        is_goal(g, n),
    ensures
        inversions(permutation_of(g, n)) == 0,
{
    let p = permutation_of(g, n);
    let m = n * n;
    assert(4 <= m <= 16) by (nonlinear_arith) requires 2 <= n <= 4, m == n * n;
    assert forall|k: int| 0 <= k < m implies #[trigger] p[k] == k + 1 by {
        lemma_index_cell(n, k);
        let (r, c) = (k / n, k % n);
        assert(g[r][c] == goal_cell(n, r, c));
        lemma_cell_index_order(n, r, c, n - 1, n - 1);
        assert(cell_index(n, n - 1, n - 1) == m - 1) by (nonlinear_arith) requires m == n * n;
    }
    lemma_increasing_inversions(p, 0);
}

proof fn lemma_increasing_inversions(p: Seq<u8>, i: int)
    requires
        0 <= i <= p.len(),
        forall|k: int| 0 <= k < p.len() ==> #[trigger] p[k] == k + 1,
    ensures
        inversions_from(p, i) == 0,
    decreases p.len() - i,
{
    if i < p.len() {
        lemma_increasing_count(p, i + 1, p[i]);
        lemma_increasing_inversions(p, i + 1);
    }
}

proof fn lemma_increasing_count(p: Seq<u8>, j: int, x: u8)
    requires
        0 <= j,
        x as int <= j,
        forall|k: int| 0 <= k < p.len() ==> #[trigger] p[k] == k + 1,
    ensures
        count_smaller_from(p, j, x) == 0,
    decreases p.len() - j,
{
    if j < p.len() {
        lemma_increasing_count(p, j + 1, x);
    }
}

/// A move of the blank keeps a board solvable or unsolvable.
proof fn lemma_move_keeps_solvable(g: Grid, n: int, d: Direction)
    requires
        2 <= n <= 4,
        valid_board(g, n),
        can_move(g, n, d),
    ensures
        solvable(move_blank(g, n, d), n) == solvable(g, n),
{
    let (br, bc) = blank_of(g, n);
    let (tr, tc) = (br + row_delta(d), bc + column_delta(d));
    let kb = cell_index(n, br, bc);
    let kt = cell_index(n, tr, tc);
    let p = permutation_of(g, n);
    lemma_move_undo(g, n, d);
    lemma_permutation_move(g, n, d);
    lemma_permutation_distinct(g, n);
    let (r0, c0) = choose|r: int, c: int| on_board(n, r, c) && #[trigger] g[r][c] is None;
    lemma_blank_of(g, n, r0, c0);
    lemma_cell_index_order(n, br, bc, tr, tc);
    lemma_cell_index_order(n, tr, tc, br, bc);
    if kb < kt {
        lemma_swap_parity(p, kb, kt - kb);
    } else {
        lemma_swap_parity(p, kt, kb - kt);
        assert(swap_entries(p, kt, kb) =~= swap_entries(p, kb, kt));
    }
}

/// A valid board from which the blank's moves reach the solved board is solvable: each
/// move keeps the parity condition, and the solved board meets it.
pub proof fn lemma_reachable_is_solvable(g: Grid, n: int, path: Seq<Direction>)
    requires
        2 <= n <= 4,
        valid_board(g, n),
        replay(g, n, path) is Some,
        is_goal(replay(g, n, path)->0, n),
    ensures
        solvable(g, n),
{
    let e = replay(g, n, path)->0;
    lemma_replay_valid(g, n, path);
    lemma_goal_inversions(e, n);
    assert(e[n - 1][n - 1] == goal_cell(n, n - 1, n - 1));
    lemma_blank_of(e, n, n - 1, n - 1);
    lemma_reachable_is_solvable_from(g, n, path, e);
}

proof fn lemma_reachable_is_solvable_from(g: Grid, n: int, path: Seq<Direction>, h: Grid)
    requires
        2 <= n <= 4,
        valid_board(g, n),
        replay(g, n, path) == Some(h),
    ensures
        solvable(g, n) == solvable(h, n),
    decreases path.len(),
{
    if path.len() > 0 {
        let h0 = replay(g, n, path.drop_last())->0;
        lemma_replay_valid(g, n, path.drop_last());
        lemma_reachable_is_solvable_from(g, n, path.drop_last(), h0);
        lemma_move_keeps_solvable(h0, n, path.last());
    }
}

/// Entries without repeats, all in `1 ..= q.len()`, take every value of that range.
proof fn lemma_pigeonhole(q: Seq<int>)
    requires
        q.no_duplicates(),
        forall|k: int| 0 <= k < q.len() ==> 1 <= #[trigger] q[k] <= q.len(),
    ensures
        forall|x: int| 1 <= x <= q.len() ==> #[trigger] q.contains(x),
{
    let m = q.len() as int;
    q.unique_seq_to_set();
    let s = q.to_set();
    let range = vstd::set_lib::set_int_range(1, m + 1);
    vstd::set_lib::lemma_int_range(1, m + 1);
    assert(s.subset_of(range)) by {
        assert forall|x: int| #[trigger] s.contains(x) implies range.contains(x) by {
            let k = choose|k: int| 0 <= k < q.len() && q[k] == x;
        }
    }
    vstd::set_lib::lemma_len_subset(s, range);
    vstd::set_lib::lemma_subset_equality(s, range);
    assert forall|x: int| 1 <= x <= q.len() implies #[trigger] q.contains(x) by {
        assert(range.contains(x));
        assert(s.contains(x));
    }
}

/// Number `v` stands in some cell.
pub open spec fn tile_present(g: Grid, n: int, v: int) -> bool {
    exists|r: int, c: int| on_board(n, r, c) && #[trigger] g[r][c] == Some(v as u8)
}

/// Every number of `1 .. n*n - 1` stands in some cell of a valid board.
pub proof fn lemma_every_tile_present(g: Grid, n: int)
    requires
        2 <= n <= 4,
        valid_board(g, n),
    ensures
        forall|v: int| 1 <= v < n * n ==> #[trigger] tile_present(g, n, v),
{
    let p = permutation_of(g, n);
    lemma_permutation_distinct(g, n);
    assert(n * n <= 16) by (nonlinear_arith) requires 2 <= n <= 4;
    let q = p.map_values(|x: u8| x as int);
    assert forall|a: int, b: int| 0 <= a < q.len() && 0 <= b < q.len() && a != b implies q[a] != q[b] by {
        assert(p[a] != p[b]);
    }
    assert forall|k: int| 0 <= k < q.len() implies 1 <= #[trigger] q[k] <= q.len() by {
        lemma_index_cell(n, k);
        let (r, c) = (k / n, k % n);
        assert(p[k] == match g[r][c] { Some(v) => v, None => (n * n) as u8 });
    }
    lemma_pigeonhole(q);
    assert forall|v: int| 1 <= v < n * n implies #[trigger] tile_present(g, n, v) by {
        assert(q.contains(v));
        let k = choose|k: int| 0 <= k < q.len() && q[k] == v;
        lemma_index_cell(n, k);
        let (r, c) = (k / n, k % n);
        assert(p[k] == match g[r][c] { Some(w) => w, None => (n * n) as u8 });
        assert(g[r][c] == Some(v as u8));
    }
}

/// A board reached from the solved board by moves of the blank is solvable.
pub proof fn lemma_reached_from_goal_is_solvable(start: Grid, n: int, path: Seq<Direction>)
    requires
        2 <= n <= 4,
        valid_board(start, n),
        is_goal(start, n),
        replay(start, n, path) is Some,
    ensures
        solvable(replay(start, n, path)->0, n),
{
    lemma_goal_inversions(start, n);
    assert(start[n - 1][n - 1] == goal_cell(n, n - 1, n - 1));
    lemma_blank_of(start, n, n - 1, n - 1);
    lemma_reachable_is_solvable_from(start, n, path, replay(start, n, path)->0);
}

/// Replaying moves from a valid board keeps it valid.
pub proof fn lemma_replay_valid(g: Grid, n: int, path: Seq<Direction>)
    requires
        valid_board(g, n),
        replay(g, n, path) is Some,
    ensures
        valid_board(replay(g, n, path)->0, n),
    decreases path.len(),
{
    if path.len() > 0 {
        lemma_replay_valid(g, n, path.drop_last());
        lemma_move_undo(replay(g, n, path.drop_last())->0, n, path.last());
    }
}

/// Cell `(r, c)` holds the blank.
pub open spec fn blank_at(g: Grid, n: int, r: int, c: int) -> bool {
    on_board(n, r, c) && g[r][c] is None
}

/// Where the blank stands.
pub open spec fn blank_of(g: Grid, n: int) -> (int, int) {
    choose|r: int, c: int| blank_at(g, n, r, c)
}

/// The blank can move in direction `d` without leaving the board.
pub open spec fn can_move(g: Grid, n: int, d: Direction) -> bool {
    on_board(n, blank_of(g, n).0 + row_delta(d), blank_of(g, n).1 + column_delta(d))
}

/// `g` with the contents of cells `(r1, c1)` and `(r2, c2)` exchanged.
pub open spec fn swap_cells(g: Grid, r1: int, c1: int, r2: int, c2: int) -> Grid {
    Seq::new(
        g.len(),
        |r: int| Seq::new(
            g[r].len(),
            |c: int| if r == r1 && c == c1 {
                g[r2][c2]
            } else if r == r2 && c == c2 {
                g[r1][c1]
            } else {
                g[r][c]
            },
        ),
    )
}

/// The board after the blank moves in direction `d`.
pub open spec fn move_blank(g: Grid, n: int, d: Direction) -> Grid {
    let (r, c) = blank_of(g, n);
    swap_cells(g, r, c, r + row_delta(d), c + column_delta(d))
}

/// The directions in which the blank can move, in the order up, down, left, right.
pub open spec fn legal_directions(g: Grid, n: int) -> Seq<Direction> {
    (if can_move(g, n, Direction::Up) { seq![Direction::Up] } else { seq![] })
        + (if can_move(g, n, Direction::Down) { seq![Direction::Down] } else { seq![] })
        + (if can_move(g, n, Direction::Left) { seq![Direction::Left] } else { seq![] })
        + (if can_move(g, n, Direction::Right) { seq![Direction::Right] } else { seq![] })
}

/// Every direction listed as legal can be moved in.
pub proof fn lemma_legal_directions(g: Grid, n: int, i: int)
    requires
        0 <= i < legal_directions(g, n).len(),
    ensures
        can_move(g, n, legal_directions(g, n)[i]),
{
    let a = if can_move(g, n, Direction::Up) { seq![Direction::Up] } else { seq![] };
    let b = if can_move(g, n, Direction::Down) { seq![Direction::Down] } else { seq![] };
    let c = if can_move(g, n, Direction::Left) { seq![Direction::Left] } else { seq![] };
    let d = if can_move(g, n, Direction::Right) { seq![Direction::Right] } else { seq![] };
    let l = legal_directions(g, n);
    assert(l == a + b + c + d);
    assert forall|j: int| 0 <= j < l.len() implies can_move(g, n, #[trigger] l[j]) by {
        if j < a.len() {
            assert(l[j] == a[j]);
        } else if j < a.len() + b.len() {
            assert(l[j] == b[j - a.len()]);
        } else if j < a.len() + b.len() + c.len() {
            assert(l[j] == c[j - a.len() - b.len()]);
        } else {
            assert(l[j] == d[j - a.len() - b.len() - c.len()]);
        }
    }
}

/// Every direction that can be moved in is listed as legal.
pub proof fn lemma_legal_contains(g: Grid, n: int, d: Direction)
    requires
        can_move(g, n, d),
    ensures
        exists|i: int| 0 <= i < legal_directions(g, n).len() && #[trigger] legal_directions(g, n)[i] == d,
{
    let a = if can_move(g, n, Direction::Up) { seq![Direction::Up] } else { seq![] };
    let b = if can_move(g, n, Direction::Down) { seq![Direction::Down] } else { seq![] };
    let c = if can_move(g, n, Direction::Left) { seq![Direction::Left] } else { seq![] };
    let e = if can_move(g, n, Direction::Right) { seq![Direction::Right] } else { seq![] };
    let l = legal_directions(g, n);
    assert(l == a + b + c + e);
    match d {
        Direction::Up => assert(l[0] == d),
        Direction::Down => assert(l[a.len() as int] == d),
        Direction::Left => assert(l[(a.len() + b.len()) as int] == d),
        Direction::Right => assert(l[(a.len() + b.len() + c.len()) as int] == d),
    }
}

/// What cell `(r, c)` holds on the solved board.
pub open spec fn goal_cell(n: int, r: int, c: int) -> Option<u8> {
    if r == n - 1 && c == n - 1 {
        None
    } else {
        Some((cell_index(n, r, c) + 1) as u8)
    }
}

/// The solved board: numbers ascending in row-major order, blank in the last cell.
pub open spec fn is_goal(g: Grid, n: int) -> bool {
    forall|r: int, c: int| on_board(n, r, c) ==> #[trigger] g[r][c] == goal_cell(n, r, c)
}

/// The blank of a valid board stands in one cell only.
pub proof fn lemma_blank_of(g: Grid, n: int, r: int, c: int)
    requires
        valid_board(g, n),
        blank_at(g, n, r, c),
    ensures
        blank_of(g, n) == (r, c),
{
    let (br, bc) = blank_of(g, n);
    assert(blank_at(g, n, br, bc));
}

/// Exchanging two cells of a valid board gives a valid board.
pub proof fn lemma_swap_valid(g: Grid, n: int, r1: int, c1: int, r2: int, c2: int)
    requires
        valid_board(g, n),
        on_board(n, r1, c1),
        on_board(n, r2, c2),
    ensures
        valid_board(swap_cells(g, r1, c1, r2, c2), n),
{
    let s = swap_cells(g, r1, c1, r2, c2);
    let src = |r: int, c: int| if r == r1 && c == c1 {
        (r2, c2)
    } else if r == r2 && c == c2 {
        (r1, c1)
    } else {
        (r, c)
    };
    assert forall|r: int, c: int| on_board(n, r, c) implies #[trigger] s[r][c] == g[src(r, c).0][src(r, c).1]
        && on_board(n, src(r, c).0, src(r, c).1) by {}
    assert forall|r: int, c: int| on_board(n, r, c) && #[trigger] s[r][c] is Some implies 1 <= s[r][c]->0 < n * n by {
        assert(s[r][c] == g[src(r, c).0][src(r, c).1]);
    }
    assert forall|ra: int, ca: int, rb: int, cb: int|
        on_board(n, ra, ca) && on_board(n, rb, cb) && #[trigger] s[ra][ca] == #[trigger] s[rb][cb]
            && s[ra][ca] is Some implies ra == rb && ca == cb by {
        assert(s[ra][ca] == g[src(ra, ca).0][src(ra, ca).1]);
        assert(s[rb][cb] == g[src(rb, cb).0][src(rb, cb).1]);
    }
    assert forall|ra: int, ca: int, rb: int, cb: int|
        on_board(n, ra, ca) && on_board(n, rb, cb) && #[trigger] s[ra][ca] is None
            && #[trigger] s[rb][cb] is None implies ra == rb && ca == cb by {
        assert(s[ra][ca] == g[src(ra, ca).0][src(ra, ca).1]);
        assert(s[rb][cb] == g[src(rb, cb).0][src(rb, cb).1]);
    }
    let (br, bc) = choose|r: int, c: int| on_board(n, r, c) && #[trigger] g[r][c] is None;
    let (sr, sc) = if br == r1 && bc == c1 { (r2, c2) } else if br == r2 && bc == c2 { (r1, c1) } else { (br, bc) };
    assert(s[sr][sc] == g[src(sr, sc).0][src(sr, sc).1]);
    assert(s[sr][sc] is None);
}

/// Row-major order of cells agrees with the order of their positions.
pub proof fn lemma_cell_index_order(n: int, r1: int, c1: int, r2: int, c2: int)
    requires
        on_board(n, r1, c1),
        on_board(n, r2, c2),
    ensures
        before(r1, c1, r2, c2) <==> cell_index(n, r1, c1) < cell_index(n, r2, c2),
        (r1 == r2 && c1 == c2) <==> cell_index(n, r1, c1) == cell_index(n, r2, c2),
        0 <= cell_index(n, r1, c1) < n * n,
{
    assert(0 <= cell_index(n, r1, c1) < n * n) by (nonlinear_arith)
        requires on_board(n, r1, c1), cell_index(n, r1, c1) == r1 * n + c1;
    if r1 < r2 {
        assert(r1 * n + c1 < r2 * n + c2) by (nonlinear_arith)
            requires r1 < r2, 0 <= c1 < n, 0 <= c2;
    } else if r2 < r1 {
        assert(r2 * n + c2 < r1 * n + c1) by (nonlinear_arith)
            requires r2 < r1, 0 <= c2 < n, 0 <= c1;
    }
}


/// Of two faulty cells, at most one is the first.
proof fn lemma_first_fault_unique(g: Grid, n: int, r1: int, c1: int, r2: int, c2: int)
    requires
        first_fault_at(g, n, r1, c1),
        first_fault_at(g, n, r2, c2),
    ensures
        r1 == r2 && c1 == c2,
{
    if before(r1, c1, r2, c2) {
        assert(cell_fault(g, n, r1, c1) is None);
    } else if before(r2, c2, r1, c1) {
        assert(cell_fault(g, n, r2, c2) is None);
    }
}

/// A cell that breaks the rules makes the board invalid.
proof fn lemma_fault_breaks(g: Grid, n: int, r: int, c: int)
    requires
        is_square(g, n),
        on_board(n, r, c),
        cell_fault(g, n, r, c) is Some,
    ensures
        !valid_board(g, n),
{
    if valid_board(g, n) {
        match g[r][c] {
            Some(v) => {
                if !(v < 1 || v >= n * n) {
                    let (r2, c2) = choose|r2: int, c2: int|
                        on_board(n, r2, c2) && before(r2, c2, r, c) && #[trigger] g[r2][c2] == Some(v);
                    assert(g[r2][c2] == g[r][c]);
                }
            },
            None => {
                let (r2, c2) = choose|r2: int, c2: int|
                    on_board(n, r2, c2) && before(r2, c2, r, c) && #[trigger] g[r2][c2] is None;
                assert(g[r2][c2] is None && g[r][c] is None);
            },
        }
    }
}

/// A square grid with a blank and no faulty cell is a valid board.
proof fn lemma_no_fault_valid(g: Grid, n: int)
    requires
        is_square(g, n),
        forall|r: int, c: int| on_board(n, r, c) ==> #[trigger] cell_fault(g, n, r, c) is None,
        exists|r: int, c: int| on_board(n, r, c) && #[trigger] g[r][c] is None,
    ensures
        valid_board(g, n),
{
    assert forall|r: int, c: int| on_board(n, r, c) && #[trigger] g[r][c] is Some implies 1 <= g[r][c]->0 < n * n by {
        assert(cell_fault(g, n, r, c) is None);
    }
    assert forall|r1: int, c1: int, r2: int, c2: int|
        on_board(n, r1, c1) && on_board(n, r2, c2) && #[trigger] g[r1][c1] == #[trigger] g[r2][c2]
            && g[r1][c1] is Some implies r1 == r2 && c1 == c2 by {
        assert(cell_fault(g, n, r1, c1) is None);
        assert(cell_fault(g, n, r2, c2) is None);
        if before(r1, c1, r2, c2) {
            assert(on_board(n, r1, c1) && before(r1, c1, r2, c2) && g[r1][c1] == Some(g[r2][c2]->0));
        } else if before(r2, c2, r1, c1) {
            assert(on_board(n, r2, c2) && before(r2, c2, r1, c1) && g[r2][c2] == Some(g[r1][c1]->0));
        }
    }
    assert forall|r1: int, c1: int, r2: int, c2: int|
        on_board(n, r1, c1) && on_board(n, r2, c2) && #[trigger] g[r1][c1] is None
            && #[trigger] g[r2][c2] is None implies r1 == r2 && c1 == c2 by {
        assert(cell_fault(g, n, r1, c1) is None);
        assert(cell_fault(g, n, r2, c2) is None);
    }
}

proof fn lemma_nibble_step(x: u64)
    ensures
        x & 0b1111 == x % 16,
        x >> 4 == x / 16,
{
    assert(x & 0b1111 == x % 16) by (bit_vector);
    assert(x >> 4 == x / 16) by (bit_vector);
}

proof fn lemma_push_nibble(acc: u64, code: u64)
    requires
        acc < 0x1000_0000_0000_0000,
        code < 16,
    ensures
        (acc << 4) | code == acc * 16 + code,
{
    assert((acc << 4) | code == acc * 16 + code) by (bit_vector)
        requires
            acc < 0x1000_0000_0000_0000,
            code < 16,
    ;
}

/// On the 4x4 board, a packed value that holds a board's cells is that board's key.
pub proof fn lemma_key_unique(s: PuzzleState<4>, k: u64)
    requires
        s.wf(),
        unpack(k as nat, 4) == s@,
    ensures
        k == s.key_spec(),
{
    reveal_with_fuel(pow16, 17);
    assert(pow16(16) == 0x1_0000_0000_0000_0000);
    s.lemma_key();
    lemma_unpack_injective(k as nat, s.key_spec() as nat, 4);
}

proof fn lemma_pow16_bound(k: nat)
    requires
        k <= 16,
    ensures
        1 <= pow16(k) <= 0x1_0000_0000_0000_0000,
        k <= 15 ==> pow16(k) <= 0x1000_0000_0000_0000,
    decreases k,
{
    reveal_with_fuel(pow16, 17);
    if k > 0 {
        lemma_pow16_bound((k - 1) as nat);
    }
}

} // verus!
