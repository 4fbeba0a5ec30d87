//! Manhattan distance heuristic.
use vstd::prelude::*;

use super::Heuristic;
use crate::puzzle_state::coordinates::{manhattan, BoardCoordinates};
use crate::puzzle_state::direction::{column_delta, row_delta, Direction};
use crate::puzzle_state::{
    blank_at, blank_of, can_move, cell_index, goal_cell, grid_of, is_goal, lemma_blank_of, lemma_move_undo,
    move_blank, on_board, replay, valid_board, Grid,
};

verus! {

/// Distance of the tile in cell `(r, c)` from its cell on the solved board; 0 for the
/// blank.
pub open spec fn tile_distance(g: Grid, n: int, r: int, c: int) -> int {
    match g[r][c] {
        Some(v) => manhattan(r, c, (v - 1) / n, (v - 1) % n),
        None => 0,
    }
}

/// Sum of the tile distances in row `r` before column `c`.
pub open spec fn row_distance(g: Grid, n: int, r: int, c: int) -> int
    decreases c,
{
    if c <= 0 {
        0
    } else {
        row_distance(g, n, r, c - 1) + tile_distance(g, n, r, c - 1)
    }
}

/// Sum of the tile distances in the first `r` rows.
pub open spec fn distance_sum(g: Grid, n: int, r: int) -> int
    decreases r,
{
    if r <= 0 {
        0
    } else {
        distance_sum(g, n, r - 1) + row_distance(g, n, r - 1, n)
    }
}

/// The Manhattan distance estimate of an `n` by `n` board: the sum, over all tiles, of
/// their distances from their cells on the solved board.
pub open spec fn manhattan_estimate(g: Grid, n: int) -> int {
    distance_sum(g, n, n)
}

/// Changing the tile distances of two cells of row `r` changes the row's sum by the
/// two changes.
proof fn lemma_row_change(g1: Grid, g2: Grid, n: int, r: int, c: int, r1: int, c1: int, r2: int, c2: int)
    requires
        0 <= c <= n,
        !(r1 == r2 && c1 == c2),
        forall|cc: int| 0 <= cc < n && !(r == r1 && cc == c1) && !(r == r2 && cc == c2)
            ==> #[trigger] tile_distance(g2, n, r, cc) == tile_distance(g1, n, r, cc),
    ensures
        row_distance(g2, n, r, c) == row_distance(g1, n, r, c)
            + (if r == r1 && 0 <= c1 < c { tile_distance(g2, n, r1, c1) - tile_distance(g1, n, r1, c1) } else { 0 })
            + (if r == r2 && 0 <= c2 < c { tile_distance(g2, n, r2, c2) - tile_distance(g1, n, r2, c2) } else { 0 }),
    decreases c,
{
    if c > 0 {
        lemma_row_change(g1, g2, n, r, c - 1, r1, c1, r2, c2);
    }
}

/// Changing the tile distances of two cells changes the sum of the first `r` rows by the
/// changes of those cells among them.
proof fn lemma_sum_change(g1: Grid, g2: Grid, n: int, r: int, r1: int, c1: int, r2: int, c2: int)
    requires
        0 <= r <= n,
        on_board(n, r1, c1),
        on_board(n, r2, c2),
        !(r1 == r2 && c1 == c2),
        forall|rr: int, cc: int| on_board(n, rr, cc) && !(rr == r1 && cc == c1) && !(rr == r2 && cc == c2)
            ==> #[trigger] tile_distance(g2, n, rr, cc) == tile_distance(g1, n, rr, cc),
    ensures
        distance_sum(g2, n, r) == distance_sum(g1, n, r)
            + (if r1 < r { tile_distance(g2, n, r1, c1) - tile_distance(g1, n, r1, c1) } else { 0 })
            + (if r2 < r { tile_distance(g2, n, r2, c2) - tile_distance(g1, n, r2, c2) } else { 0 }),
    decreases r,
{
    if r > 0 {
        lemma_sum_change(g1, g2, n, r - 1, r1, c1, r2, c2);
        assert forall|cc: int| 0 <= cc < n && !(r - 1 == r1 && cc == c1) && !(r - 1 == r2 && cc == c2)
            implies #[trigger] tile_distance(g2, n, r - 1, cc) == tile_distance(g1, n, r - 1, cc) by {
            assert(on_board(n, r - 1, cc));
        }
        lemma_row_change(g1, g2, n, r - 1, n, r1, c1, r2, c2);
    }
}

/// One move of the blank lowers the Manhattan estimate by at most one.
proof fn lemma_move_estimate(g: Grid, n: int, d: Direction)
    requires
        2 <= n <= 4,
        valid_board(g, n),
        can_move(g, n, d),
    ensures
        manhattan_estimate(g, n) <= manhattan_estimate(move_blank(g, n, d), n) + 1,
{
    let (br, bc) = blank_of(g, n);
    let (r0, c0) = choose|r: int, c: int| on_board(n, r, c) && #[trigger] g[r][c] is None;
    lemma_blank_of(g, n, r0, c0);
    let (tr, tc) = (br + row_delta(d), bc + column_delta(d));
    let h = move_blank(g, n, d);
    assert(g[tr][tc] is Some) by {
        if g[tr][tc] is None {
            assert(blank_at(g, n, tr, tc));
        }
    }
    let v = g[tr][tc]->0;
    let gr = (v - 1) / n;
    let gc = (v - 1) % n;
    assert(h[br][bc] == Some(v));
    assert(h[tr][tc] is None);
    assert forall|rr: int, cc: int| on_board(n, rr, cc) && !(rr == br && cc == bc) && !(rr == tr && cc == tc)
        implies #[trigger] tile_distance(h, n, rr, cc) == tile_distance(g, n, rr, cc) by {
        assert(h[rr][cc] == g[rr][cc]);
    }
    lemma_sum_change(g, h, n, n, br, bc, tr, tc);
    assert(tile_distance(h, n, br, bc) == manhattan(br, bc, gr, gc));
    assert(tile_distance(g, n, tr, tc) == manhattan(tr, tc, gr, gc));
}

/// Along any path, the Manhattan estimate at the start is at most the number of moves
/// plus the estimate at the end.
proof fn lemma_path_estimate(g: Grid, n: int, path: Seq<Direction>)
    requires
        2 <= n <= 4,
        valid_board(g, n),
        replay(g, n, path) is Some,
    ensures
        valid_board(replay(g, n, path)->0, n),
        manhattan_estimate(g, n) <= path.len() + manhattan_estimate(replay(g, n, path)->0, n),
    decreases path.len(),
{
    if path.len() > 0 {
        let h = replay(g, n, path.drop_last())->0;
        lemma_path_estimate(g, n, path.drop_last());
        lemma_move_undo(h, n, path.last());
        lemma_move_estimate(h, n, path.last());
    }
}

proof fn lemma_row_bounds(g: Grid, n: int, r: int, c: int)
    requires
        0 <= c,
    ensures
        0 <= row_distance(g, n, r, c),
        forall|cc: int| 0 <= cc < c ==> #[trigger] tile_distance(g, n, r, cc) <= row_distance(g, n, r, c),
    decreases c,
{
    if c > 0 {
        lemma_row_bounds(g, n, r, c - 1);
    }
}

proof fn lemma_sum_bounds(g: Grid, n: int, r: int)
    requires
        0 <= r,
        0 <= n,
    ensures
        0 <= distance_sum(g, n, r),
        forall|rr: int, cc: int| 0 <= rr < r && 0 <= cc < n ==> #[trigger] tile_distance(g, n, rr, cc) <= distance_sum(g, n, r),
    decreases r,
{
    if r > 0 {
        lemma_sum_bounds(g, n, r - 1);
        lemma_row_bounds(g, n, r - 1, n);
    }
}

proof fn lemma_goal_distances(g: Grid, n: int, r: int)
    requires
        2 <= n <= 4,
        is_goal(g, n),
        0 <= r <= n,
    ensures
        distance_sum(g, n, r) == 0,
    decreases r,
{
    if r > 0 {
        lemma_goal_distances(g, n, r - 1);
        assert forall|c: int| 0 <= c <= n implies #[trigger] row_distance(g, n, r - 1, c) == 0 by {
            lemma_goal_row(g, n, r - 1, c);
        }
    }
}

proof fn lemma_goal_row(g: Grid, n: int, r: int, c: int)
    requires
        2 <= n <= 4,
        is_goal(g, n),
        0 <= r < n,
        0 <= c <= n,
    ensures
        row_distance(g, n, r, c) == 0,
    decreases c,
{
    if c > 0 {
        lemma_goal_row(g, n, r, c - 1);
        assert(g[r][c - 1] == goal_cell(n, r, c - 1));
        if !(r == n - 1 && c - 1 == n - 1) {
            let k = cell_index(n, r, c - 1);
            assert(0 <= k < n * n) by (nonlinear_arith)
                requires k == r * n + (c - 1), 0 <= r < n, 0 <= c - 1 < n;
            assert(k + 1 <= 16) by (nonlinear_arith) requires k < n * n, 2 <= n <= 4;
            vstd::arithmetic::div_mod::lemma_fundamental_div_mod_converse(k, n, r, c - 1);
        }
    }
}

/// The Manhattan estimate never exceeds the number of moves of any way from a valid
/// board to the solved board.
pub proof fn lemma_manhattan_admissible(g: Grid, n: int, path: Seq<Direction>)
    requires
        2 <= n <= 4,
        valid_board(g, n),
        replay(g, n, path) is Some,
        is_goal(replay(g, n, path)->0, n),
    ensures
        manhattan_estimate(g, n) <= path.len(),
{
    lemma_path_estimate(g, n, path);
    lemma_goal_distances(replay(g, n, path)->0, n, n);
}

/// The Manhattan estimate of a valid board is 0 exactly when the board is solved.
pub proof fn lemma_manhattan_zero_at_goal(g: Grid, n: int)
    requires
        2 <= n <= 4,
        valid_board(g, n),
    ensures
        manhattan_estimate(g, n) == 0 <==> is_goal(g, n),
{
    if is_goal(g, n) {
        lemma_goal_distances(g, n, n);
    }
    if manhattan_estimate(g, n) == 0 {
        lemma_sum_bounds(g, n, n);
        assert forall|r: int, c: int| on_board(n, r, c) && #[trigger] g[r][c] is Some
            implies cell_index(n, r, c) == g[r][c]->0 - 1 by {
            let v = g[r][c]->0;
            assert(tile_distance(g, n, r, c) == 0);
            assert(0 <= v - 1 < n * n);
            vstd::arithmetic::div_mod::lemma_fundamental_div_mod(v - 1, n);
            assert(r == (v - 1) / n && c == (v - 1) % n);
            assert(cell_index(n, r, c) == v - 1) by (nonlinear_arith)
                requires
                    r == (v - 1) / n,
                    c == (v - 1) % n,
                    v - 1 == n * ((v - 1) / n) + (v - 1) % n,
                    cell_index(n, r, c) == r * n + c;
        }
        let (r0, c0) = choose|r: int, c: int| on_board(n, r, c) && #[trigger] g[r][c] is None;
        if !(r0 == n - 1 && c0 == n - 1) {
            assert(g[n - 1][n - 1] is Some);
            assert(cell_index(n, n - 1, n - 1) == n * n - 1) by (nonlinear_arith);
        }
        assert forall|r: int, c: int| on_board(n, r, c) implies #[trigger] g[r][c] == goal_cell(n, r, c) by {
            if !(r == n - 1 && c == n - 1) {
                assert(g[r][c] is Some);
                assert(cell_index(n, r, c) == g[r][c]->0 - 1);
            }
        }
    }
}

/// The Manhattan estimate on the 4x4 board is consistent: one move lowers it by at most
/// one, it is 0 on the solved board and never negative; so the solver finds shortest
/// routes with it.
pub proof fn lemma_manhattan_consistent(h: &ManhattanDistance<4>)
    ensures
        crate::consistent(h),
{
    assert forall|g: Grid, d: Direction| valid_board(g, 4) && #[trigger] can_move(g, 4, d)
        implies h.estimate(g) <= h.estimate(move_blank(g, 4, d)) + 1 by {
        lemma_move_estimate(g, 4, d);
    }
    assert forall|g: Grid| valid_board(g, 4) && #[trigger] is_goal(g, 4) implies h.estimate(g) == 0 by {
        lemma_manhattan_zero_at_goal(g, 4);
    }
    assert forall|g: Grid| valid_board(g, 4) implies #[trigger] h.estimate(g) >= 0 by {
        lemma_sum_bounds(g, 4, 4);
    }
}

/// [Manhattan distance](https://en.wikipedia.org/wiki/Taxicab_geometry) heuristic: the
/// sum of the distances of the tiles from their cells on the solved board.
pub struct ManhattanDistance<const PUZZLE_SIZE: usize> {
    solved_positions: Vec<BoardCoordinates<PUZZLE_SIZE>>,
}

impl<const PUZZLE_SIZE: usize> ManhattanDistance<PUZZLE_SIZE> {
    /// Entry `k` holds the cell of number `k + 1` on the solved board; the last one that
    /// of the blank.
    pub closed spec fn wf(&self) -> bool {
        &&& 2 <= PUZZLE_SIZE <= 4
        &&& self.solved_positions@.len() == PUZZLE_SIZE * PUZZLE_SIZE
        &&& forall|k: int| 0 <= k < PUZZLE_SIZE * PUZZLE_SIZE ==> {
            let p = #[trigger] self.solved_positions@[k];
            &&& p.wf()
            &&& p.row_spec() == k / (PUZZLE_SIZE as int)
            &&& p.column_spec() == k % (PUZZLE_SIZE as int)
        }
    }

    /// Creates the heuristic, with the solved cell of each number computed once.
    pub fn new() -> (r: Self)
        requires
            2 <= PUZZLE_SIZE <= 4,
        ensures
            r.wf(),
    {
        let solved_positions = Self::create_solved_positions();
        ManhattanDistance { solved_positions }
    }

    /// The cell of `number_value` on the solved board.
    fn solved_coordinates(number_value: usize) -> (r: BoardCoordinates<PUZZLE_SIZE>)
        requires
            2 <= PUZZLE_SIZE <= 4,
            1 <= number_value <= PUZZLE_SIZE * PUZZLE_SIZE,
        ensures
            r.wf(),
            r.row_spec() == (number_value - 1) / (PUZZLE_SIZE as int),
            r.column_spec() == (number_value - 1) % (PUZZLE_SIZE as int),
    {
        let number_index = number_value - 1;
        proof {
            let n = PUZZLE_SIZE as int;
            assert(n * n <= 16) by (nonlinear_arith) requires 2 <= n <= 4;
            assert((number_index as int) / n < n) by (nonlinear_arith) requires 0 <= (number_index as int) < n * n, n > 0;
        }
        let row = number_index / PUZZLE_SIZE;
        let column = number_index % PUZZLE_SIZE;
        BoardCoordinates::new(row as u8, column as u8)
    }

    /// The cells of all numbers, and of the blank, on the solved board.
    fn create_solved_positions() -> (r: Vec<BoardCoordinates<PUZZLE_SIZE>>)
        requires
            2 <= PUZZLE_SIZE <= 4,
        ensures
            (Self { solved_positions: r }).wf(),
    {
        let ghost n = PUZZLE_SIZE as int;
        proof {
            assert(4 <= n * n <= 16) by (nonlinear_arith) requires 2 <= n <= 4;
        }
        let number_count = (PUZZLE_SIZE * PUZZLE_SIZE) - 1;
        let mut solved_positions: Vec<BoardCoordinates<PUZZLE_SIZE>> = Vec::with_capacity(number_count + 1);
        let mut number_value: usize = 1;
        while number_value <= number_count
            invariant
                2 <= PUZZLE_SIZE <= 4,
                n == PUZZLE_SIZE,
                n * n <= 16,
                number_count == n * n - 1,
                1 <= number_value <= number_count + 1,
                solved_positions@.len() == number_value - 1,
                forall|k: int| 0 <= k < solved_positions@.len() ==> {
                    let p = #[trigger] solved_positions@[k];
                    &&& p.wf()
                    &&& p.row_spec() == k / n
                    &&& p.column_spec() == k % n
                },
            decreases number_count + 1 - number_value,
        {
            let solved_coordinates = Self::solved_coordinates(number_value);
            solved_positions.push(solved_coordinates);
            number_value += 1;
        }
        proof {
            assert(n * n - 1 == (n - 1) * n + (n - 1)) by (nonlinear_arith);
            vstd::arithmetic::div_mod::lemma_fundamental_div_mod_converse(n * n - 1, n, n - 1, n - 1);
        }
        solved_positions.push(BoardCoordinates::new((PUZZLE_SIZE - 1) as u8, (PUZZLE_SIZE - 1) as u8));
        solved_positions
    }
}

impl<const PUZZLE_SIZE: usize> Heuristic<PUZZLE_SIZE> for ManhattanDistance<PUZZLE_SIZE> {
    open spec fn estimate(&self, g: Grid) -> int {
        manhattan_estimate(g, PUZZLE_SIZE as int)
    }

    open spec fn ready(&self) -> bool {
        self.wf()
    }

    fn calculate(&self, numbers: &[[Option<u8>; PUZZLE_SIZE]; PUZZLE_SIZE]) -> (r: u8) {
        let ghost g = grid_of(*numbers);
        let ghost n = PUZZLE_SIZE as int;
        let mut distance: u8 = 0;
        let mut row: usize = 0;
        while row < PUZZLE_SIZE
            invariant
                row <= PUZZLE_SIZE <= 4,
                n == PUZZLE_SIZE,
                self.wf(),
                g == grid_of(*numbers),
                valid_board(g, n),
                distance == distance_sum(g, n, row as int),
                distance <= row * n * 6,
            decreases PUZZLE_SIZE - row,
        {
            let mut column: usize = 0;
            while column < PUZZLE_SIZE
                invariant
                    row < PUZZLE_SIZE <= 4,
                    column <= PUZZLE_SIZE,
                    n == PUZZLE_SIZE,
                    self.wf(),
                    g == grid_of(*numbers),
                    valid_board(g, n),
                    distance == distance_sum(g, n, row as int) + row_distance(g, n, row as int, column as int),
                    distance <= (row * n + column) * 6,
                decreases PUZZLE_SIZE - column,
            {
                proof {
                    assert(on_board(n, row as int, column as int));
                    assert(g[row as int][column as int] == numbers@[row as int]@[column as int]);
                    assert(n * n <= 16) by (nonlinear_arith) requires 2 <= n <= 4;
                    assert((row * n + column) * 6 + 6 <= 96) by (nonlinear_arith)
                        requires n * n <= 16, 0 <= row < n, 0 <= column < n;
                    assert((row * n + column) * 6 + 6 == (row * n + (column + 1)) * 6) by (nonlinear_arith);
                }
                if let Some(number_value) = numbers[row][column] {
                    let number_solved_coordinates = &self.solved_positions[(number_value - 1) as usize];
                    let number_actual_coordinates = BoardCoordinates::<PUZZLE_SIZE>::new(row as u8, column as u8);
                    distance += number_actual_coordinates.manhattan_distance(number_solved_coordinates);
                }
                column += 1;
            }
            proof {
                assert((row + 1) * n * 6 == (row * n + n) * 6) by (nonlinear_arith);
            }
            row += 1;
        }
        distance
    }
}

} // verus!
