//! Generation of random boards to be solved, by walking the blank at random away from
//! the solved board.
use vstd::prelude::*;

use rand::seq::SliceRandom;

use crate::puzzle_state::coordinates::BoardCoordinates;
use crate::puzzle_state::direction::{column_delta, opposite_of, row_delta, Direction};
use crate::puzzle_state::{
    blank_at, goal_cell, grid_of, is_goal, lemma_blank_of, lemma_cell_index_order,
    lemma_reached_from_goal_is_solvable, lemma_swap_valid, move_blank, on_board, is_square, replay, solvable,
    valid_board, Grid, PuzzleState,
};

verus! {

/// Side of the generated boards.
pub const PUZZLE_SIZE: usize = 4;

/// Relies on rand's `SliceRandom::shuffle` with `rand::thread_rng`: the directions are
/// put in a random order by swaps within the vector, so the same directions remain.
/// (`thread_rng` panics only if the operating system cannot seed it.)
#[verifier::external_body]
fn shuffle_directions(directions: &mut Vec<Direction>)
    ensures
        final(directions)@.to_multiset() == old(directions)@.to_multiset(),
{
    directions.shuffle(&mut rand::thread_rng());
}

/// The solved board's rows.
fn solved_numbers() -> (r: [[Option<u8>; PUZZLE_SIZE]; PUZZLE_SIZE])
    ensures
        is_goal(grid_of(r), 4),
        grid_of(r).len() == 4,
        forall|i: int| 0 <= i < 4 ==> (#[trigger] grid_of(r)[i]).len() == 4,
{
    let r = [
        [Some(1), Some(2), Some(3), Some(4)],
        [Some(5), Some(6), Some(7), Some(8)],
        [Some(9), Some(10), Some(11), Some(12)],
        [Some(13), Some(14), Some(15), None],
    ];
    proof {
        let g = grid_of(r);
        assert forall|i: int, j: int| on_board(4, i, j) implies #[trigger] g[i][j] == goal_cell(4, i, j) by {
            assert(g[i] == r@[i]@);
        }
    }
    r
}

/// The solved board is a valid board.
proof fn lemma_goal_valid(g: Grid)
    requires
        is_goal(g, 4),
        g.len() == 4,
        forall|i: int| 0 <= i < 4 ==> (#[trigger] g[i]).len() == 4,
    ensures
        valid_board(g, 4),
{
    assert forall|r1: int, c1: int, r2: int, c2: int|
        on_board(4, r1, c1) && on_board(4, r2, c2) && #[trigger] g[r1][c1] == #[trigger] g[r2][c2]
            && g[r1][c1] is Some implies r1 == r2 && c1 == c2 by {
        assert(g[r1][c1] == goal_cell(4, r1, c1));
        assert(g[r2][c2] == goal_cell(4, r2, c2));
        lemma_cell_index_order(4, r1, c1, r2, c2);
        lemma_cell_index_order(4, r1, c1, 3, 3);
        lemma_cell_index_order(4, r2, c2, 3, 3);
    }
    assert forall|r: int, c: int| on_board(4, r, c) && #[trigger] g[r][c] is Some implies 1 <= g[r][c]->0 < 16 by {
        assert(g[r][c] == goal_cell(4, r, c));
        lemma_cell_index_order(4, r, c, 3, 3);
    }
    assert(g[3][3] == goal_cell(4, 3, 3));
    assert forall|r1: int, c1: int, r2: int, c2: int|
        on_board(4, r1, c1) && on_board(4, r2, c2) && #[trigger] g[r1][c1] is None
            && #[trigger] g[r2][c2] is None implies r1 == r2 && c1 == c2 by {
        assert(g[r1][c1] == goal_cell(4, r1, c1));
        assert(g[r2][c2] == goal_cell(4, r2, c2));
    }
}

/// A random direction in which the blank at `last_coordinates` can move, other than
/// `last_direction` when there is a choice.
fn pick_direction(last_coordinates: BoardCoordinates<PUZZLE_SIZE>, last_direction: Direction) -> (r: Direction)
    requires
        last_coordinates.wf(),
    ensures
        on_board(4, last_coordinates.row_spec() + row_delta(r), last_coordinates.column_spec() + column_delta(r)),
        r != last_direction,
{
    let mut available_directions: Vec<Direction> = Vec::new();
    if !last_coordinates.at_upper_edge() {
        available_directions.push(Direction::Up);
    }
    if !last_coordinates.at_bottom_edge() {
        available_directions.push(Direction::Down);
    }
    if !last_coordinates.at_left_edge() {
        available_directions.push(Direction::Left);
    }
    if !last_coordinates.at_right_edge() {
        available_directions.push(Direction::Right);
    }
    let ghost (row, column) = (last_coordinates.row_spec(), last_coordinates.column_spec());
    assert(available_directions@.len() >= 2);
    assert(available_directions@[0] != available_directions@[1]);
    assert forall|i: int| 0 <= i < available_directions@.len() implies on_board(4, row + row_delta(#[trigger] available_directions@[i]),
        column + column_delta(available_directions@[i])) by {}
    let ghost listed = available_directions@;
    shuffle_directions(&mut available_directions);
    proof {
        listed.to_multiset_ensures();
        available_directions@.to_multiset_ensures();
        assert forall|i: int| 0 <= i < available_directions@.len() implies on_board(4, row + row_delta(#[trigger] available_directions@[i]),
            column + column_delta(available_directions@[i])) by {
            let d = available_directions@[i];
            assert(available_directions@.to_multiset().count(d) > 0);
            assert(listed.contains(d));
        }
    }
    let ghost other = if listed[0] != last_direction { listed[0] } else { listed[1] };
    proof {
        assert(listed.contains(other));
        assert(available_directions@.to_multiset().count(other) > 0);
        assert(available_directions@.contains(other));
    }
    let mut i: usize = 0;
    while i < available_directions.len() && available_directions[i] == last_direction
        invariant
            i <= available_directions@.len(),
            available_directions@.contains(other),
            other != last_direction,
            forall|j: int| 0 <= j < i ==> available_directions@[j] == last_direction,
        decreases available_directions@.len() - i,
    {
        i += 1;
    }
    if i == available_directions.len() {
        proof {
            let j = choose|j: int| 0 <= j < available_directions@.len() && available_directions@[j] == other;
            assert(available_directions@[j] == last_direction);
        }
        return last_direction;
    }
    available_directions[i]
}

/// Exchanges the contents of two cells.
fn swap_cells_of(numbers: &mut [[Option<u8>; PUZZLE_SIZE]; PUZZLE_SIZE], row: usize, column: usize, swap_row: usize, swap_column: usize)
    requires
        row < 4 && column < 4 && swap_row < 4 && swap_column < 4,
    ensures
        grid_of(*final(numbers)) == crate::puzzle_state::swap_cells(grid_of(*old(numbers)), row as int, column as int, swap_row as int, swap_column as int),
{
    let tmp = numbers[row][column];
    numbers[row][column] = numbers[swap_row][swap_column];
    numbers[swap_row][swap_column] = tmp;
    proof {
        let g = grid_of(*old(numbers));
        let want = crate::puzzle_state::swap_cells(g, row as int, column as int, swap_row as int, swap_column as int);
        assert forall|i: int| 0 <= i < 4 implies #[trigger] grid_of(*numbers)[i] =~= want[i] by {}
        assert(grid_of(*numbers) =~~= want);
    }
}

/// Adding a move that does not undo the last one keeps a path free of undone moves.
proof fn lemma_extend_no_undo(path: Seq<Direction>, direction: Direction, last_direction: Direction)
    requires
        forall|i: int| 1 <= i < path.len() ==> #[trigger] path[i] != opposite_of(path[i - 1]),
        path.len() > 0 ==> last_direction == opposite_of(path.last()),
        direction != last_direction,
    ensures
        forall|i: int| 1 <= i < path.push(direction).len() ==> #[trigger] path.push(direction)[i] != opposite_of(path.push(direction)[i - 1]),
{
    let p2 = path.push(direction);
    assert forall|i: int| 1 <= i < p2.len() implies #[trigger] p2[i] != opposite_of(p2[i - 1]) by {
        if i < path.len() {
            assert(p2[i] == path[i] && p2[i - 1] == path[i - 1]);
        } else {
            assert(p2[i - 1] == path.last());
        }
    }
}

/// Generates a random board to be solved: starting from the solved board, the blank
/// makes `steps_back` random moves, never straight back along its last move.
#[verifier::rlimit(80)]
pub fn generate_random_puzzle_state(steps_back: usize) -> (r: PuzzleState<PUZZLE_SIZE>)
    ensures
        r.wf(),
        exists|start: Grid, path: Seq<Direction>| is_goal(start, 4) && is_square(start, 4)
            && path.len() == steps_back && #[trigger] replay(start, 4, path) == Some(r@)
            && forall|i: int| 1 <= i < path.len() ==> #[trigger] path[i] != opposite_of(path[i - 1]),
        solvable(r@, 4),
{
    let mut numbers = solved_numbers();
    let ghost start = grid_of(numbers);
    proof {
        lemma_goal_valid(start);
        assert(is_square(start, 4));
    }
    let mut last_coordinates = BoardCoordinates::<PUZZLE_SIZE>::new((PUZZLE_SIZE - 1) as u8, (PUZZLE_SIZE - 1) as u8);
    let mut last_direction = Direction::Down;
    let ghost mut path: Seq<Direction> = seq![];
    proof {
        assert(start[3][3] == goal_cell(4, 3, 3));
        lemma_blank_of(start, 4, 3, 3);
    }
    let mut step: usize = 0;
    while step < steps_back
        invariant
            step <= steps_back,
            is_goal(start, 4),
            is_square(start, 4),
            valid_board(grid_of(numbers), 4),
            last_coordinates.wf(),
            blank_at(grid_of(numbers), 4, last_coordinates.row_spec(), last_coordinates.column_spec()),
            replay(start, 4, path) == Some(grid_of(numbers)),
            path.len() == step,
            forall|i: int| 1 <= i < path.len() ==> #[trigger] path[i] != opposite_of(path[i - 1]),
            path.len() > 0 ==> last_direction == opposite_of(path.last()),
        decreases steps_back - step,
    {
        let ghost g = grid_of(numbers);
        proof {
            lemma_blank_of(g, 4, last_coordinates.row_spec(), last_coordinates.column_spec());
        }
        let direction = pick_direction(last_coordinates, last_direction);
        let (row, column) = last_coordinates.as_tuple();
        let (diff_row, diff_column) = direction.as_coordinates();
        let swap_row = ((row as isize) + diff_row) as u8;
        let swap_column = ((column as isize) + diff_column) as u8;
        swap_cells_of(&mut numbers, row as usize, column as usize, swap_row as usize, swap_column as usize);
        proof {
            let moved = move_blank(g, 4, direction);
            lemma_swap_valid(g, 4, row as int, column as int, swap_row as int, swap_column as int);
            assert(grid_of(numbers) == moved);
            assert(path.push(direction).drop_last() == path);
            lemma_extend_no_undo(path, direction, last_direction);
            path = path.push(direction);
            assert(blank_at(moved, 4, swap_row as int, swap_column as int));
        }
        last_coordinates = BoardCoordinates::new(swap_row, swap_column);
        last_direction = direction.opposite();
        step += 1;
    }
    proof {
        lemma_reached_from_goal_is_solvable(start, 4, path);
    }
    match PuzzleState::new(numbers) {
        Ok(state) => state,
        Err(_) => {
            proof {
                assert(false);
            }
            PuzzleState::new(solved_numbers()).unwrap()
        },
    }
}

} // verus!
