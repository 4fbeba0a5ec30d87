//! Entries of the breadth-first search frontier that builds a pattern database.
use vstd::prelude::*;

use super::board_state::{step_directions, step_moves, step_view, BoardState, BoardView};
use super::combination::{combination_code, tracked_count, Combination};
use super::PUZZLE_SIZE;
use crate::puzzle_state::coordinates::BoardCoordinates;

verus! {

/// The reduced board of the solved arrangement of the group whose first tile has index
/// `first`: the group's tiles in their row, the blank in the last cell.
pub open spec fn solved_view(first: int, ignore_last: bool) -> BoardView {
    (Seq::new(4, |c: int| (first / 4, c)), (3, 3), ignore_last)
}

/// A reduced board with the number of tracked-tile moves that reached it.
#[derive(Debug, Clone, Copy)]
pub struct BFSState {
    board_state: BoardState,
    element_shifts: u8,
    ignore_last: bool,
}

impl BFSState {
    /// The reduced board.
    pub closed spec fn board_spec(&self) -> BoardState {
        self.board_state
    }

    /// Number of tracked-tile moves made.
    pub closed spec fn shifts_spec(&self) -> u8 {
        self.element_shifts
    }

    /// Whether the group's last tile is left out.
    pub closed spec fn ignore_last_spec(&self) -> bool {
        self.ignore_last
    }

    /// The board is well formed and agrees on whether the last tile is left out.
    pub open spec fn wf(&self) -> bool {
        self.board_spec().wf() && self.board_spec()@.2 == self.ignore_last_spec()
    }

    /// The solved arrangement of the group whose first tile has index
    /// `database_first_element_index`.
    pub fn initial(database_first_element_index: usize, ignore_last: bool) -> (r: BFSState)
        requires
            database_first_element_index < 16,
        ensures
            r.wf(),
            r.board_spec()@ == solved_view(database_first_element_index as int, ignore_last),
            r.shifts_spec() == 0,
            r.ignore_last_spec() == ignore_last,
    {
        let elements_row = database_first_element_index / PUZZLE_SIZE;
        let mut elements_coordinates = [BoardCoordinates::<PUZZLE_SIZE>::new(0, 0); PUZZLE_SIZE];
        let mut element_column: usize = 0;
        while element_column < PUZZLE_SIZE
            invariant
                element_column <= PUZZLE_SIZE,
                elements_row < 4,
                elements_row == database_first_element_index / 4,
                forall|c: int| 0 <= c < element_column ==> (#[trigger] elements_coordinates@[c])@ == (elements_row as int, c),
                forall|c: int| 0 <= c < 4 ==> (#[trigger] elements_coordinates@[c]).wf(),
            decreases PUZZLE_SIZE - element_column,
        {
            elements_coordinates[element_column] = BoardCoordinates::new(elements_row as u8, element_column as u8);
            element_column += 1;
        }
        let blank_coordinates = BoardCoordinates::new((PUZZLE_SIZE - 1) as u8, (PUZZLE_SIZE - 1) as u8);
        let board_state = BoardState::new(elements_coordinates, blank_coordinates, ignore_last);
        proof {
            assert(board_state@.0 =~= solved_view(database_first_element_index as int, ignore_last).0);
        }
        BFSState { board_state, element_shifts: 0, ignore_last }
    }

    /// The key of the tracked tiles' positions, and the number of moves that reached them.
    pub fn combination_and_distance(&self) -> (r: (Combination, u8))
        requires
            self.wf(),
        ensures
            r.0.positions_spec() as int == combination_code(self.board_spec()@.0, tracked_count(self.ignore_last_spec())),
            r.1 == self.shifts_spec(),
    {
        (self.board_state.extract_combination(), self.element_shifts)
    }

    /// The reduced board.
    pub fn board_state(&self) -> (r: BoardState)
        ensures
            r == self.board_spec(),
    {
        self.board_state
    }

    /// Number of tracked-tile moves made.
    pub fn element_shifts(&self) -> (r: u8)
        ensures
            r == self.shifts_spec(),
    {
        self.element_shifts
    }

    /// The states reached by one blank move; a move that displaces a tracked tile
    /// counts one more.
    pub fn neighbours(&self) -> (r: Vec<BFSState>)
        requires
            self.wf(),
            self.shifts_spec() < 255,
        ensures
            r@.len() == step_directions(self.board_spec()@).len(),
            forall|i: int| 0 <= i < r@.len() ==> {
                let d = step_directions(self.board_spec()@)[i];
                &&& (#[trigger] r@[i]).wf()
                &&& r@[i].board_spec()@ == step_view(self.board_spec()@, d)
                &&& r@[i].shifts_spec() == self.shifts_spec() + if step_moves(self.board_spec()@, d) { 1int } else { 0int }
                &&& r@[i].ignore_last_spec() == self.ignore_last_spec()
            },
    {
        let mut neighbours: Vec<BFSState> = Vec::new();
        let board_state_neighbours = self.board_state.neighbours();
        let ghost dirs = step_directions(self.board_spec()@);
        let mut i: usize = 0;
        while i < board_state_neighbours.len()
            invariant
                self.wf(),
                self.shifts_spec() < 255,
                i <= board_state_neighbours@.len(),
                board_state_neighbours@.len() == dirs.len(),
                dirs == step_directions(self.board_spec()@),
                neighbours@.len() == i,
                forall|j: int| 0 <= j < board_state_neighbours@.len() ==> {
                    &&& (#[trigger] board_state_neighbours@[j]).board_spec()@ == step_view(self.board_spec()@, dirs[j])
                    &&& board_state_neighbours@[j].moved_spec() == step_moves(self.board_spec()@, dirs[j])
                    &&& board_state_neighbours@[j].board_spec().wf()
                },
                forall|j: int| 0 <= j < i ==> {
                    let d = dirs[j];
                    &&& (#[trigger] neighbours@[j]).wf()
                    &&& neighbours@[j].board_spec()@ == step_view(self.board_spec()@, d)
                    &&& neighbours@[j].shifts_spec() == self.shifts_spec() + if step_moves(self.board_spec()@, d) { 1int } else { 0int }
                    &&& neighbours@[j].ignore_last_spec() == self.ignore_last_spec()
                },
            decreases board_state_neighbours@.len() - i,
        {
            let board_state_neighbour = &board_state_neighbours[i];
            let neighbour_board_state = board_state_neighbour.board_state();
            let neighbour_moved_element = board_state_neighbour.moved_element();
            if neighbour_moved_element {
                neighbours.push(BFSState {
                    board_state: neighbour_board_state,
                    element_shifts: self.element_shifts + 1,
                    ignore_last: self.ignore_last,
                });
            } else {
                neighbours.push(BFSState {
                    board_state: neighbour_board_state,
                    element_shifts: self.element_shifts,
                    ignore_last: self.ignore_last,
                });
            }
            i += 1;
        }
        neighbours
    }
}

} // verus!
