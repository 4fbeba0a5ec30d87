//! Board reduced to the positions of one group's tiles and of the blank, as visited by
//! the breadth-first search that builds a pattern database.
use vstd::prelude::*;

use super::combination::{combination_code, coordinates_view, tracked_count, Combination};
use super::{DATABASE_SIZE, PUZZLE_SIZE};
use crate::puzzle_state::coordinates::BoardCoordinates;
use crate::puzzle_state::direction::{column_delta, row_delta, Direction};
use crate::puzzle_state::on_board;

verus! {

/// A reduced board: the positions of the group's tiles, the blank's position, and
/// whether the last tile is left out.
pub type BoardView = (Seq<(int, int)>, (int, int), bool);

/// Where the blank goes when it moves in direction `d`.
pub open spec fn blank_step(v: BoardView, d: Direction) -> (int, int) {
    (v.1.0 + row_delta(d), v.1.1 + column_delta(d))
}

/// The blank stays on the board when it moves in direction `d`.
pub open spec fn can_step(v: BoardView, d: Direction) -> bool {
    on_board(4, blank_step(v, d).0, blank_step(v, d).1)
}

/// The first index, from `i` on, of a tile at `target`; 4 if there is none.
pub open spec fn first_from(es: Seq<(int, int)>, target: (int, int), i: int) -> int
    decreases 4 - i,
{
    if i >= 4 || i < 0 {
        4
    } else if es[i] == target {
        i
    } else {
        first_from(es, target, i + 1)
    }
}

/// The tile that the blank displaces when it moves in direction `d`.
pub open spec fn mover_index(v: BoardView, d: Direction) -> int {
    first_from(v.0, blank_step(v, d), 0)
}

/// The move in direction `d` displaces a tracked tile.
pub open spec fn step_moves(v: BoardView, d: Direction) -> bool {
    mover_index(v, d) < tracked_count(v.2)
}

/// The reduced board after the blank moves in direction `d`: a tracked tile in the
/// blank's way takes the blank's old place.
pub open spec fn step_view(v: BoardView, d: Direction) -> BoardView {
    (
        if step_moves(v, d) { v.0.update(mover_index(v, d), v.1) } else { v.0 },
        blank_step(v, d),
        v.2,
    )
}

/// The directions in which the blank can move, in the order up, down, left, right.
pub open spec fn step_directions(v: BoardView) -> Seq<Direction> {
    (if can_step(v, Direction::Up) { seq![Direction::Up] } else { seq![] })
        + (if can_step(v, Direction::Down) { seq![Direction::Down] } else { seq![] })
        + (if can_step(v, Direction::Left) { seq![Direction::Left] } else { seq![] })
        + (if can_step(v, Direction::Right) { seq![Direction::Right] } else { seq![] })
}

/// All positions lie on the board.
pub open spec fn view_on_board(v: BoardView) -> bool {
    &&& v.0.len() == 4
    &&& forall|k: int| 0 <= k < 4 ==> on_board(4, (#[trigger] v.0[k]).0, v.0[k].1)
    &&& on_board(4, v.1.0, v.1.1)
}

/// A neighbour of a reduced board, and whether a tracked tile moved to reach it.
pub struct Neighbour {
    board_state: BoardState,
    moved_element: bool,
}

impl Neighbour {
    /// The reduced board.
    pub closed spec fn board_spec(&self) -> BoardState {
        self.board_state
    }

    /// A tracked tile moved.
    pub closed spec fn moved_spec(&self) -> bool {
        self.moved_element
    }

    /// The reduced board.
    pub fn board_state(&self) -> (r: BoardState)
        ensures
            r == self.board_spec(),
    {
        self.board_state
    }

    /// Did a tracked tile move?
    pub fn moved_element(&self) -> (r: bool)
        ensures
            r == self.moved_spec(),
    {
        self.moved_element
    }
}

/// A reduced board visited by the breadth-first search.
#[derive(Debug, Clone, Copy, PartialEq, Eq, Hash)]
pub struct BoardState {
    elements_coordinates: [BoardCoordinates<PUZZLE_SIZE>; DATABASE_SIZE],
    blank_coordinates: BoardCoordinates<PUZZLE_SIZE>,
    ignore_last: bool,
}

impl View for BoardState {
    type V = BoardView;

    closed spec fn view(&self) -> BoardView {
        (coordinates_view(self.elements_coordinates), self.blank_coordinates@, self.ignore_last)
    }
}

impl BoardState {
    /// All positions lie on the board.
    pub open spec fn wf(&self) -> bool {
        view_on_board(self@)
    }

    /// The key under which the search records this board as visited.
    pub open spec fn key_spec(&self) -> int {
        combination_code(self@.0, 4) + (self@.1.0 * 4 + self@.1.1) * 65536
    }

    /// Creates a reduced board.
    pub fn new(
        elements_coordinates: [BoardCoordinates<PUZZLE_SIZE>; DATABASE_SIZE],
        blank_coordinates: BoardCoordinates<PUZZLE_SIZE>,
        ignore_last: bool,
    ) -> (r: BoardState)
        ensures
            r@ == (coordinates_view(elements_coordinates), blank_coordinates@, ignore_last),
    {
        BoardState { elements_coordinates, blank_coordinates, ignore_last }
    }

    /// The key of the tracked tiles' positions.
    pub fn extract_combination(&self) -> (r: Combination)
        requires
            self.wf(),
        ensures
            r.positions_spec() as int == combination_code(self@.0, tracked_count(self@.2)),
    {
        proof {
            assert forall|i: int| 0 <= i < DATABASE_SIZE implies (#[trigger] self.elements_coordinates@[i]).wf() by {
                assert(self@.0[i] == self.elements_coordinates@[i]@);
            }
        }
        Combination::from_readable(self.elements_coordinates, self.ignore_last)
    }

    /// The key under which the search records this board as visited.
    pub fn key(&self) -> (r: u32)
        requires
            self.wf(),
        ensures
            r as int == self.key_spec(),
    {
        let (blank_row, blank_column) = self.blank_coordinates.as_tuple();
        proof {
            assert forall|i: int| 0 <= i < DATABASE_SIZE implies (#[trigger] self.elements_coordinates@[i]).wf() by {
                assert(self@.0[i] == self.elements_coordinates@[i]@);
            }
        }
        let combination = Combination::from_readable(self.elements_coordinates, false);
        (combination.positions() as u32) + ((blank_row as u32) * 4 + (blank_column as u32)) * 65536
    }

    /// The neighbours reached by moving the blank one cell, in the order up, down,
    /// left, right.
    pub fn neighbours(&self) -> (r: Vec<Neighbour>)
        requires
            self.wf(),
        ensures
            r@.len() == step_directions(self@).len(),
            forall|i: int| 0 <= i < r@.len() ==> {
                let d = step_directions(self@)[i];
                &&& (#[trigger] r@[i]).board_spec()@ == step_view(self@, d)
                &&& r@[i].moved_spec() == step_moves(self@, d)
                &&& r@[i].board_spec().wf()
            },
    {
        let ghost v = self@;
        let mut neighbours: Vec<Neighbour> = Vec::new();
        let ghost mut dirs: Seq<Direction> = seq![];
        if !self.blank_coordinates.at_upper_edge() {
            neighbours.push(self.create_neighbour(Direction::Up));
            proof { dirs = dirs.push(Direction::Up); }
        }
        let ghost d1 = dirs;
        if !self.blank_coordinates.at_bottom_edge() {
            neighbours.push(self.create_neighbour(Direction::Down));
            proof { dirs = dirs.push(Direction::Down); }
        }
        assert(dirs =~= d1 + (if can_step(v, Direction::Down) { seq![Direction::Down] } else { seq![] }));
        let ghost d2 = dirs;
        if !self.blank_coordinates.at_left_edge() {
            neighbours.push(self.create_neighbour(Direction::Left));
            proof { dirs = dirs.push(Direction::Left); }
        }
        assert(dirs =~= d2 + (if can_step(v, Direction::Left) { seq![Direction::Left] } else { seq![] }));
        let ghost d3 = dirs;
        if !self.blank_coordinates.at_right_edge() {
            neighbours.push(self.create_neighbour(Direction::Right));
            proof { dirs = dirs.push(Direction::Right); }
        }
        assert(dirs =~= d3 + (if can_step(v, Direction::Right) { seq![Direction::Right] } else { seq![] }));
        assert(dirs =~= step_directions(v));
        neighbours
    }

    /// The neighbour reached by moving the blank in `direction`.
    pub fn create_neighbour(&self, direction: Direction) -> (r: Neighbour)
        requires
            self.wf(),
            can_step(self@, direction),
        ensures
            r.board_spec()@ == step_view(self@, direction),
            r.moved_spec() == step_moves(self@, direction),
            r.board_spec().wf(),
    {
        let ghost v = self@;
        let (diff_row, diff_column) = direction.as_coordinates();
        let (blank_row, blank_column) = self.blank_coordinates.as_tuple();
        let new_blank_row = ((blank_row as isize) + diff_row) as u8;
        let new_blank_column = ((blank_column as isize) + diff_column) as u8;
        let new_blank_coordinates = BoardCoordinates::new(new_blank_row, new_blank_column);
        let ghost target = blank_step(v, direction);
        let mut elements_coordinates = self.elements_coordinates;
        let mut moved_element = false;
        let mut element_index: usize = 0;
        let mut done = false;
        assert(-1 <= diff_row <= 1 && -1 <= diff_column <= 1) by {
            match direction {
                Direction::Up => {},
                Direction::Down => {},
                Direction::Left => {},
                Direction::Right => {},
            }
        }
        proof {
            assert forall|i: int| 0 <= i < DATABASE_SIZE implies (#[trigger] elements_coordinates@[i]).wf() by {
                assert(v.0[i] == elements_coordinates@[i]@);
            }
        }
        while element_index < DATABASE_SIZE && !done
            invariant
                v == self@,
                self.wf(),
                element_index <= DATABASE_SIZE,
                target == (new_blank_row as int, new_blank_column as int),
                diff_row as int == row_delta(direction),
                diff_column as int == column_delta(direction),
                -1 <= diff_row <= 1,
                -1 <= diff_column <= 1,
                v.1 == (blank_row as int, blank_column as int),
                target == (v.1.0 + row_delta(direction), v.1.1 + column_delta(direction)),
                on_board(4, target.0, target.1),
                !done ==> first_from(v.0, target, 0) == first_from(v.0, target, element_index as int),
                !done ==> !moved_element && elements_coordinates == self.elements_coordinates,
                done ==> moved_element == step_moves(v, direction)
                    && coordinates_view(elements_coordinates) == step_view(v, direction).0,
                forall|i: int| 0 <= i < DATABASE_SIZE ==> (#[trigger] elements_coordinates@[i]).wf(),
            decreases DATABASE_SIZE - element_index + (if done { 0int } else { 1int }),
        {
            let (row, column) = elements_coordinates[element_index].as_tuple();
            assert(v.0[element_index as int] == (row as int, column as int));
            if row == new_blank_row && column == new_blank_column {
                if !(self.ignore_last && element_index == DATABASE_SIZE - 1) {
                    let new_row = ((row as isize) - diff_row) as u8;
                    let new_column = ((column as isize) - diff_column) as u8;
                    elements_coordinates[element_index] = BoardCoordinates::new(new_row, new_column);
                    moved_element = true;
                    proof {
                        assert(coordinates_view(elements_coordinates) =~= v.0.update(element_index as int, v.1));
                    }
                }
                done = true;
            } else {
                element_index += 1;
            }
        }
        proof {
            if !done {
                assert(first_from(v.0, target, 4) == 4);
            }
            assert forall|k: int| 0 <= k < 4 implies on_board(4, (#[trigger] coordinates_view(elements_coordinates)[k]).0, coordinates_view(elements_coordinates)[k].1) by {
                assert(coordinates_view(elements_coordinates)[k] == elements_coordinates@[k]@);
            }
        }
        let board_state = BoardState::new(elements_coordinates, new_blank_coordinates, self.ignore_last);
        Neighbour { board_state, moved_element }
    }
}

} // verus!
