//! Disjoint pattern databases heuristic, for the 4x4 board.
use vstd::prelude::*;

pub mod bfs_state;
pub mod board_state;
pub mod combination;
pub mod database;

use crate::heuristics::Heuristic;
use crate::puzzle_state::coordinates::BoardCoordinates;
use crate::puzzle_state::{before, goal_cell, grid_of, is_goal, on_board, valid_board, Grid};
use bfs_state::solved_view;
use combination::{combination_code, coordinates_view, tracked_count, Combination};
use database::{arrangement, pattern_table, solved_code, table_complete, Database, MAX_GROUP_DISTANCE};

verus! {

/// Number of tiles in one group.
pub const DATABASE_SIZE: usize = 4;

/// Number of groups.
pub const DATABASES_COUNT: usize = 4;

/// Side of the board these databases are for.
pub const PUZZLE_SIZE: usize = 4;

/// The cell that holds tile `v`; `(0, 0)` if no cell does.
pub open spec fn tile_cell(g: Grid, v: int) -> (int, int) {
    if exists|r: int, c: int| on_board(4, r, c) && #[trigger] g[r][c] == Some(v as u8) {
        choose|r: int, c: int| on_board(4, r, c) && #[trigger] g[r][c] == Some(v as u8)
    } else {
        (0, 0)
    }
}

/// The cells of the tiles of group `group`: tiles `4 * group + 1` to `4 * group + 4`.
pub open spec fn group_positions(g: Grid, group: int) -> Seq<(int, int)> {
    Seq::new(4, |k: int| tile_cell(g, group * 4 + k + 1))
}

/// The database key of group `group` on board `g`; the last group leaves out its fourth
/// tile, which does not exist.
pub open spec fn group_code(g: Grid, group: int) -> int {
    combination_code(group_positions(g, group), tracked_count(group == 3))
}

/// Sum of the distances that the first `i` tables record for the groups of board `g`.
pub open spec fn group_sum(dbs: Seq<Map<u16, u8>>, g: Grid, i: int) -> int
    decreases i,
{
    if i <= 0 {
        0
    } else {
        group_sum(dbs, g, i - 1) + dbs[i - 1][group_code(g, i - 1) as u16] as int
    }
}

/// One table for each group, each complete.
pub open spec fn tables_complete(dbs: Seq<Map<u16, u8>>) -> bool {
    &&& dbs.len() == DATABASES_COUNT
    &&& forall|i: int| 0 <= i < DATABASES_COUNT ==> table_complete(#[trigger] dbs[i], i == 3)
}

/// On a valid board the cells of each group's tracked tiles form an arrangement.
proof fn lemma_group_arrangement(g: Grid, group: int)
    requires
        0 <= group < 4,
        valid_board(g, 4),
    ensures
        arrangement(group_positions(g, group), tracked_count(group == 3)),
{
    let count = tracked_count(group == 3);
    let cs = group_positions(g, group);
    crate::puzzle_state::lemma_every_tile_present(g, 4);
    assert forall|k: int| 0 <= k < count implies on_board(4, (#[trigger] cs[k]).0, cs[k].1)
        && g[cs[k].0][cs[k].1] == Some((group * 4 + k + 1) as u8) by {
        assert(crate::puzzle_state::tile_present(g, 4, group * 4 + k + 1));
    }
    assert forall|a: int, b: int| 0 <= a < count && 0 <= b < count && a != b implies #[trigger] cs[a] != #[trigger] cs[b] by {
        assert(g[cs[a].0][cs[a].1] == Some((group * 4 + a + 1) as u8));
        assert(g[cs[b].0][cs[b].1] == Some((group * 4 + b + 1) as u8));
    }
}

proof fn lemma_code_prefix(a: Seq<(int, int)>, b: Seq<(int, int)>, count: int)
    requires
        forall|k: int| 0 <= k < count ==> #[trigger] a[k] == b[k],
    ensures
        combination_code(a, count) == combination_code(b, count),
    decreases count,
{
    if count > 0 {
        lemma_code_prefix(a, b, count - 1);
    }
}

/// On the solved board every group's tiles stand in their solved arrangement.
proof fn lemma_goal_group_code(g: Grid, group: int)
    requires
        0 <= group < 4,
        is_goal(g, 4),
        valid_board(g, 4),
    ensures
        group_code(g, group) as u16 == solved_code(group * 4, group == 3),
{
    let count = tracked_count(group == 3);
    let a = group_positions(g, group);
    let b = solved_view(group * 4, group == 3).0;
    assert forall|k: int| 0 <= k < count implies #[trigger] a[k] == b[k] by {
        let v = group * 4 + k + 1;
        let (r, c) = (group, k);
        assert(on_board(4, r, c));
        assert(g[r][c] == goal_cell(4, r, c));
        assert(!(r == 3 && c == 3));
        assert(g[r][c] == Some(v as u8));
        let (r2, c2) = choose|r2: int, c2: int| on_board(4, r2, c2) && #[trigger] g[r2][c2] == Some(v as u8);
        assert(g[r2][c2] == g[r][c]);
        assert((group * 4) / 4 == group);
    }
    lemma_code_prefix(a, b, count);
    assert forall|k: int| 0 <= k < count implies on_board(4, (#[trigger] b[k]).0, b[k].1) by {
        assert((group * 4) / 4 == group);
    }
    combination::lemma_code_bound(b, count);
    reveal_with_fuel(crate::puzzle_state::pow16, 5);
}

/// On the solved board, databases that record 0 for each group's solved arrangement give
/// the estimate 0.
pub proof fn lemma_databases_zero_at_goal(tables: Seq<Map<u16, u8>>, g: Grid)
    requires
        tables.len() == DATABASES_COUNT,
        forall|i: int| 0 <= i < DATABASES_COUNT ==> (#[trigger] tables[i]).contains_key(solved_code(i * 4, i == 3))
            && tables[i][solved_code(i * 4, i == 3)] == 0,
        is_goal(g, 4),
        valid_board(g, 4),
    ensures
        group_sum(tables, g, DATABASES_COUNT as int) == 0,
{
    assert forall|i: int| 0 <= i <= 4 implies #[trigger] group_sum(tables, g, i) == 0 by {
        lemma_zero_prefix(tables, g, i);
    }
}

proof fn lemma_zero_prefix(tables: Seq<Map<u16, u8>>, g: Grid, i: int)
    requires
        0 <= i <= 4,
        tables.len() == DATABASES_COUNT,
        forall|j: int| 0 <= j < DATABASES_COUNT ==> (#[trigger] tables[j]).contains_key(solved_code(j * 4, j == 3))
            && tables[j][solved_code(j * 4, j == 3)] == 0,
        is_goal(g, 4),
        valid_board(g, 4),
    ensures
        group_sum(tables, g, i) == 0,
    decreases i,
{
    if i > 0 {
        lemma_zero_prefix(tables, g, i - 1);
        lemma_goal_group_code(g, i - 1);
        assert(tables[i - 1].contains_key(solved_code((i - 1) * 4, i - 1 == 3)));
    }
}

/**
* Disjoint databases heuristic: the board is split into groups of tiles, and the
* exact number of moves of each group's tiles is looked up and summed.
*/
pub struct DisjointDatabases {
    databases: Vec<Database>,
}

impl DisjointDatabases {
    /// The distance tables, one for each group.
    pub closed spec fn tables(&self) -> Seq<Map<u16, u8>> {
        self.databases@.map_values(|d: Database| d@)
    }

    /// Builds the databases of all groups.
    pub fn create_fresh_instance() -> (r: DisjointDatabases)
        ensures
            r.tables().len() == DATABASES_COUNT,
            forall|i: int| 0 <= i < DATABASES_COUNT ==> (#[trigger] r.tables()[i]).contains_key(solved_code(i * 4, i == 3))
                && r.tables()[i][solved_code(i * 4, i == 3)] == 0
                && r.tables()[i] == pattern_table(i * 4, i == 3),
    {
        let mut databases: Vec<Database> = Vec::new();
        let mut database_index: usize = 0;
        while database_index < DATABASES_COUNT
            invariant
                database_index <= DATABASES_COUNT,
                databases@.len() == database_index,
                forall|i: int| 0 <= i < database_index ==> (#[trigger] databases@[i])@.contains_key(solved_code(i * 4, i == 3))
                    && databases@[i]@[solved_code(i * 4, i == 3)] == 0
                    && databases@[i]@ == pattern_table(i * 4, i == 3),
            decreases DATABASES_COUNT - database_index,
        {
            let database_first_element_index = database_index * DATABASES_COUNT;
            let ignore_last = database_index == (DATABASES_COUNT - 1);
            databases.push(Database::new(database_first_element_index, ignore_last));
            database_index += 1;
        }
        let r = DisjointDatabases { databases };
        assert forall|i: int| 0 <= i < DATABASES_COUNT implies (#[trigger] r.tables()[i]).contains_key(solved_code(i * 4, i == 3))
            && r.tables()[i][solved_code(i * 4, i == 3)] == 0
            && r.tables()[i] == pattern_table(i * 4, i == 3) by {
            assert(r.tables()[i] == r.databases@[i]@);
        }
        r
    }

    /// Does the heuristic hold one complete table for each group?
    pub fn is_complete(&self) -> (r: bool)
        ensures
            r == tables_complete(self.tables()),
    {
        if self.databases.len() != DATABASES_COUNT {
            return false;
        }
        let mut i: usize = 0;
        while i < DATABASES_COUNT
            invariant
                i <= DATABASES_COUNT,
                self.databases@.len() == DATABASES_COUNT,
                forall|j: int| 0 <= j < i ==> table_complete(#[trigger] self.tables()[j], j == 3),
            decreases DATABASES_COUNT - i,
        {
            assert(self.tables()[i as int] == self.databases@[i as int]@);
            if !self.databases[i].is_complete(i == DATABASES_COUNT - 1) {
                return false;
            }
            i += 1;
        }
        true
    }

    /// Heuristic made of the given databases, one for each group.
    pub fn from_databases(databases: Vec<Database>) -> (r: DisjointDatabases)
        ensures
            r.tables() == databases@.map_values(|d: Database| d@),
    {
        DisjointDatabases { databases }
    }

    /// The databases, one for each group.
    pub fn databases(&self) -> (r: &Vec<Database>)
        ensures
            r@.map_values(|d: Database| d@) == self.tables(),
    {
        &self.databases
    }
}

impl Heuristic<PUZZLE_SIZE> for DisjointDatabases {
    open spec fn estimate(&self, g: Grid) -> int {
        group_sum(self.tables(), g, DATABASES_COUNT as int)
    }

    open spec fn ready(&self) -> bool {
        tables_complete(self.tables())
    }

    fn calculate(&self, numbers: &[[Option<u8>; PUZZLE_SIZE]; PUZZLE_SIZE]) -> (r: u8) {
        let ghost g = grid_of(*numbers);
        let origin = BoardCoordinates::<PUZZLE_SIZE>::new(0, 0);
        let origin_row: [BoardCoordinates<PUZZLE_SIZE>; DATABASE_SIZE] = vstd::array::array_fill_for_copy_types(origin);
        let mut numbers_representation: [[BoardCoordinates<PUZZLE_SIZE>; DATABASE_SIZE]; DATABASES_COUNT] =
            vstd::array::array_fill_for_copy_types(origin_row);
        proof {
            assert forall|t: int, k: int| 0 <= t < 4 && 0 <= k < 4 implies #[trigger] numbers_representation@[t]@[k] == origin by {
                assert(numbers_representation@[t] == origin_row);
                assert(origin_row@[k] == origin);
            }
        }
        let mut row_index: usize = 0;
        while row_index < PUZZLE_SIZE
            invariant
                row_index <= PUZZLE_SIZE,
                g == grid_of(*numbers),
                valid_board(g, 4),
                origin@ == (0int, 0int),
                forall|t: int, k: int| 0 <= t < 4 && 0 <= k < 4 ==> (#[trigger] numbers_representation@[t]@[k]).wf(),
                forall|t: int, k: int| 0 <= t < 4 && 0 <= k < 4 ==> {
                    let cell = (#[trigger] numbers_representation@[t]@[k])@;
                    (on_board(4, cell.0, cell.1) && before(cell.0, cell.1, row_index as int, 0)
                        && g[cell.0][cell.1] == Some((t * 4 + k + 1) as u8))
                    || (cell == (0int, 0int) && !exists|r: int, c: int| on_board(4, r, c) && before(r, c, row_index as int, 0)
                        && #[trigger] g[r][c] == Some((t * 4 + k + 1) as u8))
                },
            decreases PUZZLE_SIZE - row_index,
        {
            let mut column_index: usize = 0;
            while column_index < PUZZLE_SIZE
                invariant
                    row_index < PUZZLE_SIZE,
                    column_index <= PUZZLE_SIZE,
                    g == grid_of(*numbers),
                    valid_board(g, 4),
                    origin@ == (0int, 0int),
                    forall|t: int, k: int| 0 <= t < 4 && 0 <= k < 4 ==> (#[trigger] numbers_representation@[t]@[k]).wf(),
                    forall|t: int, k: int| 0 <= t < 4 && 0 <= k < 4 ==> {
                        let cell = (#[trigger] numbers_representation@[t]@[k])@;
                        (on_board(4, cell.0, cell.1) && before(cell.0, cell.1, row_index as int, column_index as int)
                            && g[cell.0][cell.1] == Some((t * 4 + k + 1) as u8))
                        || (cell == (0int, 0int) && !exists|r: int, c: int| on_board(4, r, c) && before(r, c, row_index as int, column_index as int)
                            && #[trigger] g[r][c] == Some((t * 4 + k + 1) as u8))
                    },
                decreases PUZZLE_SIZE - column_index,
            {
                let ghost (rr, cc) = (row_index as int, column_index as int);
                assert(g[rr][cc] == numbers@[rr]@[cc]);
                let ghost old_rep = numbers_representation;
                if let Some(number_value) = numbers[row_index][column_index] {
                    let number_index = number_value - 1;
                    let number_row = number_index / (PUZZLE_SIZE as u8);
                    let number_column = number_index % (PUZZLE_SIZE as u8);
                    numbers_representation[number_row as usize][number_column as usize] =
                        BoardCoordinates::new(row_index as u8, column_index as u8);
                    proof {
                        assert forall|t: int, k: int| 0 <= t < 4 && 0 <= k < 4 implies {
                            let cell = (#[trigger] numbers_representation@[t]@[k])@;
                            (on_board(4, cell.0, cell.1) && before(cell.0, cell.1, rr, cc + 1)
                                && g[cell.0][cell.1] == Some((t * 4 + k + 1) as u8))
                            || (cell == (0int, 0int) && !exists|r: int, c: int| on_board(4, r, c) && before(r, c, rr, cc + 1)
                                && #[trigger] g[r][c] == Some((t * 4 + k + 1) as u8))
                        } by {
                            if t == number_row && k == number_column {
                                assert(t * 4 + k + 1 == number_value);
                            } else {
                                assert(numbers_representation@[t]@[k] == old_rep@[t]@[k]);
                                assert(t * 4 + k + 1 != number_value);
                                if exists|r: int, c: int| on_board(4, r, c) && before(r, c, rr, cc + 1)
                                    && #[trigger] g[r][c] == Some((t * 4 + k + 1) as u8) {
                                    let (r, c) = choose|r: int, c: int| on_board(4, r, c) && before(r, c, rr, cc + 1)
                                        && #[trigger] g[r][c] == Some((t * 4 + k + 1) as u8);
                                    assert(before(r, c, rr, cc));
                                }
                            }
                        }
                    }
                } else {
                    proof {
                        assert forall|t: int, k: int| 0 <= t < 4 && 0 <= k < 4 implies {
                            let cell = (#[trigger] numbers_representation@[t]@[k])@;
                            (on_board(4, cell.0, cell.1) && before(cell.0, cell.1, rr, cc + 1)
                                && g[cell.0][cell.1] == Some((t * 4 + k + 1) as u8))
                            || (cell == (0int, 0int) && !exists|r: int, c: int| on_board(4, r, c) && before(r, c, rr, cc + 1)
                                && #[trigger] g[r][c] == Some((t * 4 + k + 1) as u8))
                        } by {
                            if exists|r: int, c: int| on_board(4, r, c) && before(r, c, rr, cc + 1)
                                && #[trigger] g[r][c] == Some((t * 4 + k + 1) as u8) {
                                let (r, c) = choose|r: int, c: int| on_board(4, r, c) && before(r, c, rr, cc + 1)
                                    && #[trigger] g[r][c] == Some((t * 4 + k + 1) as u8);
                                assert(before(r, c, rr, cc));
                            }
                        }
                    }
                }
                column_index += 1;
            }
            row_index += 1;
        }
        proof {
            assert forall|t: int, k: int| 0 <= t < 4 && 0 <= k < 4 implies
                (#[trigger] numbers_representation@[t]@[k])@ == tile_cell(g, t * 4 + k + 1) by {
                let cell = numbers_representation@[t]@[k]@;
                let v = (t * 4 + k + 1) as u8;
                assert(forall|r: int, c: int| on_board(4, r, c) ==> before(r, c, 4, 0));
                if on_board(4, cell.0, cell.1) && g[cell.0][cell.1] == Some(v) {
                    let (r, c) = choose|r: int, c: int| on_board(4, r, c) && #[trigger] g[r][c] == Some(v);
                    assert(g[r][c] == g[cell.0][cell.1]);
                }
            }
        }
        let mut distance: u8 = 0;
        let mut numbers_row_index: usize = 0;
        while numbers_row_index < DATABASES_COUNT
            invariant
                numbers_row_index <= DATABASES_COUNT,
                self.tables().len() == DATABASES_COUNT,
                g == grid_of(*numbers),
                forall|t: int, k: int| 0 <= t < 4 && 0 <= k < 4 ==> (#[trigger] numbers_representation@[t]@[k]).wf(),
                forall|t: int, k: int| 0 <= t < 4 && 0 <= k < 4 ==>
                    (#[trigger] numbers_representation@[t]@[k])@ == tile_cell(g, t * 4 + k + 1),
                distance as int == group_sum(self.tables(), g, numbers_row_index as int),
                distance <= numbers_row_index * MAX_GROUP_DISTANCE,
                valid_board(g, 4),
                tables_complete(self.tables()),
            decreases DATABASES_COUNT - numbers_row_index,
        {
            let ignore_last = numbers_row_index == (DATABASE_SIZE - 1);
            let numbers_row = numbers_representation[numbers_row_index];
            let combination = Combination::from_readable(numbers_row, ignore_last);
            proof {
                assert(coordinates_view(numbers_row) =~= group_positions(g, numbers_row_index as int));
            }
            let curr_database = &self.databases[numbers_row_index];
            assert(self.tables()[numbers_row_index as int] == curr_database@);
            proof {
                lemma_group_arrangement(g, numbers_row_index as int);
                assert(table_complete(self.tables()[numbers_row_index as int], numbers_row_index == 3));
            }
            let group_distance: u8 = match curr_database.get_distance(&combination) {
                Some(group_distance) => *group_distance,
                None => {
                    proof {
                        assert(false);
                    }
                    0
                },
            };
            distance = distance + group_distance;
            numbers_row_index += 1;
        }
        distance
    }
}

} // verus!
