//! Pattern database: for each arrangement of one group's tiles, the number of their
//! moves needed to reach the solved arrangement.
use vstd::prelude::*;

use std::collections::HashMap;

use super::bfs_state::{solved_view, BFSState};
use super::board_state::{step_directions, step_moves, step_view, view_on_board, BoardView};
use super::combination::{board_index, combination_code, lemma_code_bound, tracked_count, Combination};
use crate::puzzle_state::on_board;
use vstd::arithmetic::div_mod::lemma_fundamental_div_mod_converse;

verus! {

/// The key of the solved arrangement of the group whose first tile has index `first`.
pub open spec fn solved_code(first: int, ignore_last: bool) -> u16 {
    combination_code(solved_view(first, ignore_last).0, tracked_count(ignore_last)) as u16
}

/// A frontier entry: a reduced board and the number of tracked-tile moves that reached it.
pub type Entry = (BoardView, u8);

/// State of the search that builds a database: the boards to expand at the current
/// cost, those for the next cost, the cost at which each board was first queued, and
/// the distances recorded.
pub type Search = (Seq<Entry>, Seq<Entry>, Map<u32, u8>, Map<u16, u8>);

/// The key under which the search records a reduced board as queued.
pub open spec fn view_key(v: BoardView) -> u32 {
    (combination_code(v.0, 4) + (v.1.0 * 4 + v.1.1) * 65536) as u32
}

/// The entries of a frontier.
pub open spec fn entries(v: Seq<BFSState>) -> Seq<Entry> {
    v.map_values(|s: BFSState| (s.board_spec()@, s.shifts_spec()))
}

/// The search after queueing the first `j` neighbours of `e` that were not queued before:
/// at the same cost when no tracked tile moved, at the next cost otherwise.
pub open spec fn queue_neighbours(st: Search, e: Entry, j: int) -> Search
    decreases j,
{
    if j <= 0 {
        st
    } else {
        let s = queue_neighbours(st, e, j - 1);
        let d = step_directions(e.0)[j - 1];
        let nv = step_view(e.0, d);
        let ns = (e.1 + if step_moves(e.0, d) { 1int } else { 0int }) as u8;
        let k = view_key(nv);
        if s.2.contains_key(k) {
            s
        } else if ns == e.1 {
            (s.0.push((nv, ns)), s.1, s.2.insert(k, ns), s.3)
        } else {
            (s.0, s.1.push((nv, ns)), s.2.insert(k, ns), s.3)
        }
    }
}

/// One step of the search: the last board of the current cost (or, when there is none,
/// of the next cost) is taken out, its key is recorded at its cost unless already
/// recorded, and its neighbours are queued.
pub open spec fn search_step(st: Search) -> Search {
    let cur = if st.0.len() == 0 { st.1 } else { st.0 };
    let nxt = if st.0.len() == 0 { st.0 } else { st.1 };
    let e = cur.last();
    let code = combination_code(e.0.0, tracked_count(e.0.2)) as u16;
    let dist = if st.3.contains_key(code) { st.3 } else { st.3.insert(code, e.1) };
    let popped = (cur.drop_last(), nxt, st.2, dist);
    if e.1 < 255 {
        queue_neighbours(popped, e, step_directions(e.0).len() as int)
    } else {
        popped
    }
}

/// The search after `k` steps.
pub open spec fn search_after(st: Search, k: nat) -> Search
    decreases k,
{
    if k == 0 {
        st
    } else {
        search_step(search_after(st, (k - 1) as nat))
    }
}

/// The search at its start: the solved arrangement queued at cost 0.
pub open spec fn initial_search(first: int, ignore_last: bool) -> Search {
    let v = solved_view(first, ignore_last);
    (seq![(v, 0u8)], Seq::<Entry>::empty(), Map::<u32, u8>::empty().insert(view_key(v), 0u8), Map::<u16, u8>::empty())
}

/// Nothing is left to expand.
pub open spec fn search_done(st: Search) -> bool {
    st.0.len() == 0 && st.1.len() == 0
}

/// The distances that the search from the solved arrangement of the group whose first
/// tile has index `first` records once nothing is left to expand.
pub open spec fn pattern_table(first: int, ignore_last: bool) -> Map<u16, u8> {
    let init = initial_search(first, ignore_last);
    let k = choose|k: nat| #[trigger] search_done(search_after(init, k))
        && forall|j: nat| j < k ==> !#[trigger] search_done(search_after(init, j));
    search_after(init, k).3
}

/// The key of a reduced board on the 4x4 board fits in 20 bits.
proof fn lemma_key_fits(v: BoardView)
    requires
        view_on_board(v),
    ensures
        0 <= combination_code(v.0, 4) + (v.1.0 * 4 + v.1.1) * 65536 < 0x10_0000,
{
    lemma_code_bound(v.0, 4);
    reveal_with_fuel(crate::puzzle_state::pow16, 5);
}

/// `cs` puts the first `count` tracked tiles on distinct cells of the 4x4 board.
pub open spec fn arrangement(cs: Seq<(int, int)>, count: int) -> bool {
    &&& cs.len() == 4
    &&& forall|k: int| 0 <= k < count ==> on_board(4, (#[trigger] cs[k]).0, cs[k].1)
    &&& forall|a: int, b: int| 0 <= a < count && 0 <= b < count && a != b ==> #[trigger] cs[a] != #[trigger] cs[b]
}

/// Largest distance that a complete table may hold, so that the four groups' distances
/// sum within a byte.
pub const MAX_GROUP_DISTANCE: u8 = 63;

/// Every arrangement of the group's tracked tiles has an entry of at most
/// `MAX_GROUP_DISTANCE`.
pub open spec fn table_complete(m: Map<u16, u8>, ignore_last: bool) -> bool {
    forall|cs: Seq<(int, int)>| #[trigger] arrangement(cs, tracked_count(ignore_last)) ==> {
        let code = combination_code(cs, tracked_count(ignore_last)) as u16;
        m.contains_key(code) && m[code] <= MAX_GROUP_DISTANCE
    }
}

/// The cell of row-major index `i`.
pub open spec fn cell_at(i: int) -> (int, int) {
    (i / 4, i % 4)
}

/// The key of four row-major indices, the first `count` of them kept.
pub open spec fn indices_code(a: int, b: int, c: int, d: int, count: int) -> int {
    a + 16 * b + 256 * c + if count == 4 { 4096 * d } else { 0 }
}

proof fn lemma_cell_index(i: int)
    requires
        0 <= i < 16,
    ensures
        on_board(4, cell_at(i).0, cell_at(i).1),
        board_index(cell_at(i)) == i,
{
    vstd::arithmetic::div_mod::lemma_fundamental_div_mod(i, 4);
}

proof fn lemma_code_of_indices(cs: Seq<(int, int)>, count: int)
    requires
        count == 3 || count == 4,
        cs.len() == 4,
        forall|k: int| 0 <= k < count ==> on_board(4, (#[trigger] cs[k]).0, cs[k].1),
    ensures
        combination_code(cs, count) == indices_code(board_index(cs[0]), board_index(cs[1]), board_index(cs[2]), board_index(cs[3]), count),
{
    reveal_with_fuel(crate::puzzle_state::pow16, 5);
    assert(crate::puzzle_state::pow16(0) == 1 && crate::puzzle_state::pow16(1) == 16);
    assert(crate::puzzle_state::pow16(2) == 256 && crate::puzzle_state::pow16(3) == 4096);
    assert(combination_code(cs, 0) == 0);
    assert(combination_code(cs, 1) == board_index(cs[0]));
    assert(combination_code(cs, 2) == board_index(cs[0]) + board_index(cs[1]) * 16);
    assert(combination_code(cs, 3) == board_index(cs[0]) + board_index(cs[1]) * 16 + board_index(cs[2]) * 256);
    if count == 4 {
        assert(combination_code(cs, 4) == combination_code(cs, 3) + board_index(cs[3]) * 4096);
    }
}

proof fn lemma_split_code(x: int, a: int, b: int, c: int, d: int)
    requires
        x == a + 16 * b + 256 * c + 4096 * d,
        0 <= a < 16,
        0 <= b < 16,
        0 <= c < 16,
        0 <= d < 16,
    ensures
        x % 16 == a,
        (x / 16) % 16 == b,
        (x / 256) % 16 == c,
        x / 4096 == d,
        x < 65536,
{
    lemma_fundamental_div_mod_converse(x, 16, b + 16 * c + 256 * d, a);
    lemma_fundamental_div_mod_converse(x / 16, 16, c + 16 * d, b);
    lemma_fundamental_div_mod_converse(x, 256, c + 16 * d, a + 16 * b);
    lemma_fundamental_div_mod_converse(x / 256, 16, d, c);
    lemma_fundamental_div_mod_converse(x, 4096, d, a + 16 * b + 256 * c);
}

/// Each database maps every arrangement of a group's tiles that the search reached to
/// the number of their moves from the solved arrangement.
pub struct Database {
    distances: HashMap<u16, u8>,
}

impl View for Database {
    type V = Map<u16, u8>;

    closed spec fn view(&self) -> Map<u16, u8> {
        self.distances@
    }
}

impl Database {
    /// Builds the database of the group whose first tile has index
    /// `database_first_element_index`, by a breadth-first search from the solved
    /// arrangement in which moves of the blank alone cost nothing. With `ignore_last`
    /// the group's last tile is left out of the keys. The result depends on the two
    /// arguments alone.
    pub fn new(database_first_element_index: usize, ignore_last: bool) -> (r: Database)
        requires
            database_first_element_index < 16,
        ensures
            r@ == pattern_table(database_first_element_index as int, ignore_last),
            r@.contains_key(solved_code(database_first_element_index as int, ignore_last)),
            r@[solved_code(database_first_element_index as int, ignore_last)] == 0,
    {
        broadcast use vstd::std_specs::hash::group_hash_axioms;
        let ghost solved = solved_code(database_first_element_index as int, ignore_last);
        let ghost init = initial_search(database_first_element_index as int, ignore_last);
        let mut distances: HashMap<u16, u8> = HashMap::new();
        let mut visited: HashMap<u32, u8> = HashMap::new();
        let mut current: Vec<BFSState> = Vec::new();
        let mut next: Vec<BFSState> = Vec::new();
        let initial_state = BFSState::initial(database_first_element_index, ignore_last);
        let initial_key = initial_state.board_state().key();
        proof {
            lemma_key_fits(initial_state.board_spec()@);
        }
        visited.insert(initial_key, 0);
        current.push(initial_state);
        let ghost mut steps: nat = 0;
        proof {
            assert(entries(current@) =~= seq![(initial_state.board_spec()@, 0u8)]);
            assert(entries(next@) =~= Seq::<Entry>::empty());
            assert(distances@ =~= Map::<u16, u8>::empty());
        }
        while !current.is_empty() || !next.is_empty()
            invariant
                database_first_element_index < 16,
                solved == solved_code(database_first_element_index as int, ignore_last),
                init == initial_search(database_first_element_index as int, ignore_last),
                visited@.len() <= usize::MAX,
                forall|i: int| 0 <= i < current@.len() ==> (#[trigger] current@[i]).wf()
                    && current@[i].ignore_last_spec() == ignore_last,
                forall|i: int| 0 <= i < next@.len() ==> (#[trigger] next@[i]).wf()
                    && next@[i].ignore_last_spec() == ignore_last,
                (distances@.contains_key(solved) && distances@[solved] == 0) || (
                    distances@ == Map::<u16, u8>::empty() && current@ == seq![initial_state] && next@.len() == 0),
                initial_state.board_spec()@ == solved_view(database_first_element_index as int, ignore_last),
                initial_state.shifts_spec() == 0,
                initial_state.wf(),
                initial_state.ignore_last_spec() == ignore_last,
                (entries(current@), entries(next@), visited@, distances@) == search_after(init, steps),
                forall|j: nat| j < steps ==> !#[trigger] search_done(search_after(init, j)),
            decreases usize::MAX - visited@.len(), current@.len() + next@.len(),
        {
            let ghost before: Search = (entries(current@), entries(next@), visited@, distances@);
            if current.is_empty() {
                std::mem::swap(&mut current, &mut next);
            }
            let ghost cur_before = entries(current@);
            let curr_bfs_state = current.pop().unwrap();
            let ghost e: Entry = (curr_bfs_state.board_spec()@, curr_bfs_state.shifts_spec());
            proof {
                assert(cur_before.last() == e);
                assert(entries(current@) =~= cur_before.drop_last());
            }
            let (combination, distance) = curr_bfs_state.combination_and_distance();
            if !distances.contains_key(&combination.positions()) {
                distances.insert(combination.positions(), distance);
            }
            let ghost popped: Search = (entries(current@), entries(next@), visited@, distances@);
            let ghost start_visited = visited@.len();
            let ghost start_total = current@.len() + next@.len();
            if curr_bfs_state.element_shifts() < 255 {
                let neighbours = curr_bfs_state.neighbours();
                let ghost dirs = step_directions(e.0);
                let mut j: usize = 0;
                while j < neighbours.len()
                    invariant
                        j <= neighbours@.len(),
                        neighbours@.len() == dirs.len(),
                        dirs == step_directions(e.0),
                        e.1 < 255,
                        e == (curr_bfs_state.board_spec()@, curr_bfs_state.shifts_spec()),
                        forall|i: int| 0 <= i < neighbours@.len() ==> {
                            &&& (#[trigger] neighbours@[i]).wf()
                            &&& neighbours@[i].ignore_last_spec() == ignore_last
                            &&& neighbours@[i].board_spec()@ == step_view(e.0, dirs[i])
                            &&& neighbours@[i].shifts_spec() == e.1 + if step_moves(e.0, dirs[i]) { 1int } else { 0int }
                        },
                        forall|i: int| 0 <= i < current@.len() ==> (#[trigger] current@[i]).wf()
                            && current@[i].ignore_last_spec() == ignore_last,
                        forall|i: int| 0 <= i < next@.len() ==> (#[trigger] next@[i]).wf()
                            && next@[i].ignore_last_spec() == ignore_last,
                        visited@.len() - start_visited == current@.len() + next@.len() - start_total,
                        visited@.len() >= start_visited,
                        distances@.contains_key(solved) && distances@[solved] == 0,
                        (entries(current@), entries(next@), visited@, distances@) == queue_neighbours(popped, e, j as int),
                    decreases neighbours@.len() - j,
                {
                    let neighbour = neighbours[j];
                    let key = neighbour.board_state().key();
                    proof {
                        lemma_key_fits(neighbour.board_spec()@);
                    }
                    let ghost s_before: Search = (entries(current@), entries(next@), visited@, distances@);
                    if !visited.contains_key(&key) {
                        let ghost vbefore = visited@;
                        visited.insert(key, neighbour.element_shifts());
                        assert(visited@.dom() =~= vbefore.dom().insert(key));
                        if neighbour.element_shifts() == curr_bfs_state.element_shifts() {
                            current.push(neighbour);
                        } else {
                            next.push(neighbour);
                        }
                        proof {
                            assert(entries(current@) =~= (if neighbour.shifts_spec() == e.1 { s_before.0.push((neighbour.board_spec()@, neighbour.shifts_spec())) } else { s_before.0 }));
                            assert(entries(next@) =~= (if neighbour.shifts_spec() == e.1 { s_before.1 } else { s_before.1.push((neighbour.board_spec()@, neighbour.shifts_spec())) }));
                        }
                    }
                    j += 1;
                }
            }
            proof {
                assert(!search_done(before));
                assert(search_step(before) == (entries(current@), entries(next@), visited@, distances@));
                assert forall|j: nat| j < steps + 1 implies !#[trigger] search_done(search_after(init, j)) by {
                    if j == steps {
                        assert(search_after(init, j) == before);
                    }
                }
                steps = steps + 1;
            }
            let visited_count = visited.len();
        }
        proof {
            assert(search_done(search_after(init, steps)));
            let k = choose|k: nat| #[trigger] search_done(search_after(init, k))
                && forall|j: nat| j < k ==> !#[trigger] search_done(search_after(init, j));
            if k < steps {
                assert(!search_done(search_after(init, k)));
            } else if k > steps {
                assert(!search_done(search_after(init, steps)));
            }
        }
        Database { distances }
    }

    /// Does every arrangement of the group's tracked tiles have an entry of at most
    /// `MAX_GROUP_DISTANCE`? With `ignore_last` the last tile is left out.
    pub fn is_complete(&self, ignore_last: bool) -> (r: bool)
        ensures
            r == table_complete(self@, ignore_last),
    {
        broadcast use vstd::std_specs::hash::group_hash_axioms;
        let ghost count = tracked_count(ignore_last);
        let limit: u32 = if ignore_last { 4096 } else { 65536 };
        let mut x: u32 = 0;
        while x < limit
            invariant
                count == tracked_count(ignore_last),
                limit == if ignore_last { 4096u32 } else { 65536u32 },
                x <= limit,
                forall|a: int, b: int, c: int, d: int|
                    0 <= a < 16 && 0 <= b < 16 && 0 <= c < 16 && (if count == 4 { 0 <= d < 16 } else { d == 0 })
                    && a != b && a != c && b != c && (count == 4 ==> a != d && b != d && c != d)
                    && #[trigger] indices_code(a, b, c, d, count) < x
                    ==> self@.contains_key(indices_code(a, b, c, d, count) as u16)
                        && self@[indices_code(a, b, c, d, count) as u16] <= MAX_GROUP_DISTANCE,
            decreases limit - x,
        {
            let a = x % 16;
            let b = (x / 16) % 16;
            let c = (x / 256) % 16;
            let d = x / 4096;
            proof {
                vstd::arithmetic::div_mod::lemma_fundamental_div_mod(x as int, 16);
                vstd::arithmetic::div_mod::lemma_fundamental_div_mod((x / 16) as int, 16);
                vstd::arithmetic::div_mod::lemma_fundamental_div_mod((x / 256) as int, 16);
                assert(d < 16);
                assert(x as int == a + 16 * b + 256 * c + 4096 * d) by (nonlinear_arith)
                    requires
                        x as int == 16 * (x / 16) + x % 16,
                        (x / 16) as int == 16 * ((x / 16) / 16) + (x / 16) % 16,
                        (x / 256) as int == 16 * ((x / 256) / 16) + (x / 256) % 16,
                        (x / 16) / 16 == x / 256,
                        (x / 256) / 16 == x / 4096,
                        a == x % 16, b == (x / 16) % 16, c == (x / 256) % 16, d == x / 4096;
                if ignore_last {
                    assert(d == 0);
                }
            }
            let distinct = a != b && a != c && b != c && (ignore_last || (a != d && b != d && c != d));
            if distinct {
                let ok = match self.distances.get(&(x as u16)) {
                    Some(v) => *v <= MAX_GROUP_DISTANCE,
                    None => false,
                };
                if !ok {
                    proof {
                        let cs = seq![cell_at(a as int), cell_at(b as int), cell_at(c as int), cell_at(d as int)];
                        lemma_cell_index(a as int);
                        lemma_cell_index(b as int);
                        lemma_cell_index(c as int);
                        lemma_cell_index(d as int);
                        assert(arrangement(cs, count));
                        lemma_code_of_indices(cs, count);
                        assert(indices_code(a as int, b as int, c as int, d as int, count) == x);
                    }
                    return false;
                }
            }
            proof {
                assert forall|a2: int, b2: int, c2: int, d2: int|
                    0 <= a2 < 16 && 0 <= b2 < 16 && 0 <= c2 < 16 && (if count == 4 { 0 <= d2 < 16 } else { d2 == 0 })
                    && a2 != b2 && a2 != c2 && b2 != c2 && (count == 4 ==> a2 != d2 && b2 != d2 && c2 != d2)
                    && #[trigger] indices_code(a2, b2, c2, d2, count) < x + 1
                    implies self@.contains_key(indices_code(a2, b2, c2, d2, count) as u16)
                        && self@[indices_code(a2, b2, c2, d2, count) as u16] <= MAX_GROUP_DISTANCE by {
                    if indices_code(a2, b2, c2, d2, count) == x {
                        lemma_split_code(x as int, a2, b2, c2, d2);
                    }
                }
            }
            x += 1;
        }
        proof {
            assert forall|cs: Seq<(int, int)>| #[trigger] arrangement(cs, count) implies {
                let code = combination_code(cs, count) as u16;
                self@.contains_key(code) && self@[code] <= MAX_GROUP_DISTANCE
            } by {
                lemma_code_of_indices(cs, count);
                let (i0, i1, i2, i3) = (board_index(cs[0]), board_index(cs[1]), board_index(cs[2]), if count == 4 { board_index(cs[3]) } else { 0 });
                assert(cs[0] != cs[1] && cs[0] != cs[2] && cs[1] != cs[2]);
                if count == 4 {
                    assert(cs[0] != cs[3] && cs[1] != cs[3] && cs[2] != cs[3]);
                    assert(on_board(4, cs[3].0, cs[3].1));
                }
                assert(on_board(4, cs[0].0, cs[0].1) && on_board(4, cs[1].0, cs[1].1) && on_board(4, cs[2].0, cs[2].1));
                crate::puzzle_state::lemma_cell_index_order(4, cs[0].0, cs[0].1, cs[1].0, cs[1].1);
                crate::puzzle_state::lemma_cell_index_order(4, cs[0].0, cs[0].1, cs[2].0, cs[2].1);
                crate::puzzle_state::lemma_cell_index_order(4, cs[1].0, cs[1].1, cs[2].0, cs[2].1);
                if count == 4 {
                    crate::puzzle_state::lemma_cell_index_order(4, cs[0].0, cs[0].1, cs[3].0, cs[3].1);
                    crate::puzzle_state::lemma_cell_index_order(4, cs[1].0, cs[1].1, cs[3].0, cs[3].1);
                    crate::puzzle_state::lemma_cell_index_order(4, cs[2].0, cs[2].1, cs[3].0, cs[3].1);
                    crate::puzzle_state::lemma_cell_index_order(4, cs[3].0, cs[3].1, 0, 0);
                }
                crate::puzzle_state::lemma_cell_index_order(4, cs[0].0, cs[0].1, 0, 0);
                crate::puzzle_state::lemma_cell_index_order(4, cs[1].0, cs[1].1, 0, 0);
                crate::puzzle_state::lemma_cell_index_order(4, cs[2].0, cs[2].1, 0, 0);
                assert(indices_code(i0, i1, i2, i3, count) == indices_code(i0, i1, i2, board_index(cs[3]), count));
                lemma_split_code(indices_code(i0, i1, i2, i3, 4), i0, i1, i2, i3);
                assert(indices_code(i0, i1, i2, i3, count) < limit);
            }
        }
        true
    }

    /// The distance recorded for `combination`, if the search reached it.
    pub fn get_distance(&self, combination: &Combination) -> (r: Option<&u8>)
        ensures
            r is Some <==> self@.contains_key(combination.positions_spec()),
            r is Some ==> *r->0 == self@[combination.positions_spec()],
    {
        broadcast use vstd::std_specs::hash::group_hash_axioms;
        self.distances.get(&combination.positions())
    }

    /// Number of arrangements recorded.
    pub fn len(&self) -> (r: usize)
        ensures
            r == self@.len(),
    {
        broadcast use vstd::std_specs::hash::group_hash_axioms;
        self.distances.len()
    }

    /// The recorded distances, keyed by packed positions.
    pub fn distances(&self) -> (r: &HashMap<u16, u8>)
        ensures
            r@ == self@,
    {
        &self.distances
    }

    /// A database with the given distances, keyed by packed positions.
    pub fn from_distances(distances: HashMap<u16, u8>) -> (r: Database)
        ensures
            r@ == distances@,
    {
        Database { distances }
    }
}

} // verus!
