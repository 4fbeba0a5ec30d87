//! State of the A* search over boards, and the record of how each board was reached.
use vstd::prelude::*;

use crate::heuristics::Heuristic;
use crate::puzzle_state::direction::{opposite_of, Direction};
use crate::puzzle_state::puzzle_move::Move;
use crate::puzzle_state::{
    can_move, is_goal, key_of_grid, lemma_move_undo, move_blank, replay, solvable, valid_board, Grid,
    PuzzleState,
};

verus! {

/// The board from which a move in direction `d` led to `g`.
pub open spec fn parent_of(g: Grid, n: int, d: Direction) -> Grid {
    move_blank(g, n, opposite_of(d))
}

/// Following the recorded directions back from `g`, reached by `last`, stays among the
/// recorded boards and ends, within `k` steps, at a board reached by no move.
pub open spec fn traces_back(m: Map<u64, Option<Direction>>, g: Grid, n: int, last: Option<Direction>, k: nat) -> bool
    decreases k,
{
    match last {
        None => true,
        Some(d) => {
            let p = parent_of(g, n, d);
            &&& k > 0
            &&& valid_board(g, n)
            &&& can_move(g, n, opposite_of(d))
            &&& m.contains_key(key_of_grid(p, n))
            &&& traces_back(m, p, n, m[key_of_grid(p, n)], (k - 1) as nat)
        },
    }
}

/// The directions recorded on the way back from `g`, in the order they were moved.
pub open spec fn route_back(m: Map<u64, Option<Direction>>, g: Grid, n: int, last: Option<Direction>, k: nat) -> Seq<Direction>
    decreases k,
{
    match last {
        None => seq![],
        Some(d) => if k > 0 {
            let p = parent_of(g, n, d);
            route_back(m, p, n, m[key_of_grid(p, n)], (k - 1) as nat).push(d)
        } else {
            seq![]
        },
    }
}

/// The board at which the way back from `g` ends.
pub open spec fn origin_back(m: Map<u64, Option<Direction>>, g: Grid, n: int, last: Option<Direction>, k: nat) -> Grid
    decreases k,
{
    match last {
        None => g,
        Some(d) => if k > 0 {
            let p = parent_of(g, n, d);
            origin_back(m, p, n, m[key_of_grid(p, n)], (k - 1) as nat)
        } else {
            g
        },
    }
}

/// The way back does not depend on the bound used to follow it.
pub proof fn lemma_back_unique(m: Map<u64, Option<Direction>>, g: Grid, n: int, last: Option<Direction>, k1: nat, k2: nat)
    requires
        traces_back(m, g, n, last, k1),
        traces_back(m, g, n, last, k2),
    ensures
        route_back(m, g, n, last, k1) == route_back(m, g, n, last, k2),
        origin_back(m, g, n, last, k1) == origin_back(m, g, n, last, k2),
    decreases k1,
{
    if let Some(d) = last {
        let p = parent_of(g, n, d);
        lemma_back_unique(m, p, n, m[key_of_grid(p, n)], (k1 - 1) as nat, (k2 - 1) as nat);
    }
}

/// Recording more boards keeps every way back as it was.
pub proof fn lemma_back_grows(m: Map<u64, Option<Direction>>, m2: Map<u64, Option<Direction>>, g: Grid, n: int, last: Option<Direction>, k: nat)
    requires
        traces_back(m, g, n, last, k),
        forall|key: u64| #[trigger] m.contains_key(key) ==> m2.contains_key(key) && m2[key] == m[key],
    ensures
        traces_back(m2, g, n, last, k),
        route_back(m2, g, n, last, k) == route_back(m, g, n, last, k),
        origin_back(m2, g, n, last, k) == origin_back(m, g, n, last, k),
    decreases k,
{
    if let Some(d) = last {
        let p = parent_of(g, n, d);
        lemma_back_grows(m, m2, p, n, m[key_of_grid(p, n)], (k - 1) as nat);
    }
}

/// Replaying the way back from its origin leads to `g`.
pub proof fn lemma_back_replays(m: Map<u64, Option<Direction>>, g: Grid, n: int, last: Option<Direction>, k: nat)
    requires
        traces_back(m, g, n, last, k),
        valid_board(g, n),
    ensures
        replay(origin_back(m, g, n, last, k), n, route_back(m, g, n, last, k)) == Some(g),
    decreases k,
{
    if let Some(d) = last {
        let p = parent_of(g, n, d);
        lemma_move_undo(g, n, opposite_of(d));
        assert(opposite_of(opposite_of(d)) == d);
        lemma_back_replays(m, p, n, m[key_of_grid(p, n)], (k - 1) as nat);
        let route = route_back(m, g, n, last, k);
        assert(route.drop_last() == route_back(m, p, n, m[key_of_grid(p, n)], (k - 1) as nat));
    }
}

/// The directions by which each visited board was first reached; `None` for the
/// initial board.
pub struct LastDirections<const PUZZLE_SIZE: usize> {
    map: std::collections::HashMap<u64, Option<Direction>>,
}

impl<const PUZZLE_SIZE: usize> View for LastDirections<PUZZLE_SIZE> {
    type V = Map<u64, Option<Direction>>;

    closed spec fn view(&self) -> Map<u64, Option<Direction>> {
        self.map@
    }
}

impl<const PUZZLE_SIZE: usize> LastDirections<PUZZLE_SIZE> {
    /// An empty record.
    pub fn new() -> (r: Self)
        ensures
            r@ == Map::<u64, Option<Direction>>::empty(),
    {
        LastDirections { map: std::collections::HashMap::new() }
    }

    /// Records that `state` was reached by `direction`.
    pub fn insert(&mut self, state: PuzzleState<PUZZLE_SIZE>, direction: Option<Direction>)
        ensures
            final(self)@ == old(self)@.insert(state.key_spec(), direction),
            final(self)@.len() == if old(self)@.contains_key(state.key_spec()) {
                old(self)@.len()
            } else {
                old(self)@.len() + 1
            },
    {
        broadcast use vstd::std_specs::hash::group_hash_axioms;
        proof {
            assert(self.map@.dom().finite());
        }
        self.map.insert(state.key(), direction);
        proof {
            if !old(self)@.contains_key(state.key_spec()) {
                assert(self.map@.dom() =~= old(self)@.dom().insert(state.key_spec()));
            } else {
                assert(self.map@.dom() =~= old(self)@.dom());
            }
        }
    }

    /// The direction recorded for `state`, if it was visited.
    pub fn get(&self, state: &PuzzleState<PUZZLE_SIZE>) -> (r: Option<Option<Direction>>)
        ensures
            r is Some <==> self@.contains_key(state.key_spec()),
            r is Some ==> r->0 == self@[state.key_spec()],
    {
        broadcast use vstd::std_specs::hash::group_hash_axioms;
        match self.map.get(&state.key()) {
            Some(direction) => Some(*direction),
            None => None,
        }
    }

    /// Number of visited boards.
    pub fn len(&self) -> (r: usize)
        ensures
            r == self@.len(),
    {
        broadcast use vstd::std_specs::hash::group_hash_axioms;
        self.map.len()
    }
}

/// A* state errors.
#[derive(Debug)]
pub enum AstarStateError {
    /// The initial board cannot reach the solved board.
    InitialStateNotSolvable,
}

/// A board in the A* search, with its path length from the start and its priority.
#[derive(Debug, Clone, Copy)]
pub struct AstarState<const PUZZLE_SIZE: usize> {
    f_value: u8,
    last_direction: Option<Direction>,
    distance_from_start: usize,
    puzzle_state: PuzzleState<PUZZLE_SIZE>,
}

impl<const PUZZLE_SIZE: usize> AstarState<PUZZLE_SIZE> {
    /// Priority: path length plus estimate, at most 255.
    pub closed spec fn f_spec(&self) -> u8 {
        self.f_value
    }

    /// Length of the path from the start.
    pub closed spec fn g_spec(&self) -> usize {
        self.distance_from_start
    }

    /// The direction of the last move; `None` at the start.
    pub closed spec fn last_spec(&self) -> Option<Direction> {
        self.last_direction
    }

    /// The board.
    pub closed spec fn state_spec(&self) -> PuzzleState<PUZZLE_SIZE> {
        self.puzzle_state
    }

    /// Creates a state from its parts.
    pub fn from_parts(
        f_value: u8,
        last_direction: Option<Direction>,
        distance_from_start: usize,
        puzzle_state: PuzzleState<PUZZLE_SIZE>,
    ) -> (r: Self)
        ensures
            r.f_spec() == f_value,
            r.last_spec() == last_direction,
            r.g_spec() == distance_from_start,
            r.state_spec() == puzzle_state,
    {
        AstarState { f_value, last_direction, distance_from_start, puzzle_state }
    }

    /// Creates the initial state; fails if the solved board cannot be reached.
    pub fn inital<H: Heuristic<PUZZLE_SIZE>>(puzzle_state: PuzzleState<PUZZLE_SIZE>, heuristic: &H) -> (r: Result<Self, AstarStateError>)
        requires
            puzzle_state.wf(),
            heuristic.ready(),
        ensures
            r is Err <==> !solvable(puzzle_state@, PUZZLE_SIZE as int),
            r is Ok ==> r->Ok_0.f_spec() == heuristic.estimate(puzzle_state@)
                && r->Ok_0.last_spec() is None
                && r->Ok_0.g_spec() == 0
                && r->Ok_0.state_spec() == puzzle_state,
    {
        if !puzzle_state.is_solvable() {
            Err(AstarStateError::InitialStateNotSolvable)
        } else {
            Ok(AstarState {
                f_value: puzzle_state.calculate_heuristic(heuristic),
                last_direction: None,
                distance_from_start: 0,
                puzzle_state,
            })
        }
    }

    /// The state after moving to a neighbouring board; the priority is capped at 255.
    pub fn moved_to_neighbour<H: Heuristic<PUZZLE_SIZE>>(
        &self,
        direction: Direction,
        obtained_state: PuzzleState<PUZZLE_SIZE>,
        heuristic: &H,
    ) -> (r: AstarState<PUZZLE_SIZE>)
        requires
            obtained_state.wf(),
            heuristic.ready(),
            self.g_spec() < usize::MAX,
        ensures
            r.g_spec() == self.g_spec() + 1,
            r.f_spec() as int == if self.g_spec() + 1 + heuristic.estimate(obtained_state@) <= 255 {
                self.g_spec() + 1 + heuristic.estimate(obtained_state@)
            } else {
                255
            },
            r.last_spec() == Some(direction),
            r.state_spec() == obtained_state,
    {
        let neighbour_shortest_path_len = self.distance_from_start + 1;
        let estimate = obtained_state.calculate_heuristic(heuristic);
        let f_value: u8 = if neighbour_shortest_path_len >= 255 {
            255
        } else {
            (neighbour_shortest_path_len as u8).saturating_add(estimate)
        };
        AstarState {
            f_value,
            last_direction: Some(direction),
            distance_from_start: neighbour_shortest_path_len,
            puzzle_state: obtained_state,
        }
    }

    /// The moves from this state's board.
    pub fn neighbours(&self) -> (r: Vec<Move<PUZZLE_SIZE>>)
        requires
            self.state_spec().wf(),
        ensures
            r@.len() == crate::puzzle_state::legal_directions(self.state_spec()@, PUZZLE_SIZE as int).len(),
            forall|i: int| 0 <= i < r@.len() ==> #[trigger] r@[i].direction_spec()
                == crate::puzzle_state::legal_directions(self.state_spec()@, PUZZLE_SIZE as int)[i],
            forall|i: int| 0 <= i < r@.len() ==> (#[trigger] r@[i]).state_spec().wf()
                && r@[i].state_spec()@ == move_blank(self.state_spec()@, PUZZLE_SIZE as int, r@[i].direction_spec()),
    {
        self.puzzle_state.neighbours()
    }

    /// Is this state's board solved?
    pub fn is_solved(&self) -> (r: bool)
        requires
            self.state_spec().wf(),
        ensures
            r == is_goal(self.state_spec()@, PUZZLE_SIZE as int),
    {
        self.puzzle_state.is_solved()
    }

    /// The board.
    pub fn puzzle_state(&self) -> (r: PuzzleState<PUZZLE_SIZE>)
        ensures
            r == self.state_spec(),
    {
        self.puzzle_state
    }

    /// The direction of the last move.
    pub fn last_direction(&self) -> (r: Option<Direction>)
        ensures
            r == self.last_spec(),
    {
        self.last_direction
    }

    /// Priority of the state.
    pub fn f_value(&self) -> (r: u8)
        ensures
            r == self.f_spec(),
    {
        self.f_value
    }

    /// Length of the path from the start.
    pub fn distance_from_start(&self) -> (r: usize)
        ensures
            r == self.g_spec(),
    {
        self.distance_from_start
    }

    /// The route from the board where the recorded way back ends to this state's board.
    pub fn create_route(&self, last_directions: &LastDirections<PUZZLE_SIZE>) -> (r: Vec<Direction>)
        requires
            self.state_spec().wf(),
            exists|k: nat| #[trigger] traces_back(last_directions@, self.state_spec()@, PUZZLE_SIZE as int, self.last_spec(), k),
        ensures
            exists|k: nat| #[trigger] traces_back(last_directions@, self.state_spec()@, PUZZLE_SIZE as int, self.last_spec(), k)
                && r@ == route_back(last_directions@, self.state_spec()@, PUZZLE_SIZE as int, self.last_spec(), k),
    {
        let ghost m = last_directions@;
        let ghost n = PUZZLE_SIZE as int;
        let ghost k0 = choose|k: nat| #[trigger] traces_back(m, self.puzzle_state@, n, self.last_direction, k);
        let mut curr_puzzle_state = self.puzzle_state;
        let mut curr_direction = self.last_direction;
        let mut reversed_route: Vec<Direction> = Vec::new();
        let ghost mut k = k0;
        while curr_direction.is_some()
            invariant
                curr_puzzle_state.wf(),
                m == last_directions@,
                traces_back(m, curr_puzzle_state@, n, curr_direction, k),
                route_back(m, self.puzzle_state@, n, self.last_direction, k0)
                    == route_back(m, curr_puzzle_state@, n, curr_direction, k) + reversed_route@.reverse(),
            decreases k,
        {
            let direction = curr_direction.unwrap();
            reversed_route.push(direction);
            let opposite_direction = direction.opposite();
            let ghost old_state = curr_puzzle_state@;
            curr_puzzle_state = curr_puzzle_state.create_neighbour_move_state(opposite_direction);
            proof {
                curr_puzzle_state.lemma_key();
            }
            let recorded = last_directions.get(&curr_puzzle_state);
            curr_direction = recorded.unwrap();
            proof {
                let tail = reversed_route@.reverse();
                let before_tail = reversed_route@.drop_last().reverse();
                assert(tail =~= seq![direction] + before_tail);
                assert(route_back(m, old_state, n, Some(direction), k)
                    == route_back(m, curr_puzzle_state@, n, curr_direction, (k - 1) as nat).push(direction));
                assert(route_back(m, curr_puzzle_state@, n, curr_direction, (k - 1) as nat).push(direction) + before_tail
                    =~= route_back(m, curr_puzzle_state@, n, curr_direction, (k - 1) as nat) + tail);
                k = (k - 1) as nat;
            }
        }
        let mut route: Vec<Direction> = Vec::new();
        let mut i: usize = reversed_route.len();
        while i > 0
            invariant
                i <= reversed_route@.len(),
                route@ == reversed_route@.subrange(i as int, reversed_route@.len() as int).reverse(),
            decreases i,
        {
            i -= 1;
            route.push(reversed_route[i]);
            assert(reversed_route@.subrange(i as int, reversed_route@.len() as int).reverse()
                =~= reversed_route@.subrange(i + 1, reversed_route@.len() as int).reverse().push(reversed_route@[i as int]));
        }
        proof {
            assert(reversed_route@.subrange(0, reversed_route@.len() as int) =~= reversed_route@);
            assert(route_back(m, curr_puzzle_state@, n, curr_direction, k) == Seq::<Direction>::empty());
            assert(route@ =~= route_back(m, self.puzzle_state@, n, self.last_direction, k0));
        }
        route
    }
}

} // verus!
