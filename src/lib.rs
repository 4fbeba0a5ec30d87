//! Optimal solver for the sliding-tile puzzle (boards up to 4x4), using A* search
//! with a heuristic estimate of the remaining moves.
use vstd::prelude::*;

pub mod astar_state;
pub mod frontier;
pub mod generator;
pub mod heuristics;
pub mod puzzle_state;

use astar_state::{
    route_back, lemma_back_grows, lemma_back_replays, lemma_back_unique, origin_back, traces_back, AstarState,
    LastDirections,
};
use frontier::Frontier;
use heuristics::Heuristic;
use puzzle_state::{
    can_move, is_goal, lemma_legal_contains, lemma_legal_directions, lemma_move_undo, lemma_reachable_is_solvable,
    lemma_key_unique, lemma_replay_valid, legal_directions, move_blank, on_board, replay, solvable, unpack, valid_board, Grid,
};

pub use generator::generate_random_puzzle_state;
pub use puzzle_state::direction::Direction;
pub use puzzle_state::PuzzleState;

verus! {

/// Most commonly used puzzle size.
pub const DEFAULT_PUZZLE_SIZE: usize = 4;

/// Solution of a sliding puzzle.
pub struct Solution {
    steps: Vec<Direction>,
    no_of_visited_states: usize,
}

impl Solution {
    /// The moves of the blank, in order.
    pub closed spec fn steps_spec(&self) -> Seq<Direction> {
        self.steps@
    }

    /// Number of boards visited by the search.
    pub closed spec fn visited_spec(&self) -> usize {
        self.no_of_visited_states
    }

    /// Creates a solution.
    pub fn new(steps: Vec<Direction>, no_of_visited_states: usize) -> (r: Self)
        ensures
            r.steps_spec() == steps@,
            r.visited_spec() == no_of_visited_states,
    {
        Solution { steps, no_of_visited_states }
    }

    /// The moves of the blank, in order.
    pub fn steps(&self) -> (r: &[Direction])
        ensures
            r@ == self.steps_spec(),
    {
        self.steps.as_slice()
    }

    /// Number of boards visited by the search.
    pub fn no_of_visited_states(&self) -> (r: usize)
        ensures
            r == self.visited_spec(),
    {
        self.no_of_visited_states
    }
}

/// The blank's moves can lead from `g` to the solved board.
pub open spec fn reaches_goal(g: Grid, n: int) -> bool {
    exists|p: Seq<Direction>| #[trigger] replay(g, n, p) is Some && is_goal(replay(g, n, p)->0, n)
}

/// Board `g` was recorded as visited.
pub open spec fn finalized(m: Map<u64, Option<Direction>>, g: Grid) -> bool {
    exists|k: u64| m.contains_key(k) && #[trigger] unpack(k as nat, DEFAULT_PUZZLE_SIZE as int) == g
}

/// A state of board `g`, reached by at most `bound` moves, waits in the frontier.
pub open spec fn waiting(f: Seq<Seq<AstarState<DEFAULT_PUZZLE_SIZE>>>, g: Grid, bound: int) -> bool {
    exists|b: int, i: int| 0 <= b < f.len() && 0 <= i < f[b].len() && (#[trigger] f[b][i]).state_spec()@ == g
        && f[b][i].g_spec() <= bound
}

/// Every neighbour of a visited board is visited, or waits in the frontier reached by at
/// most one move more than the visited board.
pub open spec fn closed_under_moves(m: Map<u64, Option<Direction>>, gm: Map<u64, nat>, f: Seq<Seq<AstarState<DEFAULT_PUZZLE_SIZE>>>) -> bool {
    forall|k: u64, d: Direction| m.contains_key(k) && #[trigger] can_move(unpack(k as nat, 4), 4, d)
        ==> finalized(m, move_blank(unpack(k as nat, 4), 4, d)) || waiting(f, move_blank(unpack(k as nat, 4), 4, d), gm[k] + 1int)
}

/// The estimate never drops by more than one per move, and is 0 on the solved board.
pub open spec fn consistent<H: Heuristic<DEFAULT_PUZZLE_SIZE>>(h: &H) -> bool {
    &&& forall|g: Grid, d: Direction| valid_board(g, 4) && #[trigger] can_move(g, 4, d)
        ==> h.estimate(g) <= h.estimate(move_blank(g, 4, d)) + 1
    &&& forall|g: Grid| valid_board(g, 4) && #[trigger] is_goal(g, 4) ==> h.estimate(g) == 0
    &&& forall|g: Grid| valid_board(g, 4) ==> #[trigger] h.estimate(g) >= 0
}

/// Each visited board was reached by no more moves than any path to it whose length plus
/// estimate stays below 255.
pub open spec fn shortest_so_far<H: Heuristic<DEFAULT_PUZZLE_SIZE>>(h: &H, m: Map<u64, Option<Direction>>, gm: Map<u64, nat>, init: Grid) -> bool {
    forall|k: u64, p: Seq<Direction>|
        #![trigger m.contains_key(k), replay(init, 4, p)]
        m.contains_key(k) && replay(init, 4, p) == Some(unpack(k as nat, 4))
            && p.len() + h.estimate(unpack(k as nat, 4)) < 255 ==> gm[k] <= p.len()
}

proof fn lemma_prefix_replay(g: Grid, p: Seq<Direction>, i: int)
    requires
        replay(g, 4, p) is Some,
        0 <= i <= p.len(),
    ensures
        replay(g, 4, p.take(i)) is Some,
        i < p.len() ==> can_move(replay(g, 4, p.take(i))->0, 4, p[i])
            && replay(g, 4, p.take(i + 1)) == Some(move_blank(replay(g, 4, p.take(i))->0, 4, p[i])),
    decreases p.len() - i,
{
    if i == p.len() {
        assert(p.take(i) =~= p);
    } else {
        lemma_prefix_replay(g, p, i + 1);
        assert(p.take(i + 1).drop_last() =~= p.take(i));
        assert(p.take(i + 1).last() == p[i]);
    }
}

proof fn lemma_estimate_along<H: Heuristic<DEFAULT_PUZZLE_SIZE>>(h: &H, g: Grid, p: Seq<Direction>, i: int)
    requires
        consistent(h),
        valid_board(g, 4),
        replay(g, 4, p) is Some,
        0 <= i <= p.len(),
    ensures
        h.estimate(replay(g, 4, p.take(i))->0) <= (p.len() - i) + h.estimate(replay(g, 4, p)->0),
    decreases p.len() - i,
{
    lemma_prefix_replay(g, p, i);
    if i == p.len() {
        assert(p.take(i) =~= p);
    } else {
        lemma_estimate_along(h, g, p, i + 1);
        lemma_replay_valid(g, 4, p.take(i));
        assert(can_move(replay(g, 4, p.take(i))->0, 4, p[i]));
    }
}

/// A path to a board not yet visited passes through a waiting state that was reached
/// by no more moves than the path takes to get there.
proof fn lemma_path_meets_frontier<H: Heuristic<DEFAULT_PUZZLE_SIZE>>(
    h: &H,
    m: Map<u64, Option<Direction>>,
    gm: Map<u64, nat>,
    f: Seq<Seq<AstarState<DEFAULT_PUZZLE_SIZE>>>,
    init: Grid,
    p: Seq<Direction>,
    j: int,
) -> (i: int)
    requires
        consistent(h),
        shortest_so_far(h, m, gm, init),
        closed_under_moves(m, gm, f),
        finalized(m, init) || waiting(f, init, 0),
        forall|k: u64| #[trigger] m.contains_key(k) ==> valid_board(unpack(k as nat, 4), 4),
        valid_board(init, 4),
        replay(init, 4, p) is Some,
        0 <= j <= p.len(),
        !finalized(m, replay(init, 4, p.take(j))->0),
        p.len() + h.estimate(replay(init, 4, p)->0) < 255,
    ensures
        0 <= i <= j,
        waiting(f, replay(init, 4, p.take(i))->0, i),
        i + h.estimate(replay(init, 4, p.take(i))->0) <= p.len() + h.estimate(replay(init, 4, p)->0),
    decreases j,
{
    lemma_prefix_replay(init, p, j);
    lemma_estimate_along(h, init, p, j);
    if j == 0 {
        assert(p.take(0) =~= Seq::<Direction>::empty());
        assert(replay(init, 4, p.take(0)) == Some(init));
        0
    } else {
        let prev = replay(init, 4, p.take(j - 1))->0;
        lemma_prefix_replay(init, p, j - 1);
        if finalized(m, prev) {
            let k = choose|k: u64| m.contains_key(k) && #[trigger] unpack(k as nat, 4) == prev;
            lemma_estimate_along(h, init, p, j - 1);
            assert(p.take(j - 1).len() == j - 1);
            assert(gm[k] <= p.take(j - 1).len());
            assert(can_move(unpack(k as nat, 4), 4, p[j - 1]));
            j
        } else {
            lemma_path_meets_frontier(h, m, gm, f, init, p, j - 1)
        }
    }
}

proof fn lemma_waiting_after_pop(
    f: Seq<Seq<AstarState<DEFAULT_PUZZLE_SIZE>>>,
    b: int,
    g: Grid,
    bound: int,
)
    requires
        0 <= b < f.len(),
        f[b].len() > 0,
        waiting(f, g, bound),
    ensures
        waiting(f.update(b, f[b].drop_last()), g, bound) || f[b].last().state_spec()@ == g,
{
    let f2 = f.update(b, f[b].drop_last());
    let (b2, i2) = choose|b2: int, i2: int| 0 <= b2 < f.len() && 0 <= i2 < f[b2].len() && (#[trigger] f[b2][i2]).state_spec()@ == g
        && f[b2][i2].g_spec() <= bound;
    if b2 == b && i2 == f[b].len() - 1 {
    } else {
        assert(f2[b2][i2] == f[b2][i2]);
    }
}

proof fn lemma_waiting_after_push(
    f: Seq<Seq<AstarState<DEFAULT_PUZZLE_SIZE>>>,
    b: int,
    x: AstarState<DEFAULT_PUZZLE_SIZE>,
    g: Grid,
    bound: int,
)
    requires
        0 <= b < f.len(),
        waiting(f, g, bound) || (x.state_spec()@ == g && x.g_spec() <= bound),
    ensures
        waiting(f.update(b, f[b].push(x)), g, bound),
{
    let f2 = f.update(b, f[b].push(x));
    if waiting(f, g, bound) {
        let (b2, i2) = choose|b2: int, i2: int| 0 <= b2 < f.len() && 0 <= i2 < f[b2].len() && (#[trigger] f[b2][i2]).state_spec()@ == g
            && f[b2][i2].g_spec() <= bound;
        assert(f2[b2][i2] == f[b2][i2]);
    } else {
        assert(f2[b][f[b].len() as int] == x);
    }
}

/// With nothing waiting, every board reachable from a visited board is visited.
proof fn lemma_closed_reach(m: Map<u64, Option<Direction>>, gm: Map<u64, nat>, f: Seq<Seq<AstarState<DEFAULT_PUZZLE_SIZE>>>, g: Grid, p: Seq<Direction>)
    requires
        closed_under_moves(m, gm, f),
        forall|b: int| 0 <= b < f.len() ==> (#[trigger] f[b]).len() == 0,
        forall|k: u64| #[trigger] m.contains_key(k) ==> valid_board(unpack(k as nat, 4), 4),
        finalized(m, g),
        replay(g, 4, p) is Some,
    ensures
        finalized(m, replay(g, 4, p)->0),
    decreases p.len(),
{
    if p.len() > 0 {
        lemma_closed_reach(m, gm, f, g, p.drop_last());
        let h = replay(g, 4, p.drop_last())->0;
        let k = choose|k: u64| m.contains_key(k) && #[trigger] unpack(k as nat, 4) == h;
        assert(m.contains_key(k) && can_move(unpack(k as nat, 4), 4, p.last()));
        if waiting(f, move_blank(h, 4, p.last()), gm[k] + 1int) {
            let (b2, i2) = choose|b2: int, i2: int| 0 <= b2 < f.len() && 0 <= i2 < f[b2].len()
                && (#[trigger] f[b2][i2]).state_spec()@ == move_blank(h, 4, p.last()) && f[b2][i2].g_spec() <= gm[k] + 1;
            assert(f[b2].len() == 0);
        }
    }
}

/// A search state whose board the recorded directions lead back from to `init`.
pub open spec fn reached_from(m: Map<u64, Option<Direction>>, init: Grid, a: AstarState<DEFAULT_PUZZLE_SIZE>) -> bool {
    &&& a.state_spec().wf()
    &&& exists|k: nat| #[trigger] traces_back(m, a.state_spec()@, DEFAULT_PUZZLE_SIZE as int, a.last_spec(), k)
        && origin_back(m, a.state_spec()@, DEFAULT_PUZZLE_SIZE as int, a.last_spec(), k) == init
        && route_back(m, a.state_spec()@, DEFAULT_PUZZLE_SIZE as int, a.last_spec(), k).len() == a.g_spec()
}

/// The state's priority is its path length plus its estimate, capped at 255.
pub open spec fn priority_ok<H: Heuristic<DEFAULT_PUZZLE_SIZE>>(h: &H, a: AstarState<DEFAULT_PUZZLE_SIZE>) -> bool {
    a.f_spec() as int == if a.g_spec() + h.estimate(a.state_spec()@) <= 255 {
        a.g_spec() + h.estimate(a.state_spec()@)
    } else {
        255
    }
}

proof fn lemma_reached_grows(m: Map<u64, Option<Direction>>, m2: Map<u64, Option<Direction>>, init: Grid, a: AstarState<DEFAULT_PUZZLE_SIZE>)
    requires
        reached_from(m, init, a),
        forall|key: u64| #[trigger] m.contains_key(key) ==> m2.contains_key(key) && m2[key] == m[key],
    ensures
        reached_from(m2, init, a),
{
    let n = DEFAULT_PUZZLE_SIZE as int;
    let k = choose|k: nat| #[trigger] traces_back(m, a.state_spec()@, n, a.last_spec(), k)
        && origin_back(m, a.state_spec()@, n, a.last_spec(), k) == init
        && route_back(m, a.state_spec()@, n, a.last_spec(), k).len() == a.g_spec();
    lemma_back_grows(m, m2, a.state_spec()@, n, a.last_spec(), k);
}

/**
* Solves the puzzle by A* search guided by `heuristic`. Returns `None` exactly when the
* blank's moves cannot lead from `initial_state` to the solved board; otherwise moves that
* lead there, and the number of boards visited. With a consistent heuristic the moves are
* a shortest way to the solved board (among ways shorter than 255 moves).
*/
#[verifier::rlimit(100)]
pub fn solve_with_heuristic<H: Heuristic<DEFAULT_PUZZLE_SIZE>>(
    initial_state: PuzzleState<DEFAULT_PUZZLE_SIZE>,
    heuristic: &H,
) -> (r: Option<Solution>)
    requires
        initial_state.wf(),
        heuristic.ready(),
    ensures
        r is Some <==> reaches_goal(initial_state@, DEFAULT_PUZZLE_SIZE as int),
        !solvable(initial_state@, DEFAULT_PUZZLE_SIZE as int) ==> r is None,
        r is Some ==> replay(initial_state@, DEFAULT_PUZZLE_SIZE as int, r->0.steps_spec()) is Some
            && is_goal(replay(initial_state@, DEFAULT_PUZZLE_SIZE as int, r->0.steps_spec())->0, DEFAULT_PUZZLE_SIZE as int)
            && r->0.visited_spec() >= 1,
        is_goal(initial_state@, DEFAULT_PUZZLE_SIZE as int) ==> r is Some && r->0.steps_spec().len() == 0
            && r->0.visited_spec() == 1,
        consistent(heuristic) && r is Some ==> forall|p: Seq<Direction>|
            #[trigger] replay(initial_state@, DEFAULT_PUZZLE_SIZE as int, p) is Some
                && is_goal(replay(initial_state@, DEFAULT_PUZZLE_SIZE as int, p)->0, DEFAULT_PUZZLE_SIZE as int)
                && p.len() < 255 ==> r->0.steps_spec().len() <= p.len(),
{
    broadcast use vstd::std_specs::hash::group_hash_axioms;
    let ghost n = DEFAULT_PUZZLE_SIZE as int;
    let ghost init = initial_state@;
    proof {
        assert(replay(init, n, Seq::<Direction>::empty()) == Some(init));
    }
    let curr_state = match AstarState::inital(initial_state, heuristic) {
        Ok(state) => state,
        Err(_) => {
            proof {
                if reaches_goal(init, n) {
                    let p = choose|p: Seq<Direction>| #[trigger] replay(init, n, p) is Some && is_goal(replay(init, n, p)->0, n);
                    lemma_reachable_is_solvable(init, n, p);
                }
            }
            return None;
        },
    };
    if curr_state.is_solved() {
        let steps: Vec<Direction> = Vec::new();
        proof {
            assert(steps@ =~= Seq::<Direction>::empty());
        }
        return Some(Solution::new(steps, 1));
    }
    let mut last_directions: LastDirections<DEFAULT_PUZZLE_SIZE> = LastDirections::new();
    let mut frontier: Frontier<DEFAULT_PUZZLE_SIZE> = Frontier::new();
    let ghost mut gm: Map<u64, nat> = Map::empty();
    proof {
        assert(traces_back(last_directions@, curr_state.state_spec()@, n, curr_state.last_spec(), 0));
        assert(route_back(last_directions@, curr_state.state_spec()@, n, curr_state.last_spec(), 0).len() == 0);
    }
    let ghost empty_buckets = frontier.buckets_spec();
    frontier.push(curr_state);
    proof {
        assert forall|b: int, i: int| 0 <= b < frontier.buckets_spec().len() && 0 <= i < frontier.buckets_spec()[b].len()
            implies reached_from(last_directions@, init, #[trigger] frontier.buckets_spec()[b][i])
                && frontier.buckets_spec()[b][i].g_spec() <= last_directions@.len()
                && priority_ok(heuristic, frontier.buckets_spec()[b][i]) by {
            if b != curr_state.f_spec() as int {
                assert(frontier.buckets_spec()[b].len() == 0);
            }
            assert(frontier.buckets_spec()[b][i] == curr_state);
        }
        lemma_waiting_after_push(empty_buckets, curr_state.f_spec() as int, curr_state, init, 0);
    }
    loop
        invariant
            frontier.wf(),
            frontier.buckets_spec().len() == frontier::PRIORITIES,
            heuristic.ready(),
            init == initial_state@,
            valid_board(init, n),
            solvable(init, n),
            !is_goal(init, n),
            n == DEFAULT_PUZZLE_SIZE,
            last_directions@.len() <= usize::MAX,
            gm.dom() == last_directions@.dom(),
            forall|b: int, i: int| 0 <= b < frontier.buckets_spec().len() && 0 <= i < frontier.buckets_spec()[b].len()
                ==> reached_from(last_directions@, init, #[trigger] frontier.buckets_spec()[b][i])
                    && frontier.buckets_spec()[b][i].g_spec() <= last_directions@.len()
                    && priority_ok(heuristic, frontier.buckets_spec()[b][i]),
            forall|k: u64| #[trigger] last_directions@.contains_key(k) ==> valid_board(unpack(k as nat, 4), 4)
                && !is_goal(unpack(k as nat, 4), 4),
            closed_under_moves(last_directions@, gm, frontier.buckets_spec()),
            finalized(last_directions@, init) || waiting(frontier.buckets_spec(), init, 0),
            consistent(heuristic) ==> shortest_so_far(heuristic, last_directions@, gm, init),
        decreases usize::MAX - last_directions@.len(), frontier.len_spec(),
    {
        let ghost old_buckets = frontier.buckets_spec();
        let ghost m0 = last_directions@;
        let popped = frontier.pop();
        if popped.is_none() {
            proof {
                if reaches_goal(init, n) {
                    let p = choose|p: Seq<Direction>| #[trigger] replay(init, n, p) is Some && is_goal(replay(init, n, p)->0, n);
                    if waiting(old_buckets, init, 0) {
                        let (b2, i2) = choose|b2: int, i2: int| 0 <= b2 < old_buckets.len() && 0 <= i2 < old_buckets[b2].len()
                            && (#[trigger] old_buckets[b2][i2]).state_spec()@ == init && old_buckets[b2][i2].g_spec() <= 0;
                        assert(old_buckets[b2].len() == 0);
                    }
                    lemma_closed_reach(m0, gm, old_buckets, init, p);
                    let k = choose|k: u64| m0.contains_key(k) && #[trigger] unpack(k as nat, 4) == replay(init, n, p)->0;
                    assert(!is_goal(unpack(k as nat, 4), 4));
                }
            }
            return None;
        }
        let curr = popped.unwrap();
        let ghost pb = curr.f_spec() as int;
        let ghost popped_buckets = frontier.buckets_spec();
        proof {
            assert(old_buckets[pb][old_buckets[pb].len() - 1] == curr);
            assert forall|b2: int, i: int| 0 <= b2 < frontier.buckets_spec().len() && 0 <= i < frontier.buckets_spec()[b2].len()
                implies reached_from(last_directions@, init, #[trigger] frontier.buckets_spec()[b2][i])
                    && frontier.buckets_spec()[b2][i].g_spec() <= last_directions@.len()
                    && priority_ok(heuristic, frontier.buckets_spec()[b2][i]) by {
                assert(frontier.buckets_spec()[b2][i] == old_buckets[b2][i]);
            }
            curr.state_spec().lemma_key();
            assert(priority_ok(heuristic, curr) && curr.g_spec() <= m0.len() && reached_from(m0, init, curr));
        }
        if last_directions.get(&curr.puzzle_state()).is_none() {
            let ghost old_m = last_directions@;
            let ghost old_gm = gm;
            proof {
                // The popped board was reached by a shortest path.
                if consistent(heuristic) {
                    let x = curr.state_spec()@;
                    assert(!finalized(old_m, x)) by {
                        if finalized(old_m, x) {
                            let k = choose|k: u64| old_m.contains_key(k) && #[trigger] unpack(k as nat, 4) == x;
                            lemma_key_unique(curr.state_spec(), k);
                        }
                    }
                    assert forall|p: Seq<Direction>| #[trigger] replay(init, 4, p) == Some(x)
                        && p.len() + heuristic.estimate(x) < 255 implies curr.g_spec() <= p.len() by {
                        if curr.g_spec() > p.len() {
                            assert(p.take(p.len() as int) =~= p);
                            let i = lemma_path_meets_frontier(heuristic, old_m, old_gm, old_buckets, init, p, p.len() as int);
                            let bi = replay(init, 4, p.take(i))->0;
                            let (b2, i2) = choose|b2: int, i2: int| 0 <= b2 < old_buckets.len() && 0 <= i2 < old_buckets[b2].len()
                                && (#[trigger] old_buckets[b2][i2]).state_spec()@ == bi && old_buckets[b2][i2].g_spec() <= i;
                            let y = old_buckets[b2][i2];
                            assert(priority_ok(heuristic, y));
                            lemma_prefix_replay(init, p, i);
                            lemma_replay_valid(init, 4, p.take(i));
                            assert(y.f_spec() as int == b2);
                            assert(!(b2 < pb));
                            lemma_replay_valid(init, 4, p);
                        }
                    }
                }
            }
            last_directions.insert(curr.puzzle_state(), curr.last_direction());
            let ghost m = last_directions@;
            proof {
                gm = gm.insert(curr.state_spec().key_spec(), curr.g_spec() as nat);
                assert(gm.dom() =~= m.dom());
                assert forall|key: u64| #[trigger] old_m.contains_key(key) implies m.contains_key(key) && m[key] == old_m[key] by {}
                lemma_reached_grows(old_m, m, init, curr);
                assert forall|b2: int, i: int| 0 <= b2 < frontier.buckets_spec().len() && 0 <= i < frontier.buckets_spec()[b2].len()
                    implies reached_from(m, init, #[trigger] frontier.buckets_spec()[b2][i]) by {
                    lemma_reached_grows(old_m, m, init, frontier.buckets_spec()[b2][i]);
                }
                if consistent(heuristic) {
                    assert forall|k: u64, p: Seq<Direction>|
                        #![trigger m.contains_key(k), replay(init, 4, p)]
                        m.contains_key(k) && replay(init, 4, p) == Some(unpack(k as nat, 4))
                            && p.len() + heuristic.estimate(unpack(k as nat, 4)) < 255 implies gm[k] <= p.len() by {
                        if k != curr.state_spec().key_spec() {
                            assert(old_m.contains_key(k));
                        }
                    }
                }
            }
            let visited = last_directions.len();
            if curr.is_solved() {
                let steps = curr.create_route(&last_directions);
                proof {
                    let k = choose|k: nat| #[trigger] traces_back(m, curr.state_spec()@, n, curr.last_spec(), k)
                        && origin_back(m, curr.state_spec()@, n, curr.last_spec(), k) == init
                        && route_back(m, curr.state_spec()@, n, curr.last_spec(), k).len() == curr.g_spec();
                    let k2 = choose|k2: nat| #[trigger] traces_back(m, curr.state_spec()@, n, curr.last_spec(), k2)
                        && steps@ == route_back(m, curr.state_spec()@, n, curr.last_spec(), k2);
                    lemma_back_unique(m, curr.state_spec()@, n, curr.last_spec(), k, k2);
                    lemma_back_replays(m, curr.state_spec()@, n, curr.last_spec(), k2);
                    assert(replay(init, n, steps@) is Some && is_goal(replay(init, n, steps@)->0, n));
                    if consistent(heuristic) {
                        assert forall|p: Seq<Direction>|
                            #[trigger] replay(init, n, p) is Some && is_goal(replay(init, n, p)->0, n) && p.len() < 255
                            implies steps@.len() <= p.len() by {
                            lemma_replay_valid(init, 4, p);
                            let gl = replay(init, n, p)->0;
                            let kk = curr.state_spec().key_spec();
                            curr.state_spec().lemma_key();
                            lemma_key_unique(curr.state_spec(), kk);
                            assert(is_goal(curr.state_spec()@, 4));
                            // Two solved boards are the same board.
                            assert(gl =~~= curr.state_spec()@) by {
                                assert forall|r: int| 0 <= r < 4 implies #[trigger] gl[r] =~= curr.state_spec()@[r] by {
                                    assert forall|c: int| 0 <= c < 4 implies gl[r][c] == curr.state_spec()@[r][c] by {
                                        assert(on_board(4, r, c));
                                    }
                                }
                            }
                            assert(heuristic.estimate(gl) == 0);
                            assert(m.contains_key(kk));
                            assert(unpack(kk as nat, 4) == gl);
                        }
                    }
                }
                return Some(Solution::new(steps, visited));
            }
            proof {
                assert forall|g: Grid| finalized(old_m, g) implies finalized(m, g) by {
                    let k = choose|k: u64| old_m.contains_key(k) && #[trigger] unpack(k as nat, 4) == g;
                    assert(m.contains_key(k));
                }
                assert(m.contains_key(curr.state_spec().key_spec()));
                assert(finalized(m, curr.state_spec()@));
                assert forall|g: Grid, bd: int| waiting(old_buckets, g, bd) implies finalized(m, g) || waiting(popped_buckets, g, bd) by {
                    lemma_waiting_after_pop(old_buckets, pb, g, bd);
                }
                assert forall|k: u64, d: Direction| m.contains_key(k) && k != curr.state_spec().key_spec()
                    && #[trigger] can_move(unpack(k as nat, 4), 4, d)
                    implies finalized(m, move_blank(unpack(k as nat, 4), 4, d)) || waiting(frontier.buckets_spec(), move_blank(unpack(k as nat, 4), 4, d), gm[k] + 1int) by {
                    assert(old_m.contains_key(k));
                    assert(gm[k] == old_gm[k]);
                }
            }
            let neighbours = curr.neighbours();
            let ghost cg = curr.state_spec()@;
            let mut i: usize = 0;
            while i < neighbours.len()
                invariant
                    frontier.wf(),
                    frontier.buckets_spec().len() == frontier::PRIORITIES,
                    heuristic.ready(),
                    init == initial_state@,
                    valid_board(init, n),
                    n == DEFAULT_PUZZLE_SIZE,
                    m == last_directions@,
                    m.len() == old_m.len() + 1,
                    m.len() <= usize::MAX,
                    gm.dom() == m.dom(),
                    solvable(init, n),
                    !is_goal(init, n),
                    cg == curr.state_spec()@,
                    m.contains_key(curr.state_spec().key_spec()),
                    m[curr.state_spec().key_spec()] == curr.last_spec(),
                    gm[curr.state_spec().key_spec()] == curr.g_spec(),
                    unpack(curr.state_spec().key_spec() as nat, 4) == cg,
                    !is_goal(cg, 4),
                    curr.state_spec().wf(),
                    curr.g_spec() <= old_m.len(),
                    reached_from(m, init, curr),
                    neighbours@.len() == legal_directions(cg, n).len(),
                    forall|j: int| 0 <= j < neighbours@.len() ==> #[trigger] neighbours@[j].direction_spec()
                        == legal_directions(cg, n)[j],
                    forall|j: int| 0 <= j < neighbours@.len() ==> (#[trigger] neighbours@[j]).state_spec().wf()
                        && neighbours@[j].state_spec()@ == move_blank(cg, n, neighbours@[j].direction_spec()),
                    forall|b: int, j: int| 0 <= b < frontier.buckets_spec().len() && 0 <= j < frontier.buckets_spec()[b].len()
                        ==> reached_from(m, init, #[trigger] frontier.buckets_spec()[b][j])
                            && frontier.buckets_spec()[b][j].g_spec() <= m.len()
                            && priority_ok(heuristic, frontier.buckets_spec()[b][j]),
                    forall|k: u64| #[trigger] m.contains_key(k) ==> valid_board(unpack(k as nat, 4), 4)
                        && !is_goal(unpack(k as nat, 4), 4),
                    forall|k: u64, d: Direction| m.contains_key(k) && k != curr.state_spec().key_spec()
                        && #[trigger] can_move(unpack(k as nat, 4), 4, d)
                        ==> finalized(m, move_blank(unpack(k as nat, 4), 4, d)) || waiting(frontier.buckets_spec(), move_blank(unpack(k as nat, 4), 4, d), gm[k] + 1int),
                    forall|j: int| 0 <= j < i ==> finalized(m, #[trigger] neighbours@[j].state_spec()@)
                        || waiting(frontier.buckets_spec(), neighbours@[j].state_spec()@, curr.g_spec() + 1),
                    finalized(m, init) || waiting(frontier.buckets_spec(), init, 0),
                    consistent(heuristic) ==> shortest_so_far(heuristic, m, gm, init),
                decreases neighbours@.len() - i,
            {
                let (direction, puzzle_state) = neighbours[i].into_direction_and_puzzle_state();
                proof {
                    puzzle_state.lemma_key();
                }
                if last_directions.get(&puzzle_state).is_none() {
                    let next = curr.moved_to_neighbour(direction, puzzle_state, heuristic);
                    proof {
                        lemma_legal_directions(cg, n, i as int);
                        lemma_move_undo(cg, n, direction);
                        curr.state_spec().lemma_key();
                        let k = choose|k: nat| #[trigger] traces_back(m, cg, n, curr.last_spec(), k)
                            && origin_back(m, cg, n, curr.last_spec(), k) == init
                            && route_back(m, cg, n, curr.last_spec(), k).len() == curr.g_spec();
                        assert(traces_back(m, next.state_spec()@, n, next.last_spec(), k + 1));
                        assert(origin_back(m, next.state_spec()@, n, next.last_spec(), k + 1) == init);
                        assert(route_back(m, next.state_spec()@, n, next.last_spec(), k + 1).len() == next.g_spec());
                    }
                    let ghost before_push = frontier.buckets_spec();
                    frontier.push(next);
                    proof {
                        assert forall|b: int, j: int| 0 <= b < frontier.buckets_spec().len() && 0 <= j < frontier.buckets_spec()[b].len()
                            implies reached_from(m, init, #[trigger] frontier.buckets_spec()[b][j])
                                && frontier.buckets_spec()[b][j].g_spec() <= m.len()
                                && priority_ok(heuristic, frontier.buckets_spec()[b][j]) by {
                            if b == next.f_spec() as int && j == before_push[b].len() {
                                assert(frontier.buckets_spec()[b][j] == next);
                            } else {
                                assert(frontier.buckets_spec()[b][j] == before_push[b][j]);
                            }
                        }
                        assert forall|g: Grid, bd: int| waiting(before_push, g, bd) || (next.state_spec()@ == g && next.g_spec() <= bd)
                            implies waiting(frontier.buckets_spec(), g, bd) by {
                            lemma_waiting_after_push(before_push, next.f_spec() as int, next, g, bd);
                        }
                        assert forall|j: int| 0 <= j < i + 1 implies finalized(m, #[trigger] neighbours@[j].state_spec()@)
                            || waiting(frontier.buckets_spec(), neighbours@[j].state_spec()@, curr.g_spec() + 1) by {
                            if j == i {
                                assert(neighbours@[j].state_spec() == puzzle_state);
                                assert(next.state_spec() == puzzle_state);
                                lemma_waiting_after_push(before_push, next.f_spec() as int, next, neighbours@[j].state_spec()@, curr.g_spec() + 1);
                            } else if !finalized(m, neighbours@[j].state_spec()@) {
                                assert(waiting(before_push, neighbours@[j].state_spec()@, curr.g_spec() + 1));
                                lemma_waiting_after_push(before_push, next.f_spec() as int, next, neighbours@[j].state_spec()@, curr.g_spec() + 1);
                            }
                        }
                    }
                } else {
                    proof {
                        assert(finalized(m, puzzle_state@)) by {
                            assert(unpack(puzzle_state.key_spec() as nat, 4) == puzzle_state@);
                        }
                        assert forall|j: int| 0 <= j < i + 1 implies finalized(m, #[trigger] neighbours@[j].state_spec()@)
                            || waiting(frontier.buckets_spec(), neighbours@[j].state_spec()@, curr.g_spec() + 1) by {
                            if j == i {
                                assert(neighbours@[j].state_spec()@ == puzzle_state@);
                            }
                        }
                    }
                }
                i += 1;
            }
            proof {
                assert forall|k: u64, d: Direction| m.contains_key(k) && #[trigger] can_move(unpack(k as nat, 4), 4, d)
                    implies finalized(m, move_blank(unpack(k as nat, 4), 4, d)) || waiting(frontier.buckets_spec(), move_blank(unpack(k as nat, 4), 4, d), gm[k] + 1int) by {
                    if k == curr.state_spec().key_spec() {
                        lemma_legal_contains(cg, n, d);
                        let j = choose|j: int| 0 <= j < legal_directions(cg, n).len() && #[trigger] legal_directions(cg, n)[j] == d;
                        assert(neighbours@[j].direction_spec() == d);
                    }
                }
            }
        } else {
            proof {
                let m = last_directions@;
                assert(m.contains_key(curr.state_spec().key_spec()));
                assert(finalized(m, curr.state_spec()@));
                assert forall|g: Grid, bd: int| waiting(old_buckets, g, bd) implies finalized(m, g) || waiting(popped_buckets, g, bd) by {
                    lemma_waiting_after_pop(old_buckets, pb, g, bd);
                }
            }
        }
    }
}

} // verus!
