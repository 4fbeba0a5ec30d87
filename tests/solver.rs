use puzzle::heuristics::disjoint_databases::DisjointDatabases;
use puzzle::heuristics::ManhattanDistance;
use puzzle::{generate_random_puzzle_state, solve_with_heuristic, Direction, PuzzleState, DEFAULT_PUZZLE_SIZE};

fn scrambled() -> PuzzleState<DEFAULT_PUZZLE_SIZE> {
    PuzzleState::<DEFAULT_PUZZLE_SIZE>::new([
        [None, Some(2), Some(3), Some(4)],
        [Some(1), Some(6), Some(7), Some(8)],
        [Some(5), Some(10), Some(11), Some(12)],
        [Some(9), Some(13), Some(14), Some(15)],
    ])
    .unwrap()
}

fn apply(state: PuzzleState<DEFAULT_PUZZLE_SIZE>, steps: &[Direction]) -> PuzzleState<DEFAULT_PUZZLE_SIZE> {
    let mut current = state;
    for direction in steps {
        current = current.create_neighbour_move_state(*direction);
    }
    current
}

#[test]
fn solve_on_solved_works() {
    let manhattan_distance = ManhattanDistance::new();

    let puzzle_state = PuzzleState::<DEFAULT_PUZZLE_SIZE>::new([
        [Some(1), Some(2), Some(3), Some(4)],
        [Some(5), Some(6), Some(7), Some(8)],
        [Some(9), Some(10), Some(11), Some(12)],
        [Some(13), Some(14), Some(15), None],
    ])
    .unwrap();

    let solution = solve_with_heuristic(puzzle_state, &manhattan_distance);

    assert!(solution.is_some());
    assert_eq!(Vec::<Direction>::new(), solution.unwrap().steps());
}

#[test]
fn solve_on_solved_visits_one_state() {
    let manhattan_distance = ManhattanDistance::new();
    let puzzle_state = apply(scrambled(), &[]);
    let goal = apply(
        puzzle_state,
        &[
            Direction::Down,
            Direction::Down,
            Direction::Down,
            Direction::Right,
            Direction::Right,
            Direction::Right,
        ],
    );

    let solution = solve_with_heuristic(goal, &manhattan_distance).unwrap();

    assert!(solution.steps().is_empty());
    assert_eq!(1, solution.no_of_visited_states());
}

#[test]
fn solve_on_unsolvable() {
    let manhattan_distance = ManhattanDistance::new();

    let puzzle_state = PuzzleState::<DEFAULT_PUZZLE_SIZE>::new([
        [Some(1), Some(2), Some(4), Some(3)],
        [Some(5), Some(6), Some(7), Some(8)],
        [Some(9), Some(10), Some(11), Some(12)],
        [Some(13), Some(14), Some(15), None],
    ])
    .unwrap();

    let solution = solve_with_heuristic(puzzle_state, &manhattan_distance);

    assert!(solution.is_none());
}

#[test]
fn solving_with_manhattan_distance_works() {
    let manhattan_distance = ManhattanDistance::new();

    let puzzle_state = PuzzleState::<DEFAULT_PUZZLE_SIZE>::new([
        [Some(1), Some(2), Some(3), Some(4)],
        [Some(5), Some(6), Some(7), Some(8)],
        [Some(9), Some(10), Some(11), Some(12)],
        [Some(13), Some(14), None, Some(15)],
    ])
    .unwrap();

    let solution = solve_with_heuristic(puzzle_state, &manhattan_distance);

    assert!(solution.is_some());
    assert_eq!(vec![Direction::Right], solution.unwrap().steps());

    let solution = solve_with_heuristic(scrambled(), &manhattan_distance);

    assert!(solution.is_some());
    assert_eq!(
        vec![
            Direction::Down,
            Direction::Down,
            Direction::Down,
            Direction::Right,
            Direction::Right,
            Direction::Right
        ],
        solution.unwrap().steps()
    );
}

#[test]
fn solving_with_disjoint_databases_works() {
    let disjoint_databases = DisjointDatabases::create_fresh_instance();

    let puzzle_state = PuzzleState::<DEFAULT_PUZZLE_SIZE>::new([
        [Some(1), Some(2), Some(3), Some(4)],
        [Some(5), Some(6), Some(7), Some(8)],
        [Some(9), Some(10), Some(11), Some(12)],
        [Some(13), Some(14), None, Some(15)],
    ])
    .unwrap();

    let solution = solve_with_heuristic(puzzle_state, &disjoint_databases);

    assert!(solution.is_some());
    assert_eq!(vec![Direction::Right], solution.unwrap().steps());

    let solution = solve_with_heuristic(scrambled(), &disjoint_databases);

    assert!(solution.is_some());
    assert_eq!(
        vec![
            Direction::Down,
            Direction::Down,
            Direction::Down,
            Direction::Right,
            Direction::Right,
            Direction::Right
        ],
        solution.unwrap().steps()
    );
}

#[test]
fn unreachable_start_gives_none_under_databases() {
    let disjoint_databases = DisjointDatabases::create_fresh_instance();
    let puzzle_state = PuzzleState::<DEFAULT_PUZZLE_SIZE>::new([
        [Some(1), Some(2), Some(4), Some(3)],
        [Some(5), Some(6), Some(7), Some(8)],
        [Some(9), Some(10), Some(11), Some(12)],
        [Some(13), Some(14), Some(15), None],
    ])
    .unwrap();

    assert!(solve_with_heuristic(puzzle_state, &disjoint_databases).is_none());
}

#[test]
fn heuristics_are_below_solution_length() {
    let manhattan_distance = ManhattanDistance::new();
    let puzzle_state = scrambled();
    let solution = solve_with_heuristic(puzzle_state, &manhattan_distance).unwrap();

    assert!(puzzle_state.calculate_heuristic(&manhattan_distance) as usize <= solution.steps().len());
    assert_eq!(6, puzzle_state.calculate_heuristic(&manhattan_distance));
}

#[test]
fn random_state_is_solvable_and_solved() {
    let manhattan_distance = ManhattanDistance::new();
    let puzzle_state = generate_random_puzzle_state(12);

    assert!(puzzle_state.is_solvable());

    let solution = solve_with_heuristic(puzzle_state, &manhattan_distance).unwrap();

    assert!(solution.steps().len() <= 12);
    assert!(apply(puzzle_state, solution.steps()).is_solved());
}
