use puzzle::astar_state::{AstarState, AstarStateError, LastDirections};
use puzzle::heuristics::dumb_heuristic::DumbHeuristic;
use puzzle::{Direction, PuzzleState};

const BIGGER_PUZZLE_SIZE: usize = 3;

#[test]
fn initial_state() {
    let puzzle_state = PuzzleState::<BIGGER_PUZZLE_SIZE>::new([
        [Some(1), Some(2), Some(3)],
        [Some(4), Some(5), Some(6)],
        [Some(7), Some(8), None],
    ])
    .unwrap();

    let expected_puzzle_state = puzzle_state.clone();

    let astar_state_result = AstarState::inital(puzzle_state, &DumbHeuristic);

    assert!(astar_state_result.is_ok());

    let astar_state = astar_state_result.unwrap();

    assert_eq!(36, astar_state.f_value());
    assert_eq!(None, astar_state.last_direction());
    assert_eq!(0, astar_state.distance_from_start());
    assert_eq!(astar_state.puzzle_state(), expected_puzzle_state);
}

#[test]
fn initial_state_unsolvable() {
    let puzzle_state = PuzzleState::<BIGGER_PUZZLE_SIZE>::new([
        [Some(1), Some(2), Some(3)],
        [Some(4), Some(5), Some(6)],
        [Some(8), Some(7), None],
    ])
    .unwrap();

    let astar_state_result = AstarState::inital(puzzle_state, &DumbHeuristic);

    assert!(matches!(
        astar_state_result,
        Err(AstarStateError::InitialStateNotSolvable)
    ));
}

#[test]
fn moved_to_neighbour() {
    let puzzle_state = PuzzleState::<BIGGER_PUZZLE_SIZE>::new([
        [Some(1), Some(2), Some(3)],
        [Some(4), Some(5), Some(6)],
        [Some(7), Some(8), None],
    ])
    .unwrap();

    let astar_state = AstarState::inital(puzzle_state, &DumbHeuristic).unwrap();
    let mut neighbours = astar_state.neighbours();

    let first_neighbour = neighbours.pop().unwrap();

    let (direction, puzzle_state) = first_neighbour.into_direction_and_puzzle_state();
    let moved = astar_state.moved_to_neighbour(direction, puzzle_state, &DumbHeuristic);

    assert_eq!(37, moved.f_value());
    assert_eq!(Some(Direction::Left), moved.last_direction());
    assert_eq!(1, moved.distance_from_start());

    let second_neighbour = neighbours.pop().unwrap();

    let (direction, puzzle_state) = second_neighbour.into_direction_and_puzzle_state();
    let moved = astar_state.moved_to_neighbour(direction, puzzle_state, &DumbHeuristic);

    assert_eq!(37, moved.f_value());
    assert_eq!(Some(Direction::Up), moved.last_direction());
    assert_eq!(1, moved.distance_from_start());
}

#[test]
fn create_route_works() {
    let astar_state = AstarState::from_parts(
        0,
        Some(Direction::Right),
        2,
        PuzzleState::new([
            [Some(1), Some(2), Some(3)],
            [Some(4), Some(5), Some(6)],
            [Some(7), Some(8), None],
        ])
        .unwrap(),
    );

    let mut last_directions = LastDirections::new();

    last_directions.insert(
        PuzzleState::new([
            [Some(1), Some(2), Some(3)],
            [Some(4), Some(5), Some(6)],
            [Some(7), None, Some(8)],
        ])
        .unwrap(),
        Some(Direction::Right),
    );

    last_directions.insert(
        PuzzleState::new([
            [Some(1), Some(2), Some(3)],
            [Some(4), Some(5), Some(6)],
            [None, Some(7), Some(8)],
        ])
        .unwrap(),
        None,
    );

    assert_eq!(
        vec![Direction::Right, Direction::Right],
        astar_state.create_route(&last_directions)
    );
}

#[test]
fn last_directions_lookup() {
    let state = PuzzleState::<BIGGER_PUZZLE_SIZE>::new([
        [Some(1), Some(2), Some(3)],
        [Some(4), Some(5), Some(6)],
        [Some(7), Some(8), None],
    ])
    .unwrap();
    let mut last_directions = LastDirections::new();

    assert_eq!(None, last_directions.get(&state));
    last_directions.insert(state, Some(Direction::Down));
    assert_eq!(Some(Some(Direction::Down)), last_directions.get(&state));
    assert_eq!(1, last_directions.len());
}
