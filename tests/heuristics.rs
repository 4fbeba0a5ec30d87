use puzzle::heuristics::dumb_heuristic::DumbHeuristic;
use puzzle::heuristics::ManhattanDistance;
use puzzle::PuzzleState;

const BIGGER_PUZZLE_SIZE: usize = 3;

#[test]
fn dumb_heuristic_heuristic_works() {
    let puzzle_state = PuzzleState::<BIGGER_PUZZLE_SIZE>::new([
        [Some(1), Some(4), Some(2)],
        [Some(3), None, Some(5)],
        [Some(6), Some(7), Some(8)],
    ])
    .unwrap();

    let heuristic_value = puzzle_state.calculate_heuristic(&DumbHeuristic);

    assert_eq!((1..=8).sum::<u8>(), heuristic_value);
}

#[test]
fn manhattan_distance_heuristic_works() {
    let manhattan_distance = ManhattanDistance::new();

    let puzzle_state = PuzzleState::<BIGGER_PUZZLE_SIZE>::new([
        [Some(1), Some(4), Some(2)],
        [Some(3), None, Some(5)],
        [Some(6), Some(7), Some(8)],
    ])
    .unwrap();

    let heuristic_value = puzzle_state.calculate_heuristic(&manhattan_distance);

    assert_eq!(12, heuristic_value);

    let puzzle_state = PuzzleState::<BIGGER_PUZZLE_SIZE>::new([
        [Some(1), Some(4), Some(2)],
        [Some(6), None, Some(5)],
        [Some(7), Some(3), Some(8)],
    ])
    .unwrap();

    let heuristic_value = puzzle_state.calculate_heuristic(&manhattan_distance);

    assert_eq!(10, heuristic_value);
}

#[test]
fn manhattan_distance_zero_at_goal() {
    let manhattan_distance = ManhattanDistance::new();
    let puzzle_state = PuzzleState::<4>::new([
        [Some(1), Some(2), Some(3), Some(4)],
        [Some(5), Some(6), Some(7), Some(8)],
        [Some(9), Some(10), Some(11), Some(12)],
        [Some(13), Some(14), Some(15), None],
    ])
    .unwrap();

    assert_eq!(0, puzzle_state.calculate_heuristic(&manhattan_distance));
}

#[test]
fn manhattan_distance_of_one_move() {
    let manhattan_distance = ManhattanDistance::new();
    let puzzle_state = PuzzleState::<4>::new([
        [Some(1), Some(2), Some(3), Some(4)],
        [Some(5), Some(6), Some(7), Some(8)],
        [Some(9), Some(10), Some(11), Some(12)],
        [Some(13), Some(14), None, Some(15)],
    ])
    .unwrap();

    assert_eq!(1, puzzle_state.calculate_heuristic(&manhattan_distance));
}
