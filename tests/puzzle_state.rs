use puzzle::puzzle_state::coordinates::BoardCoordinates;
use puzzle::puzzle_state::errors::{PuzzleStateCreationError, PuzzleStateParseError};
use puzzle::{Direction, PuzzleState};

const PUZZLE_SIZE: usize = 2;
const BIGGER_PUZZLE_SIZE: usize = 3;
const BIGGEST_PUZZLE_SIZE: usize = 4;

#[test]
fn readable_and_internal() {
    let readable_numbers = [[Some(1), Some(2)], [Some(3), None]];
    let internal_numbers = PuzzleState::<PUZZLE_SIZE>::numbers_from_readable(&readable_numbers);
    let readable_from_internal_numbers =
        PuzzleState::<PUZZLE_SIZE>::numbers_into_readable(internal_numbers);

    assert_eq!(readable_numbers, readable_from_internal_numbers);
    assert_eq!(
        0b00000_0000_0000_0000_0000_0000_0000_0000_0000_0000_0000_0000_1111_0010_0001_0000,
        internal_numbers
    );
}

#[test]
fn not_permutation_puzzle_state() {
    let puzzle_state = PuzzleState::<PUZZLE_SIZE>::new([[Some(1), Some(1)], [Some(2), None]]);

    assert!(matches!(
        puzzle_state,
        Err(PuzzleStateCreationError::NotPermutation)
    ));
}

#[test]
fn two_blanks_puzzle_state() {
    let puzzle_state = PuzzleState::<PUZZLE_SIZE>::new([[Some(1), Some(2)], [None, None]]);

    assert!(matches!(
        puzzle_state,
        Err(PuzzleStateCreationError::TwoBlanks)
    ));
}

#[test]
fn valid_puzzle_state_created() {
    let puzzle_state = PuzzleState::<PUZZLE_SIZE>::new([[Some(2), Some(1)], [None, Some(3)]]);

    assert!(puzzle_state.is_ok());
}

#[test]
fn blank_positioning_works() {
    let puzzle_state =
        PuzzleState::<PUZZLE_SIZE>::new([[Some(2), Some(1)], [None, Some(3)]]).unwrap();

    assert_eq!(BoardCoordinates::new(1, 0), puzzle_state.blank_position());

    let puzzle_state =
        PuzzleState::<PUZZLE_SIZE>::new([[Some(2), None], [Some(1), Some(3)]]).unwrap();

    assert_eq!(BoardCoordinates::new(0, 1), puzzle_state.blank_position());
}

#[test]
fn not_solved_state() {
    let puzzle_state =
        PuzzleState::<PUZZLE_SIZE>::new([[Some(2), Some(1)], [None, Some(3)]]).unwrap();

    assert!(!puzzle_state.is_solved());

    let puzzle_state =
        PuzzleState::<PUZZLE_SIZE>::new([[Some(2), Some(1)], [Some(3), None]]).unwrap();

    assert!(!puzzle_state.is_solved());
}

#[test]
fn solved_state() {
    let puzzle_state =
        PuzzleState::<PUZZLE_SIZE>::new([[Some(1), Some(2)], [Some(3), None]]).unwrap();

    assert!(puzzle_state.is_solved());
}

#[test]
fn solvable_state() {
    let puzzle_state =
        PuzzleState::<PUZZLE_SIZE>::new([[Some(1), Some(2)], [Some(3), None]]).unwrap();

    assert!(puzzle_state.is_solvable());

    let puzzle_state =
        PuzzleState::<PUZZLE_SIZE>::new([[Some(3), Some(1)], [Some(2), None]]).unwrap();

    assert!(puzzle_state.is_solvable());

    let puzzle_state =
        PuzzleState::<PUZZLE_SIZE>::new([[Some(3), Some(1)], [None, Some(2)]]).unwrap();

    assert!(puzzle_state.is_solvable());

    let puzzle_state = PuzzleState::<BIGGEST_PUZZLE_SIZE>::new([
        [Some(1), Some(2), Some(3), Some(4)],
        [Some(5), Some(6), Some(7), Some(8)],
        [Some(9), Some(10), Some(11), Some(12)],
        [Some(13), Some(14), None, Some(15)],
    ])
    .unwrap();

    assert!(puzzle_state.is_solvable());
}

#[test]
fn not_solvable_state() {
    let puzzle_state =
        PuzzleState::<PUZZLE_SIZE>::new([[Some(2), Some(1)], [Some(3), None]]).unwrap();

    assert!(!puzzle_state.is_solvable());

    let puzzle_state =
        PuzzleState::<PUZZLE_SIZE>::new([[Some(2), Some(1)], [None, Some(3)]]).unwrap();

    assert!(!puzzle_state.is_solvable());
}

#[test]
fn upper_neighbour() {
    let puzzle_state =
        PuzzleState::<PUZZLE_SIZE>::new([[Some(3), Some(1)], [None, Some(2)]]).unwrap();

    let expected_obtained_state =
        PuzzleState::<PUZZLE_SIZE>::new([[None, Some(1)], [Some(3), Some(2)]]).unwrap();

    let obtained_state = puzzle_state.create_neighbour_move_state(Direction::Up);

    assert_eq!(expected_obtained_state, obtained_state);
}

#[test]
fn bottom_neighbour() {
    let puzzle_state =
        PuzzleState::<PUZZLE_SIZE>::new([[None, Some(1)], [Some(3), Some(2)]]).unwrap();

    let expected_obtained_state =
        PuzzleState::<PUZZLE_SIZE>::new([[Some(3), Some(1)], [None, Some(2)]]).unwrap();

    let obtained_state = puzzle_state.create_neighbour_move_state(Direction::Down);

    assert_eq!(expected_obtained_state, obtained_state);
}

#[test]
fn left_neighbour() {
    let puzzle_state =
        PuzzleState::<PUZZLE_SIZE>::new([[Some(1), None], [Some(3), Some(2)]]).unwrap();

    let expected_obtained_state =
        PuzzleState::<PUZZLE_SIZE>::new([[None, Some(1)], [Some(3), Some(2)]]).unwrap();

    let obtained_state = puzzle_state.create_neighbour_move_state(Direction::Left);

    assert_eq!(expected_obtained_state, obtained_state);
}

#[test]
fn right_neighbour() {
    let puzzle_state =
        PuzzleState::<PUZZLE_SIZE>::new([[None, Some(1)], [Some(3), Some(2)]]).unwrap();

    let expected_obtained_state =
        PuzzleState::<PUZZLE_SIZE>::new([[Some(1), None], [Some(3), Some(2)]]).unwrap();

    let obtained_state = puzzle_state.create_neighbour_move_state(Direction::Right);

    assert_eq!(expected_obtained_state, obtained_state);
}

#[test]
fn two_neighbours() {
    let puzzle_state = PuzzleState::<BIGGER_PUZZLE_SIZE>::new([
        [None, Some(1), Some(2)],
        [Some(3), Some(4), Some(5)],
        [Some(6), Some(7), Some(8)],
    ])
    .unwrap();

    let neighbours = puzzle_state.neighbours();

    assert_eq!(2, neighbours.len());
}

#[test]
fn three_neighbours() {
    let puzzle_state = PuzzleState::<BIGGER_PUZZLE_SIZE>::new([
        [Some(1), None, Some(2)],
        [Some(3), Some(4), Some(5)],
        [Some(6), Some(7), Some(8)],
    ])
    .unwrap();

    let neighbours = puzzle_state.neighbours();

    assert_eq!(3, neighbours.len());
}

#[test]
fn four_neighbours() {
    let puzzle_state = PuzzleState::<BIGGER_PUZZLE_SIZE>::new([
        [Some(1), Some(4), Some(2)],
        [Some(3), None, Some(5)],
        [Some(6), Some(7), Some(8)],
    ])
    .unwrap();

    let neighbours = puzzle_state.neighbours();

    assert_eq!(4, neighbours.len());
}

#[test]
fn neighbours_in_direction_order() {
    let puzzle_state = PuzzleState::<BIGGER_PUZZLE_SIZE>::new([
        [Some(1), Some(4), Some(2)],
        [Some(3), None, Some(5)],
        [Some(6), Some(7), Some(8)],
    ])
    .unwrap();

    let directions: Vec<Direction> = puzzle_state
        .neighbours()
        .into_iter()
        .map(|m| m.into_direction_and_puzzle_state().0)
        .collect();

    assert_eq!(
        vec![Direction::Up, Direction::Down, Direction::Left, Direction::Right],
        directions
    );
}

#[test]
fn parse_succesfull() {
    let puzzle_state_str = "[1, 4, 2, 3, , 5, 6, 7, 8]";
    let expected_numbers = [
        [Some(1), Some(4), Some(2)],
        [Some(3), None, Some(5)],
        [Some(6), Some(7), Some(8)],
    ];

    let puzzle_state_parse_result = puzzle_state_str.parse::<PuzzleState<BIGGER_PUZZLE_SIZE>>();

    assert!(puzzle_state_parse_result.is_ok());

    let puzzle_state = puzzle_state_parse_result.unwrap();

    assert_eq!(expected_numbers, puzzle_state.readable_numbers());
}

#[test]
fn parse_no_brackets() {
    let puzzle_state_str = "[1, 4, 2, 3, , 5, 6, 7, 8";
    let puzzle_state_parse_result = puzzle_state_str.parse::<PuzzleState<BIGGER_PUZZLE_SIZE>>();

    assert!(matches!(
        puzzle_state_parse_result,
        Err(PuzzleStateParseError::NoBrackets)
    ));

    let puzzle_state_str = "1, 4, 2, 3, , 5, 6, 7, 8]";
    let puzzle_state_parse_result = puzzle_state_str.parse::<PuzzleState<BIGGER_PUZZLE_SIZE>>();

    assert!(matches!(
        puzzle_state_parse_result,
        Err(PuzzleStateParseError::NoBrackets)
    ));

    let puzzle_state_str = "1, 4, 2, 3, , 5, 6, 7, 8";
    let puzzle_state_parse_result = puzzle_state_str.parse::<PuzzleState<BIGGER_PUZZLE_SIZE>>();

    assert!(matches!(
        puzzle_state_parse_result,
        Err(PuzzleStateParseError::NoBrackets)
    ));
}

#[test]
fn parse_not_enough_numbers() {
    let puzzle_state_str = "[1, 4, 2, 3, , 5, 6, 7]";
    let puzzle_state_parse_result = puzzle_state_str.parse::<PuzzleState<BIGGER_PUZZLE_SIZE>>();

    assert!(matches!(
        puzzle_state_parse_result,
        Err(PuzzleStateParseError::NotEnoughNumbers)
    ));
}

#[test]
fn parse_too_many_numbers() {
    let puzzle_state_str = "[1, 4, 2, 3, , 5, 6, 7, 8, 9]";
    let puzzle_state_parse_result = puzzle_state_str.parse::<PuzzleState<BIGGER_PUZZLE_SIZE>>();

    assert!(matches!(
        puzzle_state_parse_result,
        Err(PuzzleStateParseError::TooManyNumbers)
    ));
}

#[test]
fn parse_number_parse_error() {
    let puzzle_state_str = "[1, 4, 2, 3, , 5, 6, 7, a]";
    let puzzle_state_parse_result = puzzle_state_str.parse::<PuzzleState<BIGGER_PUZZLE_SIZE>>();

    assert!(matches!(
        puzzle_state_parse_result,
        Err(PuzzleStateParseError::NumberParseError)
    ));
}

#[test]
fn parse_reports_board_faults() {
    let result = "[1, 1, 2, 3, , 5, 6, 7, 8]".parse::<PuzzleState<BIGGER_PUZZLE_SIZE>>();
    assert!(matches!(result, Err(PuzzleStateParseError::NotPermutation)));

    let result = "[1, , 2, 3, , 5, 6, 7, 8]".parse::<PuzzleState<BIGGER_PUZZLE_SIZE>>();
    assert!(matches!(result, Err(PuzzleStateParseError::TwoBlanks)));
}

#[test]
fn parse_closing_bracket_first() {
    let result = "]1, 4, 2, 3, , 5, 6, 7, 8[".parse::<PuzzleState<BIGGER_PUZZLE_SIZE>>();
    assert!(matches!(result, Err(PuzzleStateParseError::NoBrackets)));
}

#[test]
fn parse_number_too_large() {
    let result = "[1, 4, 2, 3, , 5, 6, 7, 256]".parse::<PuzzleState<BIGGER_PUZZLE_SIZE>>();
    assert!(matches!(result, Err(PuzzleStateParseError::NumberParseError)));
}

#[test]
fn puzzle_state_to_string() {
    let puzzle_state_str = "[1, 4, 2, 3, , 5, 6, 7, 8]";
    let puzzle_state: PuzzleState<BIGGER_PUZZLE_SIZE> = puzzle_state_str.parse().unwrap();
    let puzzle_state_str = puzzle_state.to_string();

    assert_eq!("[1, 4, 2, 3, , 5, 6, 7, 8]", &puzzle_state_str);
}

#[test]
fn text_round_trip_fifteen() {
    let text = "[1, 2, 3, 4, 5, 6, 7, 8, 9, 10, 11, 12, 13, 14, , 15]";
    let puzzle_state: PuzzleState<BIGGEST_PUZZLE_SIZE> = text.parse().unwrap();

    assert_eq!(text, puzzle_state.to_string());
}

#[test]
fn readable_round_trip_fifteen() {
    let numbers = [
        [None, Some(2), Some(3), Some(4)],
        [Some(1), Some(6), Some(7), Some(8)],
        [Some(5), Some(10), Some(11), Some(12)],
        [Some(9), Some(13), Some(14), Some(15)],
    ];
    let puzzle_state = PuzzleState::<BIGGEST_PUZZLE_SIZE>::new(numbers).unwrap();

    assert_eq!(numbers, puzzle_state.readable_numbers());
}
