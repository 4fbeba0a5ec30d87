use puzzle::puzzle_state::coordinates::BoardCoordinates;

const PUZZLE_SIZE: usize = 4;

#[test]
fn coordinates_on_board() {
    let _coordinates = BoardCoordinates::<PUZZLE_SIZE>::new(3, 2);
}

#[test]
fn correct_manhattan_distance() {
    let first_coordinates = BoardCoordinates::<PUZZLE_SIZE>::new(1, 3);
    let second_coordinates = BoardCoordinates::<PUZZLE_SIZE>::new(3, 2);
    let manhattan_distance = first_coordinates.manhattan_distance(&second_coordinates);
    let reverse_manhattan_distance = second_coordinates.manhattan_distance(&first_coordinates);

    assert_eq!(3, manhattan_distance);
    assert_eq!(manhattan_distance, reverse_manhattan_distance);
}

#[test]
fn correct_blank_manhattan_distance() {
    let coordinates = BoardCoordinates::<PUZZLE_SIZE>::new(1, 2);
    let blank_manhattan_distance = coordinates.blank_manhattan_distance();

    assert_eq!(3, blank_manhattan_distance);
}

#[test]
fn at_upper_edge() {
    let coordinates = BoardCoordinates::<PUZZLE_SIZE>::new(0, 1);
    assert!(coordinates.at_upper_edge());
}

#[test]
fn not_at_upper_edge() {
    let coordinates = BoardCoordinates::<PUZZLE_SIZE>::new(1, 2);
    assert!(!coordinates.at_upper_edge());
}

#[test]
fn at_bottom_edge() {
    let coordinates = BoardCoordinates::<PUZZLE_SIZE>::new((PUZZLE_SIZE - 1) as u8, 1);
    assert!(coordinates.at_bottom_edge());
}

#[test]
fn not_at_bottom_edge() {
    let coordinates = BoardCoordinates::<PUZZLE_SIZE>::new(1, 1);
    assert!(!coordinates.at_bottom_edge());
}

#[test]
fn at_left_edge() {
    let coordinates = BoardCoordinates::<PUZZLE_SIZE>::new(1, 0);
    assert!(coordinates.at_left_edge());
}

#[test]
fn not_at_left_edge() {
    let coordinates = BoardCoordinates::<PUZZLE_SIZE>::new(1, 1);
    assert!(!coordinates.at_left_edge());
}

#[test]
fn at_right_edge() {
    let coordinates =
        BoardCoordinates::<PUZZLE_SIZE>::new((PUZZLE_SIZE - 1) as u8, (PUZZLE_SIZE - 1) as u8);
    assert!(coordinates.at_right_edge());
}

#[test]
fn not_at_right_edge() {
    let coordinates = BoardCoordinates::<PUZZLE_SIZE>::new(1, 1);
    assert!(!coordinates.at_right_edge());
}

#[test]
fn as_tuple_gives_row_and_column() {
    let coordinates = BoardCoordinates::<PUZZLE_SIZE>::new(2, 3);
    assert_eq!((2, 3), coordinates.as_tuple());
}
