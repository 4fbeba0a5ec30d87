use puzzle::Direction;

#[test]
fn directions_match() {
    let mut sum_directions_movements = (0, 0);

    sum_directions_movements.0 += Direction::Up.as_coordinates().0;
    sum_directions_movements.1 += Direction::Up.as_coordinates().1;

    sum_directions_movements.0 += Direction::Down.as_coordinates().0;
    sum_directions_movements.1 += Direction::Down.as_coordinates().1;

    sum_directions_movements.0 += Direction::Left.as_coordinates().0;
    sum_directions_movements.1 += Direction::Left.as_coordinates().1;

    sum_directions_movements.0 += Direction::Right.as_coordinates().0;
    sum_directions_movements.1 += Direction::Right.as_coordinates().1;

    assert_eq!((0, 0), sum_directions_movements);
}

#[test]
fn opposite_directions_work() {
    let vertical_directions = Direction::Up;

    assert_eq!(Direction::Down, vertical_directions.opposite());
    assert_eq!(Direction::Up, vertical_directions.opposite().opposite());

    let horizontal_directions = Direction::Left;

    assert_eq!(Direction::Right, horizontal_directions.opposite());
    assert_eq!(Direction::Left, horizontal_directions.opposite().opposite());
}

#[test]
fn direction_offsets() {
    assert_eq!((-1, 0), Direction::Up.as_coordinates());
    assert_eq!((1, 0), Direction::Down.as_coordinates());
    assert_eq!((0, -1), Direction::Left.as_coordinates());
    assert_eq!((0, 1), Direction::Right.as_coordinates());
}
