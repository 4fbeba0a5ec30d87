use puzzle::heuristics::disjoint_databases::bfs_state::BFSState;
use puzzle::heuristics::disjoint_databases::board_state::BoardState;
use puzzle::heuristics::disjoint_databases::combination::Combination;
use puzzle::heuristics::disjoint_databases::database::Database;
use puzzle::heuristics::disjoint_databases::{DisjointDatabases, PUZZLE_SIZE};
use puzzle::puzzle_state::coordinates::BoardCoordinates;
use puzzle::{Direction, PuzzleState};

fn row_coordinates(row: u8) -> [BoardCoordinates<PUZZLE_SIZE>; 4] {
    [
        BoardCoordinates::new(row, 0),
        BoardCoordinates::new(row, 1),
        BoardCoordinates::new(row, 2),
        BoardCoordinates::new(row, 3),
    ]
}

#[test]
fn create_from_readable() {
    let coordinates = [
        BoardCoordinates::new(0, 0),
        BoardCoordinates::new(1, 1),
        BoardCoordinates::new(2, 2),
        BoardCoordinates::new(3, 3),
    ];

    let combination = Combination::from_readable(coordinates, false);

    assert_eq!(0b1111_1010_0101_0000, combination.positions());
}

#[test]
fn create_from_readable_ignore_last() {
    let coordinates = [
        BoardCoordinates::new(0, 0),
        BoardCoordinates::new(1, 1),
        BoardCoordinates::new(2, 2),
        BoardCoordinates::new(3, 3),
    ];

    let combination = Combination::from_readable(coordinates, true);

    assert_eq!(0b0000_1010_0101_0000, combination.positions());
}

#[test]
fn neighbour_without_move() {
    let board_state = BoardState::new(
        row_coordinates(1),
        BoardCoordinates::new((PUZZLE_SIZE - 1) as u8, (PUZZLE_SIZE - 1) as u8),
        false,
    );

    let neighbour = board_state.create_neighbour(Direction::Up);

    let expected_neighbour_board_state = BoardState::new(
        row_coordinates(1),
        BoardCoordinates::new((PUZZLE_SIZE - 2) as u8, (PUZZLE_SIZE - 1) as u8),
        false,
    );

    assert_eq!(expected_neighbour_board_state, neighbour.board_state());
    assert!(!neighbour.moved_element());
}

#[test]
fn neighbour_with_move() {
    let board_state = BoardState::new(row_coordinates(1), BoardCoordinates::new(2, 3), false);

    let neighbour = board_state.create_neighbour(Direction::Up);

    let expected_neighbour_board_state = BoardState::new(
        [
            BoardCoordinates::new(1, 0),
            BoardCoordinates::new(1, 1),
            BoardCoordinates::new(1, 2),
            BoardCoordinates::new(2, 3),
        ],
        BoardCoordinates::new(1, 3),
        false,
    );

    assert_eq!(expected_neighbour_board_state, neighbour.board_state());
    assert!(neighbour.moved_element());
}

#[test]
fn neighbour_with_ignore_last() {
    let board_state = BoardState::new(row_coordinates(1), BoardCoordinates::new(2, 3), true);

    let neighbour = board_state.create_neighbour(Direction::Up);

    let expected_neighbour_board_state =
        BoardState::new(row_coordinates(1), BoardCoordinates::new(1, 3), true);

    assert_eq!(expected_neighbour_board_state, neighbour.board_state());
    assert!(!neighbour.moved_element());
}

#[test]
fn neighbours_generated() {
    let board_state = BoardState::new(row_coordinates(1), BoardCoordinates::new(2, 3), false);

    let neighbours = board_state.neighbours();

    assert_eq!(3, neighbours.len());

    let board_state = BoardState::new(row_coordinates(1), BoardCoordinates::new(3, 3), false);

    let neighbours = board_state.neighbours();

    assert_eq!(2, neighbours.len());

    let board_state = BoardState::new(row_coordinates(1), BoardCoordinates::new(2, 2), false);

    let neighbours = board_state.neighbours();

    assert_eq!(4, neighbours.len());
}

#[test]
fn initial_state_works() {
    let initial = BFSState::initial(0, false);

    assert_eq!(
        BoardState::new(
            row_coordinates(0),
            BoardCoordinates::new((PUZZLE_SIZE - 1) as u8, (PUZZLE_SIZE - 1) as u8),
            false,
        ),
        initial.board_state()
    );

    assert_eq!(0, initial.element_shifts());

    let initial = BFSState::initial(4, false);

    assert_eq!(
        BoardState::new(
            row_coordinates(1),
            BoardCoordinates::new((PUZZLE_SIZE - 1) as u8, (PUZZLE_SIZE - 1) as u8),
            false
        ),
        initial.board_state()
    );

    assert_eq!(0, initial.element_shifts());
}

#[test]
fn neighbours_work() {
    let initial = BFSState::initial(8, false);
    let neighbours = initial.neighbours();

    let sum_moved: u8 = neighbours
        .iter()
        .map(|neighbour| neighbour.element_shifts())
        .sum();

    assert_eq!(1, sum_moved);

    let initial = BFSState::initial(4, false);
    let neighbours = initial.neighbours();

    let sum_moved: u8 = neighbours
        .iter()
        .map(|neighbour| neighbour.element_shifts())
        .sum();

    assert_eq!(0, sum_moved);
}

#[test]
fn database_creation_works() {
    let database = Database::new(0, false);

    assert_eq!(16 * 15 * 14 * 13, database.len());
}

#[test]
fn database_creation_ignore_last_works() {
    let database = Database::new(12, true);

    assert_eq!(16 * 15 * 14, database.len());
}

#[test]
fn database_solved_arrangement_is_zero() {
    let database = Database::new(4, false);
    let combination = Combination::from_readable(row_coordinates(1), false);

    assert_eq!(Some(&0), database.get_distance(&combination));
}

#[test]
fn database_construction_is_deterministic() {
    let first = Database::new(0, false);
    let second = Database::new(0, false);

    assert_eq!(first.len(), second.len());
    assert!(first.distances() == second.distances());
}

#[test]
fn databases_created_correctly() {
    let disjoint_databases = DisjointDatabases::create_fresh_instance();

    assert_eq!(4, disjoint_databases.databases().len());

    assert!(disjoint_databases.databases()[0]
        .get_distance(&Combination::from_readable(row_coordinates(0), false))
        .is_some());

    assert!(disjoint_databases.databases()[1]
        .get_distance(&Combination::from_readable(row_coordinates(1), false))
        .is_some());

    assert!(disjoint_databases.databases()[2]
        .get_distance(&Combination::from_readable(row_coordinates(2), false))
        .is_some());

    assert!(disjoint_databases.databases()[3]
        .get_distance(&Combination::from_readable(
            [
                BoardCoordinates::<PUZZLE_SIZE>::new(3, 0),
                BoardCoordinates::<PUZZLE_SIZE>::new(3, 1),
                BoardCoordinates::<PUZZLE_SIZE>::new(3, 2),
                BoardCoordinates::<PUZZLE_SIZE>::new(0, 0),
            ],
            true
        ))
        .is_some());
}

#[test]
fn fresh_databases_are_complete() {
    let disjoint_databases = DisjointDatabases::create_fresh_instance();

    assert!(disjoint_databases.is_complete());
}

#[test]
fn incomplete_database_is_detected() {
    let database = Database::from_distances(std::collections::HashMap::new());

    assert!(!database.is_complete(false));
    assert!(!DisjointDatabases::from_databases(Vec::new()).is_complete());
}

#[test]
fn mod_heuristic_works() {
    let disjoint_databases = DisjointDatabases::create_fresh_instance();

    let puzzle_state = PuzzleState::<PUZZLE_SIZE>::new([
        [Some(1), Some(2), Some(3), Some(4)],
        [Some(5), Some(6), Some(7), Some(8)],
        [Some(9), Some(10), Some(11), Some(12)],
        [Some(13), Some(14), Some(15), None],
    ])
    .unwrap();

    let heuristic_value = puzzle_state.calculate_heuristic(&disjoint_databases);

    assert_eq!(0, heuristic_value);

    let puzzle_state = PuzzleState::<PUZZLE_SIZE>::new([
        [Some(1), Some(2), Some(3), Some(4)],
        [Some(5), Some(6), None, Some(8)],
        [Some(9), Some(10), Some(7), Some(12)],
        [Some(13), Some(14), Some(11), Some(15)],
    ])
    .unwrap();

    let heuristic_value = puzzle_state.calculate_heuristic(&disjoint_databases);

    assert_eq!(3, heuristic_value);
}
