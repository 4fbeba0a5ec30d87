use puzzle::puzzle_state::parity_check_permutation::ParityCheckPermutation;

#[test]
fn correct_permutation_from_numbers() {
    let numbers = [[Some(1), Some(2)], [Some(3), None]];

    let parity_check_permutation = ParityCheckPermutation::from_numbers(&numbers);

    assert_eq!(&[1u8, 2, 3, 4][..], parity_check_permutation.permutation());

    let numbers = [[Some(2), Some(1)], [Some(3), None]];

    let parity_check_permutation = ParityCheckPermutation::from_numbers(&numbers);

    assert_eq!(&[2u8, 1, 3, 4][..], parity_check_permutation.permutation());
}

#[test]
fn correct_evenness_of_permutations() {
    let numbers = [[Some(1), Some(2)], [Some(3), None]];

    let parity_check_permutation = ParityCheckPermutation::from_numbers(&numbers);

    assert!(parity_check_permutation.is_even());

    let numbers = [[Some(2), Some(1)], [Some(3), None]];

    let parity_check_permutation = ParityCheckPermutation::from_numbers(&numbers);

    assert!(!parity_check_permutation.is_even());

    let numbers = [
        [Some(1), Some(2), Some(4), Some(3)],
        [Some(5), Some(6), Some(7), Some(8)],
        [Some(9), Some(10), Some(11), Some(12)],
        [Some(13), Some(14), None, Some(15)],
    ];

    let parity_check_permutation = ParityCheckPermutation::from_numbers(&numbers);

    assert!(parity_check_permutation.is_even());
}

#[test]
fn three_cycle_is_even() {
    let numbers = [[Some(2), Some(3)], [Some(1), None]];

    let parity_check_permutation = ParityCheckPermutation::from_numbers(&numbers);

    assert!(parity_check_permutation.is_even());
}
