//! Errors reported when building or parsing a board.
use vstd::prelude::*;

verus! {

/// Errors that can occur when creating a [PuzzleState](super::PuzzleState).
#[derive(Debug, PartialEq, Eq, Structural, Clone, Copy)]
pub enum PuzzleStateCreationError {
    /// The numbers are not a valid permutation.
    NotPermutation,
    /// There is more than one blank.
    TwoBlanks,
}

/// Errors that can occur when parsing a [PuzzleState](super::PuzzleState).
#[derive(Debug, PartialEq, Eq, Structural, Clone, Copy)]
pub enum PuzzleStateParseError {
    /// No brackets around the permutation.
    NoBrackets,
    /// Not enough numbers.
    NotEnoughNumbers,
    /// Too many numbers.
    TooManyNumbers,
    /// A number could not be read.
    NumberParseError,
    /// The numbers are not a valid permutation.
    NotPermutation,
    /// There is more than one blank.
    TwoBlanks,
}

impl From<PuzzleStateCreationError> for PuzzleStateParseError {
    fn from(value: PuzzleStateCreationError) -> (r: Self) {
        match value {
            PuzzleStateCreationError::TwoBlanks => PuzzleStateParseError::TwoBlanks,
            PuzzleStateCreationError::NotPermutation => PuzzleStateParseError::NotPermutation,
        }
    }
}

impl vstd::std_specs::convert::FromSpecImpl<PuzzleStateCreationError> for PuzzleStateParseError {
    open spec fn obeys_from_spec() -> bool {
        true
    }

    open spec fn from_spec(v: PuzzleStateCreationError) -> Self {
        match v {
            PuzzleStateCreationError::TwoBlanks => PuzzleStateParseError::TwoBlanks,
            PuzzleStateCreationError::NotPermutation => PuzzleStateParseError::NotPermutation,
        }
    }
}

} // verus!
