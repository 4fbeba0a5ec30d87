//! Positions of a group's tiles, packed into one key for database lookup.
use vstd::prelude::*;

use super::{DATABASE_SIZE, PUZZLE_SIZE};
use crate::puzzle_state::coordinates::BoardCoordinates;
use crate::puzzle_state::pow16;

verus! {

/// Width in bits of one packed position.
const COORD_WIDTH: usize = 4;

/// Row-major index of a cell of the 4x4 board.
pub open spec fn board_index(c: (int, int)) -> int {
    c.0 * 4 + c.1
}

/// The key of the first `count` positions of `cs`, four bits each, the first lowest.
pub open spec fn combination_code(cs: Seq<(int, int)>, count: int) -> int
    decreases count,
{
    if count <= 0 {
        0
    } else {
        combination_code(cs, count - 1) + board_index(cs[count - 1]) * pow16((count - 1) as nat)
    }
}

/// Number of positions that a key holds.
pub open spec fn tracked_count(ignore_last: bool) -> int {
    if ignore_last {
        3
    } else {
        4
    }
}

/// Views of an array of coordinates.
pub open spec fn coordinates_view(cs: [BoardCoordinates<PUZZLE_SIZE>; DATABASE_SIZE]) -> Seq<(int, int)> {
    cs@.map_values(|c: BoardCoordinates<PUZZLE_SIZE>| c@)
}

proof fn lemma_shift_nibble(x: u16, k: u16, shift: u16)
    requires
        x < 16,
        k < 4,
        shift == 4 * k,
    ensures
        (x << shift) as int == x * pow16(k as nat),
{
    reveal_with_fuel(pow16, 4);
    vstd::arithmetic::power2::lemma2_to64();
    assert(pow16(1) == 16 && pow16(2) == 256 && pow16(3) == 4096);
    assert(x * vstd::arithmetic::power2::pow2(shift as nat) <= u16::MAX) by (nonlinear_arith)
        requires
            x < 16,
            vstd::arithmetic::power2::pow2(shift as nat) <= 4096;
    vstd::bits::lemma_u16_shl_is_mul(x, shift);
}

/// A key of at most four positions on the board fits in that many digits of base 16.
pub proof fn lemma_code_bound(a: Seq<(int, int)>, count: int)
    requires
        0 <= count <= 4,
        forall|k: int| 0 <= k < count ==> crate::puzzle_state::on_board(4, (#[trigger] a[k]).0, a[k].1),
    ensures
        0 <= combination_code(a, count) < crate::puzzle_state::pow16(count as nat),
    decreases count,
{
    reveal_with_fuel(crate::puzzle_state::pow16, 5);
    if count > 0 {
        lemma_code_bound(a, count - 1);
        let p = crate::puzzle_state::pow16((count - 1) as nat);
        let x = board_index(a[count - 1]);
        assert(0 <= x < 16);
        assert(combination_code(a, count - 1) + x * p < 16 * p) by (nonlinear_arith)
            requires combination_code(a, count - 1) < p, 0 <= x < 16, p > 0;
        assert(x * p >= 0) by (nonlinear_arith) requires x >= 0, p > 0;
    }
}

/// Positions of a group's tiles as row-major indices, four bits each.
#[derive(Debug, PartialEq, Eq, Structural, Hash, Clone, Copy)]
pub struct Combination {
    positions: u16,
}

impl Combination {
    /// The packed positions.
    pub closed spec fn positions_spec(&self) -> u16 {
        self.positions
    }

    /// The packed positions.
    pub fn positions(&self) -> (r: u16)
        ensures
            r == self.positions_spec(),
    {
        self.positions
    }

    /// Packs the positions of a group's tiles; with `ignore_last` the last one is left out.
    pub fn from_readable(coordinates: [BoardCoordinates<PUZZLE_SIZE>; DATABASE_SIZE], ignore_last: bool) -> (r: Self)
        requires
            forall|i: int| 0 <= i < DATABASE_SIZE ==> (#[trigger] coordinates@[i]).wf(),
        ensures
            r.positions_spec() as int == combination_code(coordinates_view(coordinates), tracked_count(ignore_last)),
    {
        let ghost cs = coordinates_view(coordinates);
        let mut positions: u16 = 0;
        let mut coord_index: usize = 0;
        let count: usize = if ignore_last { DATABASE_SIZE - 1 } else { DATABASE_SIZE };
        while coord_index < count
            invariant
                count == tracked_count(ignore_last),
                coord_index <= count,
                cs == coordinates_view(coordinates),
                forall|i: int| 0 <= i < DATABASE_SIZE ==> (#[trigger] coordinates@[i]).wf(),
                positions as int == combination_code(cs, coord_index as int),
                (positions as int) < pow16(coord_index as nat),
            decreases count - coord_index,
        {
            let (row, column) = coordinates[coord_index].as_tuple();
            let coord_index_on_board = (row * (PUZZLE_SIZE as u8)) + column;
            proof {
                assert(cs[coord_index as int] == coordinates@[coord_index as int]@);
                lemma_shift_nibble(coord_index_on_board as u16, coord_index as u16, (COORD_WIDTH * coord_index) as u16);
                reveal_with_fuel(pow16, 4);
                assert(pow16((coord_index + 1) as nat) == 16 * pow16(coord_index as nat));
                assert(pow16(coord_index as nat) <= 4096);
                assert(positions + coord_index_on_board * pow16(coord_index as nat) < pow16((coord_index + 1) as nat))
                    by (nonlinear_arith)
                    requires
                        positions < pow16(coord_index as nat),
                        coord_index_on_board < 16,
                        pow16((coord_index + 1) as nat) == 16 * pow16(coord_index as nat);
            }
            positions = positions + ((coord_index_on_board as u16) << ((COORD_WIDTH * coord_index) as u16));
            coord_index += 1;
        }
        Combination { positions }
    }
}

} // verus!
