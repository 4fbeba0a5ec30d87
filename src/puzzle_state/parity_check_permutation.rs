//! Parity of the permutation that a board holds, which decides whether the solved
//! board can be reached from it.
use vstd::prelude::*;

use super::{grid_of, Grid};

verus! {

/// Number of entries of `p` from index `j` on that are smaller than `x`.
pub open spec fn count_smaller_from(p: Seq<u8>, j: int, x: u8) -> int
    decreases p.len() - j,
{
    if j < 0 || j >= p.len() {
        0
    } else {
        (if p[j] < x { 1int } else { 0int }) + count_smaller_from(p, j + 1, x)
    }
}

/// Number of inversions of `p` whose first index is `i` or later.
pub open spec fn inversions_from(p: Seq<u8>, i: int) -> int
    decreases p.len() - i,
{
    if i < 0 || i >= p.len() {
        0
    } else {
        count_smaller_from(p, i + 1, p[i]) + inversions_from(p, i + 1)
    }
}

/// Number of pairs of positions of `p` whose entries are out of order.
pub open spec fn inversions(p: Seq<u8>) -> int {
    inversions_from(p, 0)
}

/// The cells of a board of side `n` in row-major order, the blank written as `n * n`.
pub open spec fn permutation_of(g: Grid, n: int) -> Seq<u8> {
    Seq::new((n * n) as nat, |k: int| match g[k / n][k % n] {
        Some(v) => v,
        None => (n * n) as u8,
    })
}

/// `p` with the entries at `i` and `j` exchanged.
pub open spec fn swap_entries(p: Seq<u8>, i: int, j: int) -> Seq<u8> {
    p.update(i, p[j]).update(j, p[i])
}

/// No entry of `p` appears twice.
pub open spec fn distinct_entries(p: Seq<u8>) -> bool {
    forall|a: int, b: int| 0 <= a < p.len() && 0 <= b < p.len() && a != b ==> #[trigger] p[a] != #[trigger] p[b]
}

proof fn lemma_count_after_swap(p: Seq<u8>, k: int, j: int, x: u8)
    requires
        0 <= k,
        k + 1 < p.len(),
        0 <= j,
        j <= k || j >= k + 2,
    ensures
        count_smaller_from(swap_entries(p, k, k + 1), j, x) == count_smaller_from(p, j, x),
    decreases p.len() - j,
{
    let q = swap_entries(p, k, k + 1);
    if j < p.len() {
        if j == k {
            lemma_count_after_swap(p, k, k + 2, x);
            assert(count_smaller_from(q, k + 1, x) == (if q[k + 1] < x { 1int } else { 0int }) + count_smaller_from(q, k + 2, x));
            assert(count_smaller_from(p, k + 1, x) == (if p[k + 1] < x { 1int } else { 0int }) + count_smaller_from(p, k + 2, x));
        } else {
            lemma_count_after_swap(p, k, j + 1, x);
        }
    }
}

proof fn lemma_inversions_suffix(p: Seq<u8>, q: Seq<u8>, i: int)
    requires
        0 <= i,
        p.len() == q.len(),
        forall|a: int| i <= a < p.len() ==> #[trigger] p[a] == q[a],
    ensures
        inversions_from(p, i) == inversions_from(q, i),
    decreases p.len() - i,
{
    if i < p.len() {
        lemma_count_suffix(p, q, i + 1, p[i]);
        lemma_inversions_suffix(p, q, i + 1);
    }
}

proof fn lemma_count_suffix(p: Seq<u8>, q: Seq<u8>, j: int, x: u8)
    requires
        0 <= j,
        p.len() == q.len(),
        forall|a: int| j <= a < p.len() ==> #[trigger] p[a] == q[a],
    ensures
        count_smaller_from(p, j, x) == count_smaller_from(q, j, x),
    decreases p.len() - j,
{
    if j < p.len() {
        lemma_count_suffix(p, q, j + 1, x);
    }
}

proof fn lemma_inversions_adjacent_from(p: Seq<u8>, k: int, i: int)
    requires
        0 <= i <= k,
        k + 1 < p.len(),
        p[k] != p[k + 1],
    ensures
        inversions_from(swap_entries(p, k, k + 1), i) == inversions_from(p, i) + if p[k] < p[k + 1] { 1int } else { -1int },
    decreases k - i,
{
    let q = swap_entries(p, k, k + 1);
    if i == k {
        lemma_inversions_suffix(p, q, k + 2);
        assert(count_smaller_from(q, k + 1, q[k]) == (if q[k + 1] < q[k] { 1int } else { 0int }) + count_smaller_from(q, k + 2, q[k]));
        assert(count_smaller_from(p, k + 1, p[k]) == (if p[k + 1] < p[k] { 1int } else { 0int }) + count_smaller_from(p, k + 2, p[k]));
        lemma_count_suffix(p, q, k + 2, p[k]);
        lemma_count_suffix(p, q, k + 2, p[k + 1]);
        assert(inversions_from(q, k + 1) == count_smaller_from(q, k + 2, q[k + 1]) + inversions_from(q, k + 2));
        assert(inversions_from(p, k + 1) == count_smaller_from(p, k + 2, p[k + 1]) + inversions_from(p, k + 2));
    } else {
        lemma_inversions_adjacent_from(p, k, i + 1);
        lemma_count_after_swap(p, k, i + 1, p[i]);
    }
}

proof fn lemma_swap_distinct(p: Seq<u8>, i: int, j: int)
    requires
        distinct_entries(p),
        0 <= i < p.len(),
        0 <= j < p.len(),
    ensures
        distinct_entries(swap_entries(p, i, j)),
{
    let q = swap_entries(p, i, j);
    assert forall|a: int, b: int| 0 <= a < q.len() && 0 <= b < q.len() && a != b implies #[trigger] q[a] != #[trigger] q[b] by {
        let sa = if a == j { i } else if a == i { j } else { a };
        let sb = if b == j { i } else if b == i { j } else { b };
        assert(q[a] == p[sa]);
        assert(q[b] == p[sb]);
    }
}

/// Exchanging two entries of a permutation without repeated entries changes the parity
/// of its number of inversions.
pub proof fn lemma_swap_parity(p: Seq<u8>, i: int, d: int)
    requires
        distinct_entries(p),
        0 <= i,
        1 <= d,
        i + d < p.len(),
    ensures
        inversions(swap_entries(p, i, i + d)) % 2 != inversions(p) % 2,
    decreases d,
{
    if d == 1 {
        lemma_inversions_adjacent_from(p, i, 0);
    } else {
        let q1 = swap_entries(p, i, i + 1);
        lemma_swap_distinct(p, i, i + 1);
        lemma_inversions_adjacent_from(p, i, 0);
        let q2 = swap_entries(q1, i + 1, i + d);
        lemma_swap_parity(q1, i + 1, d - 1);
        lemma_swap_distinct(q1, i + 1, i + d);
        let q3 = swap_entries(q2, i, i + 1);
        lemma_inversions_adjacent_from(q2, i, 0);
        assert(q3 =~= swap_entries(p, i, i + d));
    }
}

proof fn lemma_count_smaller_bound(p: Seq<u8>, j: int, x: u8)
    requires
        0 <= j <= p.len(),
    ensures
        0 <= count_smaller_from(p, j, x) <= p.len() - j,
    decreases p.len() - j,
{
    if j < p.len() {
        lemma_count_smaller_bound(p, j + 1, x);
    }
}

proof fn lemma_inversions_bound(p: Seq<u8>, i: int)
    requires
        0 <= i <= p.len(),
    ensures
        0 <= inversions_from(p, i) <= (p.len() - i) * p.len(),
    decreases p.len() - i,
{
    if i < p.len() {
        lemma_count_smaller_bound(p, i + 1, p[i]);
        lemma_inversions_bound(p, i + 1);
        assert((p.len() - i) * p.len() == (p.len() - (i + 1)) * p.len() + p.len()) by (nonlinear_arith);
    }
}

/// The permutation that a board holds, used to check its parity.
#[derive(Debug)]
pub struct ParityCheckPermutation {
    permutation: Vec<u8>,
}

impl View for ParityCheckPermutation {
    type V = Seq<u8>;

    closed spec fn view(&self) -> Seq<u8> {
        self.permutation@
    }
}

impl ParityCheckPermutation {
    /// Collects the cells of `numbers` in row-major order, the blank written as `N * N`.
    pub fn from_numbers<const PUZZLE_SIZE: usize>(numbers: &[[Option<u8>; PUZZLE_SIZE]; PUZZLE_SIZE]) -> (r: Self)
        requires
            2 <= PUZZLE_SIZE <= 4,
        ensures
            r@ == permutation_of(grid_of(*numbers), PUZZLE_SIZE as int),
    {
        let ghost n = PUZZLE_SIZE as int;
        let ghost g = grid_of(*numbers);
        proof {
            assert(n * n <= 16) by (nonlinear_arith) requires 2 <= n <= 4;
        }
        let puzzle_size = PUZZLE_SIZE as u8;
        let mut permutation: Vec<u8> = Vec::with_capacity(PUZZLE_SIZE * PUZZLE_SIZE);
        let mut row: usize = 0;
        while row < PUZZLE_SIZE
            invariant
                row <= PUZZLE_SIZE <= 4,
                n == PUZZLE_SIZE,
                n * n <= 16,
                puzzle_size == n,
                g == grid_of(*numbers),
                permutation@.len() == row * n,
                forall|k: int| 0 <= k < permutation@.len() ==> #[trigger] permutation@[k] == permutation_of(g, n)[k],
            decreases PUZZLE_SIZE - row,
        {
            let mut column: usize = 0;
            while column < PUZZLE_SIZE
                invariant
                    row < PUZZLE_SIZE <= 4,
                    column <= PUZZLE_SIZE,
                    n == PUZZLE_SIZE,
                    n * n <= 16,
                    puzzle_size == n,
                    g == grid_of(*numbers),
                    permutation@.len() == row * n + column,
                    forall|k: int| 0 <= k < permutation@.len() ==> #[trigger] permutation@[k] == permutation_of(g, n)[k],
                decreases PUZZLE_SIZE - column,
            {
                let ghost k = permutation@.len() as int;
                proof {
                    assert(k / n == row && k % n == column && k < n * n) by (nonlinear_arith)
                        requires k == row * n + column, 0 <= column < n, 0 <= row < n;
                }
                match numbers[row][column] {
                    Some(number_value) => permutation.push(number_value),
                    None => permutation.push(puzzle_size * puzzle_size),
                }
                column += 1;
            }
            proof {
                assert((row + 1) * n == row * n + n) by (nonlinear_arith);
            }
            row += 1;
        }
        proof {
            assert(permutation@ =~= permutation_of(g, n));
        }
        ParityCheckPermutation { permutation }
    }

    /// The permutation, in row-major order.
    pub fn permutation(&self) -> (r: &[u8])
        ensures
            r@ == self@,
    {
        self.permutation.as_slice()
    }

    /// Is the permutation even? Counts the pairs of entries that are out of order.
    pub fn is_even(&self) -> (r: bool)
        requires
            self@.len() <= 16,
        ensures
            r == (inversions(self@) % 2 == 0),
    {
        let ghost p = self@;
        let len = self.permutation.len();
        let mut sum_swaps: u32 = 0;
        let mut i: usize = 0;
        proof {
            lemma_inversions_bound(p, 0);
            assert(p.len() * p.len() <= 256) by (nonlinear_arith) requires p.len() <= 16;
        }
        while i < len
            invariant
                len == p.len() <= 16,
                p == self@,
                i <= len,
                sum_swaps + inversions_from(p, i as int) == inversions(p),
                0 <= inversions(p) <= 256,
            decreases len - i,
        {
            let mut j: usize = i + 1;
            let mut smaller: u32 = 0;
            proof {
                lemma_inversions_bound(p, i + 1);
                lemma_count_smaller_bound(p, i + 1, p[i as int]);
            }
            while j < len
                invariant
                    len == p.len() <= 16,
                    p == self@,
                    i < len,
                    i + 1 <= j <= len,
                    smaller + count_smaller_from(p, j as int, p[i as int]) == count_smaller_from(p, i + 1, p[i as int]),
                    count_smaller_from(p, i + 1, p[i as int]) <= 16,
                decreases len - j,
            {
                proof {
                    lemma_count_smaller_bound(p, j + 1, p[i as int]);
                }
                if self.permutation[j] < self.permutation[i] {
                    smaller += 1;
                }
                j += 1;
            }
            sum_swaps = sum_swaps + smaller;
            i += 1;
        }
        (sum_swaps % 2) == 0
    }
}

} // verus!
