//! A sharper count for grids of distinct values: the enumerator can make no
//! more calls before exhaustion than there are ways to fill nine cells with
//! distinct values of `1..=MAX_VALUE`.
//!
//! A grid of distinct values is ranked by reading its cells as digits of
//! varying base, the first cell being the least significant. The digit of a
//! cell is the number of smaller values that no later cell holds, and its
//! base is the number of values that the later cells leave free.

use vstd::prelude::*;
use crate::enumerator::{advance, advance_from, advanced, next_value};
use crate::enumerator::{lemma_advance_from, lemma_fresh_value_keeps_distinct, lemma_next_value};
use crate::progress::exhausted_at;
use crate::square::MAX_VALUE;
use crate::square::{fully_distinct, minimum_cells};

verus! {

/// The number of cells from index `from` on whose value lies in `lo..=hi`.
pub open spec fn count_in(cells: Seq<nat>, from: nat, lo: nat, hi: nat) -> nat
    decreases cells.len() - from,
{
    if from >= cells.len() {
        0
    } else {
        let here: nat = if lo <= cells[from as int] <= hi {
            1
        } else {
            0
        };
        here + count_in(cells, from + 1, lo, hi)
    }
}

/// The digit of cell `i`: the number of values below its own that no later
/// cell holds.
pub open spec fn digit(cells: Seq<nat>, i: nat) -> int {
    cells[i as int] - 1 - count_in(cells, i + 1, 1, (cells[i as int] - 1) as nat)
}

/// The base of cell `i`: the number of values of `1..=MAX_VALUE` that the
/// cells after it leave free.
pub open spec fn choices(i: nat) -> int {
    MAX_VALUE - 8 + i
}

/// The number that the digits from `i` on spell, digit `i` being the least
/// significant.
pub open spec fn arrangement_rank_from(cells: Seq<nat>, i: nat) -> int
    decreases 9 - i,
{
    if i >= 9 {
        0
    } else {
        digit(cells, i) + choices(i) * arrangement_rank_from(cells, i + 1)
    }
}

/// The place of a grid of distinct values among all such grids.
pub open spec fn arrangement_rank(cells: Seq<nat>) -> int {
    arrangement_rank_from(cells, 0)
}

/// The number of ways to fill the cells from `i` on with distinct values.
pub open spec fn arrangements_from(i: nat) -> int
    decreases 9 - i,
{
    if i >= 9 {
        1
    } else {
        choices(i) * arrangements_from(i + 1)
    }
}

/// The number of ways to fill nine cells with distinct values of
/// `1..=MAX_VALUE`: 100 * 99 * 98 * 97 * 96 * 95 * 94 * 93 * 92.
pub open spec fn grid_arrangements() -> nat {
    690_281_878_632_192_000
}

/// `grid_arrangements` is `arrangements_from(0)`.
pub proof fn lemma_grid_arrangements()
    ensures
        arrangements_from(0) == grid_arrangements(),
{
    assert(arrangements_from(9) == 1);
    assert(arrangements_from(8) == 100) by {
        assert(choices(8) == 100);
    }
    assert(arrangements_from(7) == 9_900) by {
        assert(choices(7) == 99);
    }
    assert(arrangements_from(6) == 970_200) by {
        assert(choices(6) == 98);
    }
    assert(arrangements_from(5) == 94_109_400) by {
        assert(choices(5) == 97);
    }
    assert(arrangements_from(4) == 9_034_502_400) by {
        assert(choices(4) == 96);
    }
    assert(arrangements_from(3) == 858_277_728_000) by {
        assert(choices(3) == 95);
    }
    assert(arrangements_from(2) == 80_678_106_432_000) by {
        assert(choices(2) == 94);
    }
    assert(arrangements_from(1) == 7_503_063_898_176_000) by {
        assert(choices(1) == 93);
    }
    assert(arrangements_from(0) == 690_281_878_632_192_000) by {
        assert(choices(0) == 92);
    }
}

/// Counting over `lo..=hi` is counting over `lo..=mid` and over the rest.
proof fn lemma_count_split(cells: Seq<nat>, from: nat, lo: nat, mid: nat, hi: nat)
    requires
        lo <= mid + 1,
        mid <= hi,
    ensures
        count_in(cells, from, lo, hi) == count_in(cells, from, lo, mid) + count_in(
            cells,
            from,
            mid + 1,
            hi,
        ),
    decreases cells.len() - from,
{
    if from < cells.len() {
        lemma_count_split(cells, from + 1, lo, mid, hi);
    }
}

/// Where no cell from `from` on lies in `lo..=hi`, the count is 0.
proof fn lemma_count_none(cells: Seq<nat>, from: nat, lo: nat, hi: nat)
    requires
        forall|k: int| from <= k < cells.len() ==> !(lo <= #[trigger] cells[k] <= hi),
    ensures
        count_in(cells, from, lo, hi) == 0,
    decreases cells.len() - from,
{
    if from < cells.len() {
        lemma_count_none(cells, from + 1, lo, hi);
    }
}

/// Among distinct cells at most one holds a given value.
proof fn lemma_count_one(cells: Seq<nat>, from: nat, v: nat)
    requires
        forall|a: int, b: int|
            from <= a < b < cells.len() ==> #[trigger] cells[a] != #[trigger] cells[b],
    ensures
        count_in(cells, from, v, v) <= 1,
    decreases cells.len() - from,
{
    if from < cells.len() {
        if cells[from as int] == v {
            lemma_count_none(cells, from + 1, v, v);
        } else {
            lemma_count_one(cells, from + 1, v);
        }
    }
}

/// Among distinct cells no more lie in `lo..=hi` than that range has values.
proof fn lemma_count_at_most(cells: Seq<nat>, from: nat, lo: nat, hi: nat)
    requires
        lo <= hi + 1,
        forall|a: int, b: int|
            from <= a < b < cells.len() ==> #[trigger] cells[a] != #[trigger] cells[b],
    ensures
        count_in(cells, from, lo, hi) <= hi + 1 - lo,
    decreases hi + 1 - lo,
{
    if lo == hi + 1 {
        lemma_count_none(cells, from, lo, hi);
    } else {
        if hi > 0 {
            lemma_count_at_most(cells, from, lo, (hi - 1) as nat);
            lemma_count_split(cells, from, lo, (hi - 1) as nat, hi);
        } else {
            assert(lo == 0);
        }
        lemma_count_one(cells, from, hi);
    }
}

/// Cells that all lie in `lo..=hi` are all counted.
proof fn lemma_count_all(cells: Seq<nat>, from: nat, lo: nat, hi: nat)
    requires
        from <= cells.len(),
        forall|k: int| from <= k < cells.len() ==> lo <= #[trigger] cells[k] <= hi,
    ensures
        count_in(cells, from, lo, hi) == cells.len() - from,
    decreases cells.len() - from,
{
    if from < cells.len() {
        lemma_count_all(cells, from + 1, lo, hi);
    }
}

/// A count from `from` on depends on the cells from `from` on alone.
proof fn lemma_count_of_equal_tails(a: Seq<nat>, b: Seq<nat>, from: nat, lo: nat, hi: nat)
    requires
        a.len() == b.len(),
        forall|k: int| from <= k < a.len() ==> a[k] == b[k],
    ensures
        count_in(a, from, lo, hi) == count_in(b, from, lo, hi),
    decreases a.len() - from,
{
    if from < a.len() {
        lemma_count_of_equal_tails(a, b, from + 1, lo, hi);
    }
}

/// In a grid of distinct values the digit of a cell is less than its base.
pub proof fn lemma_digit_bounds(cells: Seq<nat>, i: nat)
    requires
        fully_distinct(cells),
        i < 9,
    ensures
        0 <= digit(cells, i) < choices(i),
{
    let v = cells[i as int];
    let top = MAX_VALUE as nat;
    assert(1 <= v <= top);
    lemma_count_at_most(cells, i + 1, 1, (v - 1) as nat);
    lemma_count_all(cells, i + 1, 1, top);
    lemma_count_split(cells, i + 1, 1, (v - 1) as nat, top);
    lemma_count_split(cells, i + 1, v, v, top);
    lemma_count_none(cells, i + 1, v, v);
    lemma_count_at_most(cells, i + 1, v + 1, top);
}

/// A grid of distinct values has a rank below the number of such grids.
pub proof fn lemma_arrangement_rank_bounds(cells: Seq<nat>, i: nat)
    requires
        fully_distinct(cells),
        i <= 9,
    ensures
        0 <= arrangement_rank_from(cells, i) < arrangements_from(i),
        1 <= arrangements_from(i),
    decreases 9 - i,
{
    if i < 9 {
        lemma_arrangement_rank_bounds(cells, i + 1);
        lemma_digit_bounds(cells, i);
        let d = digit(cells, i);
        let base = choices(i);
        let rest = arrangement_rank_from(cells, i + 1);
        let ways = arrangements_from(i + 1);
        assert(0 <= d + base * rest < base * ways && 1 <= base * ways) by (nonlinear_arith)
            requires
                0 <= d < base,
                0 <= rest < ways,
        ;
    }
}

/// The rank from cell `i` on depends on the cells from `i` on alone.
proof fn lemma_arrangement_rank_of_equal_tails(a: Seq<nat>, b: Seq<nat>, i: nat)
    requires
        a.len() == 9,
        b.len() == 9,
        forall|k: int| i <= k < 9 ==> a[k] == b[k],
    ensures
        arrangement_rank_from(a, i) == arrangement_rank_from(b, i),
    decreases 9 - i,
{
    if i < 9 {
        lemma_arrangement_rank_of_equal_tails(a, b, i + 1);
        lemma_count_of_equal_tails(a, b, i + 1, 1, (a[i as int] - 1) as nat);
    }
}

/// A cell that moves up to a value that no cell holds gets a larger digit.
proof fn lemma_moving_up_raises_digit(cells: Seq<nat>, i: nat, value: nat)
    requires
        fully_distinct(cells),
        i < 9,
        cells[i as int] < value,
    ensures
        digit(cells, i) < digit(cells.update(i as int, value), i),
{
    let v = cells[i as int];
    let moved = cells.update(i as int, value);
    lemma_count_of_equal_tails(cells, moved, i + 1, 1, (value - 1) as nat);
    lemma_count_split(cells, i + 1, 1, (v - 1) as nat, (value - 1) as nat);
    lemma_count_split(cells, i + 1, v, v, (value - 1) as nat);
    lemma_count_none(cells, i + 1, v, v);
    lemma_count_at_most(cells, i + 1, v + 1, (value - 1) as nat);
}

/// An odometer step that does not run off the last cell raises the rank of
/// the cells it may touch.
proof fn lemma_step_raises_arrangement_rank(cells: Seq<nat>, i: nat)
    requires
        fully_distinct(cells),
        !advance_from(cells, i).1,
    ensures
        arrangement_rank_from(cells, i) < arrangement_rank_from(advance_from(cells, i).0, i),
    decreases 9 - i,
{
    assert(i < 9);
    let (value, rolled) = next_value(cells, cells[i as int]);
    let stepped = cells.update(i as int, value);
    lemma_next_value(cells, cells[i as int]);
    lemma_arrangement_rank_of_equal_tails(cells, stepped, i + 1);
    let base = choices(i);
    let rest = arrangement_rank_from(cells, i + 1);
    if rolled {
        let after = advance_from(stepped, i + 1).0;
        assert(advance_from(cells, i) == advance_from(stepped, i + 1));
        lemma_fresh_value_keeps_distinct(cells, i as int, value);
        lemma_step_raises_arrangement_rank(stepped, i + 1);
        lemma_advance_from(stepped, i + 1);
        lemma_digit_bounds(after, i);
        lemma_digit_bounds(cells, i);
        let later = arrangement_rank_from(after, i + 1);
        assert(digit(cells, i) + base * rest < digit(after, i) + base * later)
            by (nonlinear_arith)
            requires
                0 <= digit(cells, i) < base,
                0 <= digit(after, i),
                rest < later,
        ;
    } else {
        assert(advance_from(cells, i).0 == stepped);
        lemma_moving_up_raises_digit(cells, i, value);
    }
}

/// A call of the enumerator that does not report exhaustion raises the rank
/// of a grid of distinct values.
pub proof fn lemma_advance_raises_arrangement_rank(cells: Seq<nat>)
    requires
        fully_distinct(cells),
        !advance(cells).1,
    ensures
        arrangement_rank(cells) < arrangement_rank(advance(cells).0),
        fully_distinct(advance(cells).0),
{
    lemma_step_raises_arrangement_rank(cells, 0);
    lemma_advance_from(cells, 0);
}

/// From a grid of distinct values the enumerator reports exhaustion after
/// finitely many calls. The number of the first call that does so is
/// returned: it is at most the number of grids of distinct values that rank
/// above the grid.
pub proof fn lemma_distinct_enumeration_ends(cells: Seq<nat>) -> (calls: nat)
    requires
        fully_distinct(cells),
    ensures
        exhausted_at(cells, calls),
        arrangement_rank(cells) + calls <= grid_arrangements(),
    decreases grid_arrangements() - arrangement_rank(cells),
{
    lemma_grid_arrangements();
    lemma_arrangement_rank_bounds(cells, 0);
    if advance(cells).1 {
        assert(advanced(cells, 0) == cells);
        1
    } else {
        lemma_advance_raises_arrangement_rank(cells);
        let next = advance(cells).0;
        lemma_arrangement_rank_bounds(next, 0);
        let later = lemma_distinct_enumeration_ends(next);
        let calls = later + 1;
        assert(advanced(cells, later) == advanced(next, (later - 1) as nat));
        assert forall|k: nat| k + 1 < calls implies !(#[trigger] advance(advanced(cells, k))).1 by {
            if k == 0 {
                assert(advanced(cells, 0) == cells);
            } else {
                assert(advanced(cells, k) == advanced(next, (k - 1) as nat));
            }
        }
        calls
    }
}

/// Repeated calls of the enumerator from the starting grid report
/// exhaustion after a finite number of calls, which is returned. It is at
/// most the number of ways to fill nine cells with distinct values of
/// `1..=MAX_VALUE`.
pub proof fn lemma_enumeration_ends_from_minimum() -> (calls: nat)
    ensures
        exhausted_at(minimum_cells(), calls),
        1 <= calls <= grid_arrangements(),
{
    let calls = lemma_distinct_enumeration_ends(minimum_cells());
    lemma_arrangement_rank_bounds(minimum_cells(), 0);
    calls
}

} // verus!
