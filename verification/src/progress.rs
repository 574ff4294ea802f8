//! Why the enumeration ends: every call of the enumerator that does not
//! report exhaustion moves the grid strictly upwards in the odometer order.
//!
//! The order reads the nine cells as the digits of a number in base
//! `MAX_VALUE + 1`, the first cell being the least significant digit.

use vstd::prelude::*;
use crate::enumerator::{advance, advance_from, advanced, next_value};
use crate::enumerator::{lemma_advance_from, lemma_next_value};
use crate::square::MAX_VALUE;
use crate::square::in_range;

verus! {

/// The base of the odometer order: one more than `MAX_VALUE`.
pub open spec fn radix() -> nat {
    (MAX_VALUE + 1) as nat
}

/// The number that the cells from `i` on spell, cell `i` being the least
/// significant digit.
pub open spec fn rank_from(cells: Seq<nat>, i: nat) -> nat
    decreases cells.len() - i,
{
    if i >= cells.len() {
        0
    } else {
        cells[i as int] + radix() * rank_from(cells, i + 1)
    }
}

/// The place of a grid in the odometer order.
pub open spec fn rank(cells: Seq<nat>) -> nat {
    rank_from(cells, 0)
}

/// `radix()` to the power `digits`: the number of ranks that `digits`
/// cells can spell.
pub open spec fn capacity(digits: nat) -> nat
    decreases digits,
{
    if digits == 0 {
        1
    } else {
        radix() * capacity((digits - 1) as nat)
    }
}

/// The number of ranks of a whole grid: 101 to the power 9.
pub open spec fn grid_capacity() -> nat {
    1_093_685_272_684_360_901
}

/// Call number `calls` is the first that reports exhaustion, counting from 1
/// the calls of the enumerator that start at `cells`.
pub open spec fn exhausted_at(cells: Seq<nat>, calls: nat) -> bool {
    &&& calls >= 1
    &&& advance(advanced(cells, (calls - 1) as nat)).1
    &&& forall|k: nat| k + 1 < calls ==> !(#[trigger] advance(advanced(cells, k))).1
}

/// `grid_capacity` is `capacity(9)`.
pub proof fn lemma_grid_capacity()
    ensures
        capacity(9) == grid_capacity(),
{
    assert(radix() == 101);
    assert(capacity(0) == 1);
    assert(capacity(1) == 101);
    assert(capacity(2) == 10_201);
    assert(capacity(3) == 1_030_301);
    assert(capacity(4) == 104_060_401);
    assert(capacity(5) == 10_510_100_501);
    assert(capacity(6) == 1_061_520_150_601);
    assert(capacity(7) == 107_213_535_210_701);
    assert(capacity(8) == 10_828_567_056_280_801);
}

/// Cells that do not exceed `MAX_VALUE` spell a rank below the capacity of
/// their number.
pub proof fn lemma_rank_below_capacity(cells: Seq<nat>, i: nat)
    requires
        i <= cells.len(),
        forall|k: int| 0 <= k < cells.len() ==> #[trigger] cells[k] <= MAX_VALUE,
    ensures
        rank_from(cells, i) < capacity((cells.len() - i) as nat),
    decreases cells.len() - i,
{
    assert(radix() == 101);
    if i < cells.len() {
        lemma_rank_below_capacity(cells, i + 1);
    }
}

/// The rank from cell `i` on depends on the cells from `i` on alone.
proof fn lemma_rank_of_equal_tails(a: Seq<nat>, b: Seq<nat>, i: nat)
    requires
        a.len() == b.len(),
        forall|k: int| i <= k < a.len() ==> a[k] == b[k],
    ensures
        rank_from(a, i) == rank_from(b, i),
    decreases a.len() - i,
{
    if i < a.len() {
        lemma_rank_of_equal_tails(a, b, i + 1);
    }
}

/// An odometer step that does not run off the last cell raises the rank of
/// the cells it may touch.
proof fn lemma_step_raises_rank(cells: Seq<nat>, i: nat)
    requires
        cells.len() < MAX_VALUE,
        forall|k: int| 0 <= k < cells.len() ==> #[trigger] cells[k] <= MAX_VALUE,
        !advance_from(cells, i).1,
    ensures
        rank_from(cells, i) < rank_from(advance_from(cells, i).0, i),
    decreases cells.len() - i,
{
    assert(radix() == 101);
    assert(i < cells.len());
    let (value, rolled) = next_value(cells, cells[i as int]);
    let stepped = cells.update(i as int, value);
    lemma_next_value(cells, cells[i as int]);
    lemma_rank_of_equal_tails(cells, stepped, i + 1);
    assert(rank_from(cells, i) == cells[i as int] + radix() * rank_from(cells, i + 1));
    if rolled {
        let after = advance_from(stepped, i + 1).0;
        assert(advance_from(cells, i) == advance_from(stepped, i + 1));
        lemma_step_raises_rank(stepped, i + 1);
        lemma_advance_from(stepped, i + 1);
        assert(rank_from(after, i) == after[i as int] + radix() * rank_from(after, i + 1));
    } else {
        assert(advance_from(cells, i).0 == stepped);
        assert(rank_from(stepped, i) == value + radix() * rank_from(stepped, i + 1));
    }
}

/// A call of the enumerator that does not report exhaustion raises the rank
/// of a grid within range.
pub proof fn lemma_advance_raises_rank(cells: Seq<nat>)
    requires
        in_range(cells),
        !advance(cells).1,
    ensures
        rank(cells) < rank(advance(cells).0),
        in_range(advance(cells).0),
{
    lemma_step_raises_rank(cells, 0);
    lemma_advance_from(cells, 0);
}

/// From a grid within range the enumerator reports exhaustion after finitely
/// many calls. The number of the first call that does so is returned: it is
/// fixed by the grid, and it is at most the number of ranks above the grid's
/// own.
pub proof fn lemma_enumeration_ends(cells: Seq<nat>) -> (calls: nat)
    requires
        in_range(cells),
    ensures
        exhausted_at(cells, calls),
        rank(cells) + calls <= grid_capacity(),
    decreases grid_capacity() - rank(cells),
{
    lemma_grid_capacity();
    lemma_rank_below_capacity(cells, 0);
    if advance(cells).1 {
        assert(advanced(cells, 0) == cells);
        1
    } else {
        lemma_advance_raises_rank(cells);
        let next = advance(cells).0;
        lemma_rank_below_capacity(next, 0);
        let later = lemma_enumeration_ends(next);
        let calls = later + 1;
        assert(advanced(cells, later) == advanced(next, (later - 1) as nat));
        assert forall|k: nat| k + 1 < calls implies !(#[trigger] advance(advanced(cells, k))).1 by {
            if k == 0 {
                assert(advanced(cells, 0) == cells);
            } else {
                assert(advanced(cells, k) == advanced(next, (k - 1) as nat));
            }
        }
        calls
    }
}

/// No two calls are the first to report exhaustion.
pub proof fn lemma_exhausted_at_is_unique(cells: Seq<nat>, first: nat, second: nat)
    requires
        exhausted_at(cells, first),
        exhausted_at(cells, second),
    ensures
        first == second,
{
    if first < second {
        assert(!advance(advanced(cells, (first - 1) as nat)).1);
    } else if second < first {
        assert(!advance(advanced(cells, (second - 1) as nat)).1);
    }
}

} // verus!
