//! The enumerator: moves a grid to the next candidate.
//!
//! The nine cells, in row-major order, are the digits of an odometer that
//! counts within `1..=MAX_VALUE` and skips every value that some cell of the
//! grid already holds.

use vstd::prelude::*;
use crate::square::Square;
use crate::square::{MAX_VALUE, SIZE};
use crate::square::{assigned_distinct, fully_distinct, in_range, minimum_cells, well_formed};

verus! {

/// The least value from `lo` upwards that no cell holds, or a value above
/// `MAX_VALUE` where every value of `lo..=MAX_VALUE` is held by some cell.
pub open spec fn first_free_from(cells: Seq<nat>, lo: nat) -> nat
    decreases MAX_VALUE + 1 - lo,
{
    if lo > MAX_VALUE || !cells.contains(lo) {
        lo
    } else {
        first_free_from(cells, lo + 1)
    }
}

/// Where a cell that holds `from` moves to, and whether it rolled over: the
/// least free value above `from`, or, where none is left up to `MAX_VALUE`,
/// the least free value from 1 upwards, with a rollover.
pub open spec fn next_value(cells: Seq<nat>, from: nat) -> (nat, bool) {
    let above = first_free_from(cells, from + 1);
    if above <= MAX_VALUE {
        (above, false)
    } else {
        (first_free_from(cells, 1), true)
    }
}

/// One odometer step that starts at cell `i`: cell `i` moves to its next
/// value, and as long as the cell just moved rolled over, the carry moves
/// the cell after it. The flag says that the last cell rolled over too.
pub open spec fn advance_from(cells: Seq<nat>, i: nat) -> (Seq<nat>, bool)
    decreases cells.len() - i,
{
    if i >= cells.len() {
        (cells, true)
    } else {
        let (value, rolled) = next_value(cells, cells[i as int]);
        let stepped = cells.update(i as int, value);
        if rolled {
            advance_from(stepped, i + 1)
        } else {
            (stepped, false)
        }
    }
}

/// The grid after one call of the enumerator, and whether that call found
/// the enumeration exhausted.
pub open spec fn advance(cells: Seq<nat>) -> (Seq<nat>, bool) {
    advance_from(cells, 0)
}

/// The grid after `n` calls of the enumerator.
pub open spec fn advanced(cells: Seq<nat>, n: nat) -> Seq<nat>
    decreases n,
{
    if n == 0 {
        cells
    } else {
        advanced(advance(cells).0, (n - 1) as nat)
    }
}

/// A sequence that holds each of `1..=n` has at least `n` entries.
pub proof fn lemma_holds_all_up_to(cells: Seq<nat>, n: nat)
    requires
        forall|v: nat| 1 <= v <= n ==> cells.contains(v),
    ensures
        n <= cells.len(),
    decreases n,
{
    if n > 0 {
        assert(cells.contains(n));
        let at = choose|at: int| 0 <= at < cells.len() && cells[at] == n;
        let rest = cells.remove(at);
        assert forall|v: nat| 1 <= v <= n - 1 implies rest.contains(v) by {
            assert(cells.contains(v));
            let k = choose|k: int| 0 <= k < cells.len() && cells[k] == v;
            if k < at {
                assert(rest[k] == v);
            } else {
                assert(rest[k - 1] == v);
            }
        }
        lemma_holds_all_up_to(rest, (n - 1) as nat);
    }
}

/// What `first_free_from` finds: nothing below it, from `lo` on, is free,
/// and it is free itself unless it lies above `MAX_VALUE`.
pub proof fn lemma_first_free_from(cells: Seq<nat>, lo: nat)
    ensures
        lo <= first_free_from(cells, lo),
        lo <= MAX_VALUE + 1 ==> first_free_from(cells, lo) <= MAX_VALUE + 1,
        first_free_from(cells, lo) <= MAX_VALUE ==> !cells.contains(first_free_from(cells, lo)),
        forall|v: nat| lo <= v < first_free_from(cells, lo) ==> v <= MAX_VALUE && cells.contains(v),
    decreases MAX_VALUE + 1 - lo,
{
    if lo <= MAX_VALUE && cells.contains(lo) {
        lemma_first_free_from(cells, lo + 1);
    }
}

/// What `next_value` finds in a grid with fewer than `MAX_VALUE` cells: a
/// value of `1..=MAX_VALUE` that no cell holds. Without a rollover it is the
/// least such value above `from`; with one, none is left above `from`, and
/// it is the least such value of all.
pub proof fn lemma_next_value(cells: Seq<nat>, from: nat)
    requires
        cells.len() < MAX_VALUE,
    ensures
        ({
            let (value, rolled) = next_value(cells, from);
            &&& 1 <= value <= MAX_VALUE
            &&& !cells.contains(value)
            &&& !rolled ==> from < value && forall|v: nat| from < v < value ==> cells.contains(v)
            &&& rolled ==> forall|v: nat| from < v <= MAX_VALUE ==> cells.contains(v)
            &&& rolled ==> forall|v: nat| 1 <= v < value ==> cells.contains(v)
        }),
{
    lemma_first_free_from(cells, from + 1);
    lemma_first_free_from(cells, 1);
    let low = first_free_from(cells, 1);
    if low > MAX_VALUE {
        lemma_holds_all_up_to(cells, MAX_VALUE as nat);
    }
}

/// Moving one cell to a value that no cell holds keeps the assigned cells
/// distinct.
pub proof fn lemma_fresh_value_keeps_distinct(cells: Seq<nat>, i: int, value: nat)
    requires
        0 <= i < cells.len(),
        !cells.contains(value),
        assigned_distinct(cells),
    ensures
        assigned_distinct(cells.update(i, value)),
{
    let moved = cells.update(i, value);
    assert forall|a: int, b: int|
        0 <= a < b < moved.len() && moved[a] != 0 implies #[trigger] moved[a]
        != #[trigger] moved[b] by {
        if a == i {
            assert(cells[b] != value);
        } else if b == i {
            assert(cells[a] != value);
        }
    }
}

/// An odometer step keeps the number of cells and every cell before the one
/// it starts at; a cell that it changes gets a value of `1..=MAX_VALUE`. It
/// keeps a grid within range, its assigned cells distinct, and its cells
/// assigned.
pub proof fn lemma_advance_from(cells: Seq<nat>, i: nat)
    requires
        cells.len() < MAX_VALUE,
    ensures
        advance_from(cells, i).0.len() == cells.len(),
        forall|k: int|
            0 <= k < i && k < cells.len() ==> #[trigger] advance_from(cells, i).0[k] == cells[k],
        forall|k: int|
            0 <= k < cells.len() ==> #[trigger] advance_from(cells, i).0[k] == cells[k] || 1
                <= advance_from(cells, i).0[k] <= MAX_VALUE,
        in_range(cells) ==> in_range(advance_from(cells, i).0),
        assigned_distinct(cells) ==> assigned_distinct(advance_from(cells, i).0),
        (forall|k: int| 0 <= k < cells.len() ==> cells[k] >= 1) ==> (forall|k: int|
            0 <= k < cells.len() ==> advance_from(cells, i).0[k] >= 1),
    decreases cells.len() - i,
{
    if i < cells.len() {
        let (value, rolled) = next_value(cells, cells[i as int]);
        let stepped = cells.update(i as int, value);
        lemma_next_value(cells, cells[i as int]);
        if assigned_distinct(cells) {
            lemma_fresh_value_keeps_distinct(cells, i as int, value);
        }
        if rolled {
            lemma_advance_from(stepped, i + 1);
            assert forall|k: int| 0 <= k < i && k < cells.len() implies #[trigger] advance_from(
                cells,
                i,
            ).0[k] == cells[k] by {
                assert(advance_from(stepped, i + 1).0[k] == stepped[k]);
            }
            assert forall|k: int| 0 <= k < cells.len() implies #[trigger] advance_from(
                cells,
                i,
            ).0[k] == cells[k] || 1 <= advance_from(cells, i).0[k] <= MAX_VALUE by {
                assert(advance_from(stepped, i + 1).0[k] == stepped[k] || 1 <= advance_from(
                    stepped,
                    i + 1,
                ).0[k] <= MAX_VALUE);
            }
        }
    }
}

/// One call of the enumerator keeps a grid well formed, and keeps its cells
/// pairwise distinct within `1..=MAX_VALUE` where they were so before.
pub proof fn lemma_advance_keeps_distinct(cells: Seq<nat>)
    ensures
        well_formed(cells) ==> well_formed(advance(cells).0),
        fully_distinct(cells) ==> fully_distinct(advance(cells).0),
{
    if cells.len() == 9 {
        lemma_advance_from(cells, 0);
    }
}

/// The grid after `n + 1` calls is the grid after `n` calls, advanced once.
pub proof fn lemma_advanced_once_more(cells: Seq<nat>, n: nat)
    ensures
        advanced(cells, n + 1) == advance(advanced(cells, n)).0,
    decreases n,
{
    if n > 0 {
        lemma_advanced_once_more(advance(cells).0, (n - 1) as nat);
    } else {
        assert(advanced(advance(cells).0, 0) == advance(cells).0);
    }
}

/// The enumeration can be resumed from any grid it has reached: `n` calls
/// after `m` calls lead where `m + n` calls lead.
pub proof fn lemma_advanced_resumes(cells: Seq<nat>, m: nat, n: nat)
    ensures
        advanced(advanced(cells, m), n) == advanced(cells, m + n),
    decreases m,
{
    if m > 0 {
        lemma_advanced_resumes(advance(cells).0, (m - 1) as nat, n);
    }
}

/// Every grid that any number of calls of the enumerator produces from the
/// starting grid holds nine values of `1..=MAX_VALUE`, no two of them equal.
pub proof fn lemma_distinct_from_minimum(n: nat)
    ensures
        fully_distinct(advanced(minimum_cells(), n)),
        forall|i: int, j: int|
            0 <= i < j < 9 ==> advanced(minimum_cells(), n)[i] != advanced(minimum_cells(), n)[j],
{
    lemma_advanced_keeps_distinct(minimum_cells(), n);
    let cells = advanced(minimum_cells(), n);
    assert forall|i: int, j: int| 0 <= i < j < 9 implies cells[i] != cells[j] by {
        assert(cells[i] >= 1);
    }
}

/// Any number of calls of the enumerator keeps a grid well formed, and
/// keeps its cells pairwise distinct within `1..=MAX_VALUE` where they were
/// so before.
pub proof fn lemma_advanced_keeps_distinct(cells: Seq<nat>, n: nat)
    ensures
        well_formed(cells) ==> well_formed(advanced(cells, n)),
        fully_distinct(cells) ==> fully_distinct(advanced(cells, n)),
    decreases n,
{
    if n > 0 {
        lemma_advance_keeps_distinct(cells);
        lemma_advanced_keeps_distinct(advance(cells).0, (n - 1) as nat);
    }
}

/// Moves `square` to the next candidate and returns whether the enumeration
/// is exhausted, that is whether all nine cells rolled over.
///
/// The cells are visited in row-major order. A cell moves to the next value
/// that no cell of the grid holds, wrapping from `MAX_VALUE` to 1; the first
/// cell that moves without wrapping ends the call.
pub fn add_one(square: &mut Square) -> (exhausted: bool)
    ensures
        (final(square)@, exhausted) == advance(old(square)@),
        well_formed(old(square)@) ==> well_formed(final(square)@),
        fully_distinct(old(square)@) ==> fully_distinct(final(square)@),
{
    let ghost start = square@;
    proof {
        lemma_advance_keeps_distinct(start);
    }
    for x in 0..SIZE
        invariant
            start == old(square)@,
            well_formed(start) ==> well_formed(advance(start).0),
            fully_distinct(start) ==> fully_distinct(advance(start).0),
            advance_from(square@, (3 * x) as nat) == advance(start),
    {
        for y in 0..SIZE
            invariant
                x < 3,
                start == old(square)@,
                well_formed(start) ==> well_formed(advance(start).0),
                fully_distinct(start) ==> fully_distinct(advance(start).0),
                advance_from(square@, (3 * x + y) as nat) == advance(start),
        {
            let ghost cells = square@;
            let ghost from = cells[3 * x + y];
            let mut is_maximum_reached = false;
            let mut value = square.get(x, y);
            loop
                invariant_except_break
                    !is_maximum_reached ==> from <= value && first_free_from(cells, from + 1)
                        == first_free_from(cells, (value + 1) as nat),
                    is_maximum_reached ==> {
                        &&& first_free_from(cells, from + 1) > MAX_VALUE
                        &&& 1 <= value <= 9
                        &&& first_free_from(cells, 1) == first_free_from(cells, (value + 1) as nat)
                        &&& forall|v: nat| 1 <= v <= value ==> cells.contains(v)
                    },
                invariant
                    cells == square@,
                ensures
                    (value as nat, is_maximum_reached) == next_value(cells, from),
                decreases
                        (if is_maximum_reached {
                            0int
                        } else {
                            MAX_VALUE + 1
                        }) + (if value >= MAX_VALUE {
                            0int
                        } else {
                            MAX_VALUE - value
                        }),
            {
                if value >= MAX_VALUE {
                    value = 1;
                    is_maximum_reached = true;
                } else {
                    value += 1;
                }
                assert(first_free_from(cells, value as nat) == if cells.contains(value as nat) {
                    first_free_from(cells, (value + 1) as nat)
                } else {
                    value as nat
                });
                if !square.contains(value) {
                    break ;
                }
                proof {
                    if is_maximum_reached {
                        lemma_holds_all_up_to(cells, value as nat);
                    }
                }
            }
            square.set(x, y, value);
            assert(advance_from(cells, (3 * x + y) as nat) == if is_maximum_reached {
                advance_from(square@, (3 * x + y + 1) as nat)
            } else {
                (square@, false)
            });
            if !is_maximum_reached {
                return false;
            }
        }
    }
    true
}

} // verus!
