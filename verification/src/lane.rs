//! One search lane: enumerate candidates and test each until one is found,
//! the enumeration is exhausted, or the caller's budget of candidates is
//! used up.

use vstd::prelude::*;
use crate::arrangement::grid_arrangements;
use crate::arrangement::{lemma_arrangement_rank_bounds, lemma_distinct_enumeration_ends};
use crate::enumerator::add_one;
use crate::enumerator::{advance, advanced};
use crate::enumerator::{lemma_advance_from, lemma_advanced_once_more};
use crate::progress::{grid_capacity, lemma_enumeration_ends};
use crate::square::Square;
use crate::square::{fully_distinct, in_range, is_magic_grid, squared, well_formed};
use crate::square::lemma_in_range_squares_fit;

verus! {

/// Where a lane stands after a candidate has been tested.
#[derive(Clone, Copy, Debug, PartialEq, Eq)]
pub enum LaneStatus {
    /// The candidate is not magic and the enumeration goes on.
    Searching,
    /// The squares of the candidate form a magic square.
    Found,
    /// The enumerator reported exhaustion: the lane has no candidate left.
    Exhausted,
}

/// What a run of a lane did.
#[derive(Clone, Copy, Debug, PartialEq, Eq)]
pub struct LaneReport {
    /// The number of calls of the enumerator, each counted as one attempt.
    pub tries: u64,
    /// The status after the last attempt; `Searching` where none was made.
    pub status: LaneStatus,
}

/// The status after one attempt from `cells`: the enumerator is called, and
/// unless it reports exhaustion the squares of the new grid are tested.
pub open spec fn candidate_status(cells: Seq<nat>) -> LaneStatus {
    if advance(cells).1 {
        LaneStatus::Exhausted
    } else if is_magic_grid(squared(advance(cells).0)) {
        LaneStatus::Found
    } else {
        LaneStatus::Searching
    }
}

/// The number of attempts that a lane makes from `cells` with a budget of
/// `limit`: it stops after the first attempt that finds a magic square or
/// the enumeration exhausted, and at the latest when the budget is used up.
pub open spec fn lane_tries(cells: Seq<nat>, limit: nat) -> nat
    decreases limit,
{
    if limit == 0 {
        0
    } else if candidate_status(cells) is Searching {
        1 + lane_tries(advance(cells).0, (limit - 1) as nat)
    } else {
        1
    }
}

/// The status a lane ends with when it makes `tries` attempts from `cells`.
pub open spec fn lane_status(cells: Seq<nat>, tries: nat) -> LaneStatus {
    if tries == 0 {
        LaneStatus::Searching
    } else {
        candidate_status(advanced(cells, (tries - 1) as nat))
    }
}

/// The attempts of several lanes that each run from its own grid with a
/// budget of `steps`, added up.
pub open spec fn total_tries(lanes: Seq<Seq<nat>>, steps: nat) -> nat
    decreases lanes.len(),
{
    if lanes.len() == 0 {
        0
    } else {
        total_tries(lanes.drop_last(), steps) + lane_tries(lanes.last(), steps)
    }
}

/// A lane makes exactly `n` attempts where `n` is within the budget, every
/// attempt before the `n`-th leaves the lane searching, and the `n`-th ends
/// the search or uses up the budget.
pub proof fn lemma_lane_tries(cells: Seq<nat>, limit: nat, n: nat)
    requires
        n <= limit,
        forall|k: nat| k + 1 < n ==> #[trigger] candidate_status(advanced(cells, k)) is Searching,
        n < limit ==> n >= 1 && !(candidate_status(advanced(cells, (n - 1) as nat)) is Searching),
    ensures
        lane_tries(cells, limit) == n,
    decreases n,
{
    if limit > 0 {
        let next = advance(cells).0;
        assert(advanced(cells, 0) == cells);
        if candidate_status(cells) is Searching {
            assert(n >= 2 || n == limit);
            assert forall|k: nat| k + 1 < n - 1 implies #[trigger] candidate_status(
                advanced(next, k),
            ) is Searching by {
                assert(advanced(cells, k + 1) == advanced(next, k));
                assert(candidate_status(advanced(cells, k + 1)) is Searching);
            }
            if n >= 2 {
                assert(advanced(cells, (n - 1) as nat) == advanced(next, (n - 2) as nat));
            }
            lemma_lane_tries(next, (limit - 1) as nat, (n - 1) as nat);
        } else {
            if n >= 2 {
                assert(candidate_status(advanced(cells, 0)) is Searching);
            }
        }
    }
}

/// Lanes that each make `steps` attempts, none of them ending its search
/// before the last one, make `steps` attempts per lane in total, whatever
/// grids they start from.
pub proof fn lemma_tries_add_up(lanes: Seq<Seq<nat>>, steps: nat)
    requires
        forall|i: int, k: nat|
            0 <= i < lanes.len() && k + 1 < steps ==> #[trigger] candidate_status(
                advanced(lanes[i], k),
            ) is Searching,
    ensures
        total_tries(lanes, steps) == lanes.len() * steps,
    decreases lanes.len(),
{
    if lanes.len() > 0 {
        let rest = lanes.drop_last();
        assert forall|i: int, k: nat|
            0 <= i < rest.len() && k + 1 < steps implies #[trigger] candidate_status(
            advanced(rest[i], k),
        ) is Searching by {
            assert(rest[i] == lanes[i]);
        }
        lemma_tries_add_up(rest, steps);
        lemma_lane_tries(lanes.last(), steps, steps);
        assert(lanes.len() * steps == rest.len() * steps + steps) by (nonlinear_arith)
            requires
                lanes.len() == rest.len() + 1,
        ;
    }
}

/// Makes one attempt: moves `square` to the next candidate and tests the
/// squares of its cells.
pub fn try_next(square: &mut Square) -> (status: LaneStatus)
    requires
        in_range(old(square)@),
    ensures
        final(square)@ == advance(old(square)@).0,
        status == candidate_status(old(square)@),
        in_range(final(square)@),
        well_formed(old(square)@) ==> well_formed(final(square)@),
        fully_distinct(old(square)@) ==> fully_distinct(final(square)@),
{
    proof {
        lemma_advance_from(square@, 0);
        lemma_in_range_squares_fit(advance(square@).0);
    }
    if add_one(square) {
        return LaneStatus::Exhausted;
    }
    let squared_square = square.squared_copy();
    if squared_square.is_magic() {
        LaneStatus::Found
    } else {
        LaneStatus::Searching
    }
}

/// Runs a lane from `square` for at most `limit` attempts and reports how
/// many it made and how the last one ended.
///
/// The lane stops after the attempt that finds a magic square or finds the
/// enumeration exhausted. `square` is left at the last candidate, from which
/// a later run goes on. With a budget as large as the number of grids that
/// the enumerator can visit, the run ends with `Found` or `Exhausted`.
pub fn find_square_sequence(square: &mut Square, limit: u64) -> (report: LaneReport)
    requires
        in_range(old(square)@),
    ensures
        report.tries == lane_tries(old(square)@, limit as nat),
        report.status == lane_status(old(square)@, report.tries as nat),
        final(square)@ == advanced(old(square)@, report.tries as nat),
        report.tries <= limit,
        report.status is Searching ==> report.tries == limit,
        limit >= grid_capacity() ==> !(report.status is Searching),
        fully_distinct(old(square)@) && limit >= grid_arrangements() ==> !(report.status
            is Searching),
        in_range(final(square)@),
        well_formed(old(square)@) ==> well_formed(final(square)@),
        fully_distinct(old(square)@) ==> fully_distinct(final(square)@),
{
    let ghost start = square@;
    let mut tries: u64 = 0;
    while tries < limit
        invariant
            tries <= limit,
            start == old(square)@,
            square@ == advanced(start, tries as nat),
            forall|k: nat|
                k < tries ==> #[trigger] candidate_status(advanced(start, k)) is Searching,
            in_range(start),
            in_range(square@),
            well_formed(start) ==> well_formed(square@),
            fully_distinct(start) ==> fully_distinct(square@),
        decreases limit - tries,
    {
        proof {
            lemma_advanced_once_more(start, tries as nat);
        }
        let status = try_next(square);
        tries += 1;
        match status {
            LaneStatus::Searching => {},
            _ => {
                proof {
                    lemma_lane_tries(start, limit as nat, tries as nat);
                }
                return LaneReport { tries, status };
            },
        }
    }
    proof {
        lemma_lane_tries(start, limit as nat, tries as nat);
        if limit >= grid_capacity() {
            let calls = lemma_enumeration_ends(start);
            assert(candidate_status(advanced(start, (calls - 1) as nat)) is Searching);
        }
        if fully_distinct(start) && limit >= grid_arrangements() {
            let calls = lemma_distinct_enumeration_ends(start);
            lemma_arrangement_rank_bounds(start, 0);
            assert(candidate_status(advanced(start, (calls - 1) as nat)) is Searching);
        }
    }
    LaneReport { tries, status: LaneStatus::Searching }
}

} // verus!
