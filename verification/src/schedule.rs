//! Lanes that take turns: whatever the order in which the lanes make their
//! attempts, each lane walks its own sequence of grids, and the attempt
//! counter ends at the number of attempts made.
//!
//! A schedule names, attempt by attempt, the lane that makes it. Every
//! attempt adds one to the counter and moves the grid of its lane once.

use vstd::prelude::*;
use crate::enumerator::{advance, advanced};
use crate::enumerator::lemma_advanced_once_more;

verus! {

/// How many attempts of `schedule` are made by `lane`.
pub open spec fn turns_of(schedule: Seq<int>, lane: int) -> nat
    decreases schedule.len(),
{
    if schedule.len() == 0 {
        0
    } else {
        let last: nat = if schedule.last() == lane {
            1
        } else {
            0
        };
        turns_of(schedule.drop_last(), lane) + last
    }
}

/// The attempt counter after the attempts of `schedule`, from 0: every
/// attempt adds one.
pub open spec fn counter_after(schedule: Seq<int>) -> nat
    decreases schedule.len(),
{
    if schedule.len() == 0 {
        0
    } else {
        counter_after(schedule.drop_last()) + 1
    }
}

/// The grids of the lanes after the attempts of `schedule`: every attempt
/// calls the enumerator once on the grid of its lane.
pub open spec fn grids_after(lanes: Seq<Seq<nat>>, schedule: Seq<int>) -> Seq<Seq<nat>>
    decreases schedule.len(),
{
    if schedule.len() == 0 {
        lanes
    } else {
        let before = grids_after(lanes, schedule.drop_last());
        let lane = schedule.last();
        if 0 <= lane < before.len() {
            before.update(lane, advance(before[lane]).0)
        } else {
            before
        }
    }
}

/// Every attempt of `schedule` is made by one of `lanes` lanes.
pub open spec fn schedule_of(schedule: Seq<int>, lanes: nat) -> bool {
    forall|k: int| 0 <= k < schedule.len() ==> 0 <= #[trigger] schedule[k] < lanes
}

/// The turns of the first `lanes` lanes, added up.
pub open spec fn turns_of_all(schedule: Seq<int>, lanes: nat) -> nat
    decreases lanes,
{
    if lanes == 0 {
        0
    } else {
        turns_of_all(schedule, (lanes - 1) as nat) + turns_of(schedule, lanes - 1)
    }
}

/// One more attempt adds one turn to the lanes that include its lane.
proof fn lemma_one_more_turn(schedule: Seq<int>, lanes: nat)
    requires
        schedule.len() > 0,
    ensures
        turns_of_all(schedule, lanes) == turns_of_all(schedule.drop_last(), lanes) + if 0
            <= schedule.last() < lanes {
            1nat
        } else {
            0nat
        },
    decreases lanes,
{
    if lanes > 0 {
        lemma_one_more_turn(schedule, (lanes - 1) as nat);
    }
}

/// The turns of all lanes add up to the number of attempts.
proof fn lemma_turns_add_up(schedule: Seq<int>, lanes: nat)
    requires
        schedule_of(schedule, lanes),
    ensures
        turns_of_all(schedule, lanes) == schedule.len(),
    decreases schedule.len(),
{
    if schedule.len() == 0 {
        lemma_no_turns(schedule, lanes);
    } else {
        let earlier = schedule.drop_last();
        assert forall|k: int| 0 <= k < earlier.len() implies 0 <= #[trigger] earlier[k] < lanes by {
            assert(earlier[k] == schedule[k]);
        }
        lemma_turns_add_up(earlier, lanes);
        lemma_one_more_turn(schedule, lanes);
        assert(0 <= schedule[schedule.len() - 1] < lanes);
    }
}

/// An empty schedule gives no lane a turn.
proof fn lemma_no_turns(schedule: Seq<int>, lanes: nat)
    requires
        schedule.len() == 0,
    ensures
        turns_of_all(schedule, lanes) == 0,
    decreases lanes,
{
    if lanes > 0 {
        lemma_no_turns(schedule, (lanes - 1) as nat);
    }
}

/// Lanes with `steps` turns each have `steps` turns per lane in total.
proof fn lemma_equal_turns(schedule: Seq<int>, lanes: nat, steps: nat)
    requires
        forall|i: int| 0 <= i < lanes ==> turns_of(schedule, i) == steps,
    ensures
        turns_of_all(schedule, lanes) == lanes * steps,
    decreases lanes,
{
    if lanes > 0 {
        let fewer = (lanes - 1) as nat;
        lemma_equal_turns(schedule, fewer, steps);
        assert(turns_of(schedule, lanes - 1) == steps);
        assert(lanes * steps == fewer * steps + steps) by (nonlinear_arith)
            requires
                lanes == fewer + 1,
        ;
    } else {
        assert(lanes * steps == 0) by (nonlinear_arith)
            requires
                lanes == 0,
        ;
    }
}

/// The counter ends at the number of attempts.
pub proof fn lemma_counter_counts_attempts(schedule: Seq<int>)
    ensures
        counter_after(schedule) == schedule.len(),
    decreases schedule.len(),
{
    if schedule.len() > 0 {
        lemma_counter_counts_attempts(schedule.drop_last());
    }
}

/// Whatever the order of the attempts, the grid of a lane is the grid that
/// as many calls of the enumerator as the lane had turns make of its first
/// grid.
pub proof fn lemma_lanes_are_independent(lanes: Seq<Seq<nat>>, schedule: Seq<int>, lane: int)
    requires
        0 <= lane < lanes.len(),
    ensures
        grids_after(lanes, schedule).len() == lanes.len(),
        grids_after(lanes, schedule)[lane] == advanced(lanes[lane], turns_of(schedule, lane)),
    decreases schedule.len(),
{
    if schedule.len() == 0 {
        assert(advanced(lanes[lane], 0) == lanes[lane]);
    } else {
        let earlier = schedule.drop_last();
        lemma_lanes_are_independent(lanes, earlier, lane);
        if schedule.last() == lane {
            lemma_advanced_once_more(lanes[lane], turns_of(earlier, lane));
        }
    }
}

/// When `lanes.len()` lanes make `steps` attempts each, in any order, the
/// counter ends at `lanes.len() * steps`, and every lane has called the
/// enumerator `steps` times on its own grid.
pub proof fn lemma_attempts_in_any_order(lanes: Seq<Seq<nat>>, schedule: Seq<int>, steps: nat)
    requires
        schedule_of(schedule, lanes.len()),
        forall|i: int| 0 <= i < lanes.len() ==> turns_of(schedule, i) == steps,
    ensures
        counter_after(schedule) == lanes.len() * steps,
        grids_after(lanes, schedule).len() == lanes.len(),
        forall|i: int|
            0 <= i < lanes.len() ==> #[trigger] grids_after(lanes, schedule)[i] == advanced(
                lanes[i],
                steps,
            ),
{
    lemma_counter_counts_attempts(schedule);
    lemma_turns_add_up(schedule, lanes.len());
    lemma_equal_turns(schedule, lanes.len(), steps);
    assert forall|i: int| 0 <= i < lanes.len() implies #[trigger] grids_after(lanes, schedule)[i]
        == advanced(lanes[i], steps) by {
        lemma_lanes_are_independent(lanes, schedule, i);
    }
    if lanes.len() > 0 {
        lemma_lanes_are_independent(lanes, schedule, 0);
    } else {
        lemma_no_lanes(lanes, schedule);
    }
}

/// Without lanes no attempt changes anything.
proof fn lemma_no_lanes(lanes: Seq<Seq<nat>>, schedule: Seq<int>)
    requires
        lanes.len() == 0,
    ensures
        grids_after(lanes, schedule).len() == 0,
    decreases schedule.len(),
{
    if schedule.len() > 0 {
        lemma_no_lanes(lanes, schedule.drop_last());
    }
}

} // verus!
