use magicsquare::checkpoint::default_state;
use magicsquare::enumerator::add_one;
use magicsquare::lane::{find_square_sequence, try_next};
use magicsquare::lane::{LaneReport, LaneStatus};
use magicsquare::square::reset_to_minimum;
use magicsquare::square::Square;

fn start() -> Square {
    let mut square = Square::new();
    reset_to_minimum(&mut square);
    square
}

#[test]
fn one_attempt_from_the_minimum_keeps_searching() {
    let mut square = start();
    assert_eq!(try_next(&mut square), LaneStatus::Searching);
    assert_eq!(square.data, [[10, 8, 7], [6, 5, 4], [3, 2, 1]]);
}

#[test]
fn one_attempt_from_the_last_grid_is_exhausted() {
    let mut square = Square { data: [[92, 93, 94], [95, 96, 97], [98, 99, 100]] };
    assert_eq!(try_next(&mut square), LaneStatus::Exhausted);
    assert_eq!(square.data, [[1, 2, 3], [4, 5, 6], [7, 8, 9]]);
}

#[test]
fn no_budget_means_no_attempt() {
    let mut square = start();
    let report = find_square_sequence(&mut square, 0);
    assert_eq!(report, LaneReport { tries: 0, status: LaneStatus::Searching });
    assert_eq!(square, start());
}

#[test]
fn lane_uses_up_its_budget() {
    let mut square = start();
    let report = find_square_sequence(&mut square, 250);
    assert_eq!(report, LaneReport { tries: 250, status: LaneStatus::Searching });
    let mut expected = start();
    for _ in 0..250 {
        add_one(&mut expected);
    }
    assert_eq!(square, expected);
}

#[test]
fn lane_stops_at_exhaustion() {
    let mut square = Square { data: [[91, 93, 94], [95, 96, 97], [98, 99, 100]] };
    let report = find_square_sequence(&mut square, 10);
    assert_eq!(report, LaneReport { tries: 2, status: LaneStatus::Exhausted });
    assert_eq!(square.data, [[1, 2, 3], [4, 5, 6], [7, 8, 9]]);
}

#[test]
fn exhausting_attempt_is_counted_when_it_is_the_last_of_the_budget() {
    let mut square = Square { data: [[91, 93, 94], [95, 96, 97], [98, 99, 100]] };
    let report = find_square_sequence(&mut square, 2);
    assert_eq!(report, LaneReport { tries: 2, status: LaneStatus::Exhausted });
}

#[test]
fn lane_resumes_where_it_stopped() {
    let mut whole = start();
    find_square_sequence(&mut whole, 700);
    let mut parted = start();
    let first = find_square_sequence(&mut parted, 300);
    let second = find_square_sequence(&mut parted, 400);
    assert_eq!(first.tries + second.tries, 700);
    assert_eq!(parted, whole);
}

#[test]
fn lanes_count_one_attempt_per_step() {
    let lanes: u64 = 4;
    let steps: u64 = 1_500;
    let mut state = default_state(4);
    let mut counter: u64 = 0;
    for square in state.state.iter_mut() {
        counter += find_square_sequence(square, steps).tries;
    }
    assert_eq!(counter, lanes * steps);
    assert_eq!(counter, 6_000);
}

#[test]
fn attempts_do_not_depend_on_how_lanes_take_turns() {
    let steps: u64 = 600;
    let mut in_turn = default_state(3);
    let mut counter: u64 = 0;
    for _ in 0..steps {
        for square in in_turn.state.iter_mut() {
            counter += find_square_sequence(square, 1).tries;
        }
    }
    let mut one_by_one = default_state(3);
    let mut other: u64 = 0;
    for square in one_by_one.state.iter_mut() {
        other += find_square_sequence(square, steps).tries;
    }
    assert_eq!(counter, 3 * steps);
    assert_eq!(other, counter);
    assert_eq!(in_turn, one_by_one);
}

#[test]
fn lane_keeps_its_grid_well_formed() {
    let mut square = start();
    for _ in 0..50 {
        find_square_sequence(&mut square, 97);
        assert!(square.is_well_formed());
    }
}
