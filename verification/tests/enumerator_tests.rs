use magicsquare::enumerator::add_one;
use magicsquare::square::reset_to_minimum;
use magicsquare::square::Square;

fn from_rows(rows: [[usize; 3]; 3]) -> Square {
    Square { data: rows }
}

fn minimum() -> Square {
    let mut square = Square::new();
    reset_to_minimum(&mut square);
    square
}

fn all_cells_distinct_and_in_range(square: &Square) -> bool {
    let mut seen = [false; 101];
    for row in square.data.iter() {
        for value in row.iter() {
            if *value < 1 || *value > 100 || seen[*value] {
                return false;
            }
            seen[*value] = true;
        }
    }
    true
}

#[test]
fn first_step_from_the_minimum() {
    let mut square = minimum();
    assert!(!add_one(&mut square));
    assert_eq!(square.data, [[10, 8, 7], [6, 5, 4], [3, 2, 1]]);
}

#[test]
fn first_cell_counts_up_to_the_maximum() {
    let mut square = minimum();
    for expected in 10..=100 {
        assert!(!add_one(&mut square));
        assert_eq!(square.data, [[expected, 8, 7], [6, 5, 4], [3, 2, 1]]);
    }
}

#[test]
fn rollover_carries_into_the_next_cell() {
    let mut square = from_rows([[100, 8, 7], [6, 5, 4], [3, 2, 1]]);
    assert!(!add_one(&mut square));
    assert_eq!(square.data, [[9, 10, 7], [6, 5, 4], [3, 2, 1]]);
}

#[test]
fn values_held_by_later_cells_are_skipped() {
    let mut square = from_rows([[5, 6, 7], [8, 9, 10], [11, 12, 13]]);
    assert!(!add_one(&mut square));
    assert_eq!(square.data, [[14, 6, 7], [8, 9, 10], [11, 12, 13]]);
}

#[test]
fn carry_runs_through_several_cells() {
    let mut square = from_rows([[98, 99, 100], [1, 2, 3], [4, 5, 6]]);
    assert!(!add_one(&mut square));
    assert_eq!(square.data, [[7, 8, 9], [10, 2, 3], [4, 5, 6]]);
}

#[test]
fn unset_grid_starts_counting_at_one() {
    let mut square = Square::new();
    assert!(!add_one(&mut square));
    assert_eq!(square.data, [[1, 0, 0], [0, 0, 0], [0, 0, 0]]);
    assert!(!add_one(&mut square));
    assert_eq!(square.data, [[2, 0, 0], [0, 0, 0], [0, 0, 0]]);
}

#[test]
fn last_grid_reports_exhaustion() {
    let mut square = from_rows([[92, 93, 94], [95, 96, 97], [98, 99, 100]]);
    assert!(add_one(&mut square));
    assert_eq!(square.data, [[1, 2, 3], [4, 5, 6], [7, 8, 9]]);
}

#[test]
fn grid_before_the_last_does_not_report_exhaustion() {
    let mut square = from_rows([[91, 93, 94], [95, 96, 97], [98, 99, 100]]);
    assert!(!add_one(&mut square));
    assert_eq!(square.data, [[92, 93, 94], [95, 96, 97], [98, 99, 100]]);
    assert!(add_one(&mut square));
}

#[test]
fn cell_above_the_maximum_wraps() {
    let mut square = from_rows([[250, 8, 7], [6, 5, 4], [3, 2, 1]]);
    assert!(!add_one(&mut square));
    assert_eq!(square.data, [[9, 10, 7], [6, 5, 4], [3, 2, 1]]);
    let mut largest = from_rows([[usize::MAX, 8, 7], [6, 5, 4], [3, 2, 1]]);
    assert!(!add_one(&mut largest));
    assert_eq!(largest.data[0][0], 9);
}

#[test]
fn cells_stay_distinct_along_the_enumeration() {
    let mut square = minimum();
    for _ in 0..20_000 {
        assert!(!add_one(&mut square));
        assert!(all_cells_distinct_and_in_range(&square));
        assert!(square.is_well_formed());
    }
}

#[test]
fn enumeration_is_reproducible() {
    let mut first = minimum();
    let mut second = minimum();
    for _ in 0..5_000 {
        assert_eq!(add_one(&mut first), add_one(&mut second));
        assert_eq!(first, second);
    }
}

#[test]
fn enumeration_continues_from_a_copied_grid() {
    let mut whole = minimum();
    for _ in 0..3_000 {
        add_one(&mut whole);
    }
    let mut resumed = minimum();
    for _ in 0..1_000 {
        add_one(&mut resumed);
    }
    let mut copy = from_rows(resumed.data);
    for _ in 0..2_000 {
        add_one(&mut copy);
    }
    assert_eq!(copy, whole);
}

#[test]
fn exhaustion_is_reached_from_a_late_grid() {
    let mut square = from_rows([[80, 93, 94], [95, 96, 97], [98, 99, 100]]);
    let mut calls = 0;
    loop {
        calls += 1;
        if add_one(&mut square) {
            break;
        }
        assert!(calls < 1_000);
    }
    assert_eq!(calls, 13);
    assert_eq!(square.data, [[1, 2, 3], [4, 5, 6], [7, 8, 9]]);
}
