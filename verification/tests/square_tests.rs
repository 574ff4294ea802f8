use magicsquare::square::reset_to_minimum;
use magicsquare::square::Square;
use magicsquare::square::{MAX_VALUE, SIZE};

fn grid(rows: [[usize; 3]; 3]) -> Square {
    let mut square = Square::new();
    for x in 0..3 {
        for y in 0..3 {
            square.set(x, y, rows[x][y]);
        }
    }
    square
}

#[test]
fn test_is_magic() {
    let mut square = Square::new();
    square.set(0, 0, 4);
    square.set(0, 1, 9);
    square.set(0, 2, 2);
    square.set(1, 0, 3);
    square.set(1, 1, 5);
    square.set(1, 2, 7);
    square.set(2, 0, 8);
    square.set(2, 1, 1);
    square.set(2, 2, 6);
    assert!(square.is_magic())
}

#[test]
fn test_serialization() {
    let mut square = Square::new();
    square.data[0][1] = 42;
    let serialized = serde_json::to_string(&square.data).unwrap();
    println!("Serialized {:?} or {}", square, serialized);
    let deserialized = Square { data: serde_json::from_str(&serialized).unwrap() };
    println!("Deserialized {:?} or {:?}", square, deserialized);
    let serialized2 = serde_json::to_string(&deserialized.data).unwrap();
    assert_eq!(serialized, serialized2);
    assert_eq!(serialized, "[[0,42,0],[0,0,0],[0,0,0]]");
    assert_eq!(deserialized, square);
}

#[test]
fn constants_have_their_values() {
    assert_eq!(SIZE, 3);
    assert_eq!(MAX_VALUE, 100);
}

#[test]
fn new_square_is_unset() {
    let square = Square::new();
    assert_eq!(square.data, [[0, 0, 0], [0, 0, 0], [0, 0, 0]]);
    assert_eq!(Square::empty(), [[0, 0, 0], [0, 0, 0], [0, 0, 0]]);
}

#[test]
fn set_changes_one_cell_and_get_reads_it() {
    let mut square = grid([[1, 2, 3], [4, 5, 6], [7, 8, 9]]);
    square.set(1, 2, 60);
    assert_eq!(square.data, [[1, 2, 3], [4, 5, 60], [7, 8, 9]]);
    assert_eq!(square.get(1, 2), 60);
    assert_eq!(square.get(2, 1), 8);
    assert_eq!(square.get(0, 0), 1);
}

#[test]
fn contains_scans_all_nine_cells() {
    let square = grid([[11, 12, 13], [14, 15, 16], [17, 18, 19]]);
    for value in 11..=19 {
        assert!(square.contains(value));
    }
    assert!(!square.contains(10));
    assert!(!square.contains(20));
    assert!(!square.contains(0));
}

#[test]
fn unset_cells_match_no_candidate() {
    let square = Square::new();
    for value in 1..=MAX_VALUE {
        assert!(!square.contains(value));
    }
    assert!(square.contains(0));
}

#[test]
fn power_of_2_squares_every_cell() {
    let mut square = grid([[1, 2, 3], [4, 5, 6], [7, 8, 100]]);
    square.power_of_2();
    assert_eq!(square.data, [[1, 4, 9], [16, 25, 36], [49, 64, 10000]]);
}

#[test]
fn squared_copy_leaves_the_source_alone() {
    let square = grid([[9, 8, 7], [6, 5, 4], [3, 2, 1]]);
    let copy = square.squared_copy();
    assert_eq!(copy.data, [[81, 64, 49], [36, 25, 16], [9, 4, 1]]);
    assert_eq!(square.data, [[9, 8, 7], [6, 5, 4], [3, 2, 1]]);
}

#[test]
fn lo_shu_sums_are_fifteen() {
    let square = grid([[4, 9, 2], [3, 5, 7], [8, 1, 6]]);
    for x in 0..3 {
        assert_eq!(square.get(x, 0) + square.get(x, 1) + square.get(x, 2), 15);
        assert_eq!(square.get(0, x) + square.get(1, x) + square.get(2, x), 15);
    }
    assert_eq!(square.get(0, 0) + square.get(1, 1) + square.get(2, 2), 15);
    assert_eq!(square.get(0, 2) + square.get(1, 1) + square.get(2, 0), 15);
    assert!(square.is_magic());
}

#[test]
fn squares_of_lo_shu_are_not_magic() {
    let square = grid([[4, 9, 2], [3, 5, 7], [8, 1, 6]]);
    assert!(!square.squared_copy().is_magic());
}

#[test]
fn unequal_row_sums_are_not_magic() {
    assert!(!grid([[4, 9, 2], [3, 5, 7], [8, 1, 7]]).is_magic());
    assert!(!grid([[5, 9, 2], [3, 5, 7], [8, 1, 6]]).is_magic());
    assert!(!grid([[9, 8, 7], [6, 5, 4], [3, 2, 1]]).is_magic());
    assert!(!grid([[1, 2, 3], [4, 5, 6], [7, 8, 9]]).is_magic());
}

#[test]
fn equal_rows_with_unequal_columns_are_not_magic() {
    assert!(!grid([[1, 2, 3], [1, 2, 3], [1, 2, 3]]).is_magic());
}

#[test]
fn equal_rows_and_columns_with_a_wrong_diagonal_are_not_magic() {
    assert!(!grid([[1, 2, 3], [3, 1, 2], [2, 3, 1]]).is_magic());
    assert!(!grid([[2, 3, 1], [3, 1, 2], [1, 2, 3]]).is_magic());
}

#[test]
fn empty_first_row_and_column_do_not_excuse_the_rest() {
    assert!(!grid([[0, 0, 0], [0, 1, 1], [0, 1, 1]]).is_magic());
    assert!(!grid([[0, 0, 0], [0, 0, 0], [0, 0, 5]]).is_magic());
}

#[test]
fn constant_grids_are_magic() {
    assert!(Square::new().is_magic());
    assert!(grid([[5, 5, 5], [5, 5, 5], [5, 5, 5]]).is_magic());
}

#[test]
fn squared_copy_can_be_magic() {
    let square = grid([[1, 7, 5], [7, 5, 1], [5, 1, 7]]);
    assert!(!square.is_magic());
    let copy = square.squared_copy();
    assert_eq!(copy.data, [[1, 49, 25], [49, 25, 1], [25, 1, 49]]);
    assert!(copy.is_magic());
}

#[test]
fn is_magic_takes_cells_of_any_size() {
    let big = usize::MAX;
    assert!(grid([[big, big, big], [big, big, big], [big, big, big]]).is_magic());
    assert!(!grid([[big, big, big], [big, big, big], [big, big, big - 1]]).is_magic());
}

#[test]
fn reset_to_minimum_fills_nine_down_to_one() {
    let mut square = grid([[40, 41, 42], [43, 44, 45], [46, 47, 48]]);
    reset_to_minimum(&mut square);
    assert_eq!(square.data, [[9, 8, 7], [6, 5, 4], [3, 2, 1]]);
    assert!(square.is_well_formed());
}

#[test]
fn well_formed_grids_are_in_range_with_distinct_assigned_cells() {
    assert!(Square::new().is_well_formed());
    assert!(grid([[0, 42, 0], [0, 0, 0], [0, 0, 0]]).is_well_formed());
    assert!(grid([[100, 99, 98], [97, 96, 95], [94, 93, 92]]).is_well_formed());
    assert!(!grid([[101, 99, 98], [97, 96, 95], [94, 93, 92]]).is_well_formed());
    assert!(!grid([[1, 2, 3], [4, 5, 6], [7, 8, 1]]).is_well_formed());
    assert!(!grid([[0, 0, 3], [4, 5, 6], [7, 3, 0]]).is_well_formed());
    assert!(!grid([[5, 5, 5], [5, 5, 5], [5, 5, 5]]).is_well_formed());
}
