use magicsquare::checkpoint::State;
use magicsquare::checkpoint::{default_state, restore_state};
use magicsquare::enumerator::add_one;
use magicsquare::square::Square;

const MINIMUM: [[usize; 3]; 3] = [[9, 8, 7], [6, 5, 4], [3, 2, 1]];

fn state_of(grids: &[[[usize; 3]; 3]]) -> State {
    State { state: grids.iter().map(|rows| Square { data: *rows }).collect() }
}

#[test]
fn default_state_has_every_lane_at_the_minimum() {
    let state = default_state(5);
    assert_eq!(state.state.len(), 5);
    for square in state.state.iter() {
        assert_eq!(square.data, MINIMUM);
    }
    assert!(state.is_valid());
}

#[test]
fn default_state_of_no_lanes_is_empty() {
    assert_eq!(default_state(0).state.len(), 0);
}

#[test]
fn missing_checkpoint_falls_back_to_the_default() {
    let state = restore_state(None, 3);
    assert_eq!(state, state_of(&[MINIMUM, MINIMUM, MINIMUM]));
}

#[test]
fn loaded_state_is_restored_as_it_is() {
    let mut state = default_state(2);
    for _ in 0..123 {
        add_one(&mut state.state[0]);
    }
    for _ in 0..4_567 {
        add_one(&mut state.state[1]);
    }
    let restored = restore_state(Some(state.clone()), 2);
    assert_eq!(restored, state);
}

#[test]
fn loaded_state_keeps_its_own_number_of_lanes() {
    let state = state_of(&[[[10, 8, 7], [6, 5, 4], [3, 2, 1]]]);
    let restored = restore_state(Some(state.clone()), 8);
    assert_eq!(restored, state);
    let none = state_of(&[]);
    assert_eq!(restore_state(Some(none.clone()), 8), none);
}

#[test]
fn partly_filled_grid_is_restored() {
    let state = state_of(&[[[0, 42, 0], [0, 0, 0], [0, 0, 0]]]);
    assert_eq!(restore_state(Some(state.clone()), 1), state);
}

#[test]
fn cell_out_of_range_falls_back_to_the_default() {
    let state = state_of(&[MINIMUM, [[101, 8, 7], [6, 5, 4], [3, 2, 1]]]);
    assert!(!state.is_valid());
    assert_eq!(restore_state(Some(state), 2), state_of(&[MINIMUM, MINIMUM]));
}

#[test]
fn repeated_value_falls_back_to_the_default() {
    let state = state_of(&[[[9, 8, 7], [6, 5, 4], [3, 2, 9]]]);
    assert!(!state.is_valid());
    assert_eq!(restore_state(Some(state), 4), default_state(4));
}

#[test]
fn restored_state_goes_on_with_the_same_sequence() {
    let mut running = default_state(1);
    for _ in 0..500 {
        add_one(&mut running.state[0]);
    }
    let mut restored = restore_state(Some(running.clone()), 1);
    for _ in 0..500 {
        add_one(&mut running.state[0]);
        add_one(&mut restored.state[0]);
    }
    assert_eq!(restored, running);
}
