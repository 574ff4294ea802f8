//! The checkpointed state: the current grid of every lane, in lane order.
//!
//! Reading and writing the checkpoint file is left to the caller. What was
//! read, if anything, is handed to `restore_state`, which decides between it
//! and the default state.

use vstd::prelude::*;
use crate::square::Square;
use crate::square::reset_to_minimum;
use crate::square::{minimum_cells, well_formed};

verus! {

/// The grids of all lanes, in lane order.
#[derive(Clone, Debug, PartialEq, Eq)]
pub struct State {
    pub state: Vec<Square>,
}

impl View for State {
    type V = Seq<Seq<nat>>;

    /// The cells of each lane's grid, in lane order.
    open spec fn view(&self) -> Seq<Seq<nat>> {
        Seq::new(self.state@.len(), |i: int| self.state@[i]@)
    }
}

/// Every lane's grid is well formed.
pub open spec fn valid_lanes(lanes: Seq<Seq<nat>>) -> bool {
    forall|i: int| 0 <= i < lanes.len() ==> well_formed(#[trigger] lanes[i])
}

/// `max` lanes, each at the starting grid.
pub open spec fn default_lanes(max: nat) -> Seq<Seq<nat>> {
    Seq::new(max, |i: int| minimum_cells())
}

/// The lanes to start from: those that were loaded, if any were and all of
/// them are well formed, else `max` lanes at the starting grid.
pub open spec fn restored_lanes(loaded: Option<Seq<Seq<nat>>>, max: nat) -> Seq<Seq<nat>> {
    match loaded {
        Some(lanes) => if valid_lanes(lanes) {
            lanes
        } else {
            default_lanes(max)
        },
        None => default_lanes(max),
    }
}

impl State {
    /// Whether every lane's grid is well formed.
    pub fn is_valid(&self) -> (ok: bool)
        ensures
            ok == valid_lanes(self@),
    {
        let mut i: usize = 0;
        while i < self.state.len()
            invariant
                i <= self.state.len(),
                forall|k: int| 0 <= k < i ==> well_formed(#[trigger] self@[k]),
            decreases self.state.len() - i,
        {
            if !self.state[i].is_well_formed() {
                assert(!well_formed(self@[i as int]));
                return false;
            }
            i += 1;
        }
        true
    }
}

/// The state of a fresh search: `max` lanes, each at the starting grid.
pub fn default_state(max: usize) -> (state: State)
    ensures
        state@ == default_lanes(max as nat),
        valid_lanes(state@),
{
    let mut vec: Vec<Square> = Vec::new();
    for i in 0..max
        invariant
            vec@.len() == i,
            forall|k: int| 0 <= k < i ==> (#[trigger] vec@[k])@ == minimum_cells(),
    {
        let mut square = Square::new();
        reset_to_minimum(&mut square);
        vec.push(square);
    }
    let state = State { state: vec };
    assert(state@ =~= default_lanes(max as nat));
    state
}

/// The state to start from. `loaded` is what was read from the checkpoint,
/// or `None` where reading or parsing it failed.
///
/// A loaded state is taken as it is, with the number of lanes it has, if
/// every grid in it is well formed. In every other case the result is the
/// default state of `max` lanes.
pub fn restore_state(loaded: Option<State>, max: usize) -> (state: State)
    ensures
        state@ == restored_lanes(
            match loaded {
                Some(found) => Some(found@),
                None => None,
            },
            max as nat,
        ),
        valid_lanes(state@),
{
    match loaded {
        Some(found) => {
            if found.is_valid() {
                found
            } else {
                default_state(max)
            }
        },
        None => default_state(max),
    }
}

} // verus!
