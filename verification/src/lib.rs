//! Exhaustive, resumable search for 3x3 grids of distinct positive integers
//! whose element-wise squares form a magic square.

pub mod arrangement;
pub mod checkpoint;
pub mod enumerator;
pub mod lane;
pub mod progress;
pub mod schedule;
pub mod square;
