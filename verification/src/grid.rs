//! The integer grid on which the line is laid out.

use vstd::prelude::*;

verus! {

/// Number of ticks between the two ends of the line. Callers give the
/// starting positions in ticks, from `0` (low end) to `RESOLUTION` (high end).
pub const RESOLUTION: u64 = 1_000_000_000;

/// Length of the line in half-ticks, the unit in which an ensemble keeps
/// positions, gaps and the distance walked. Two ants that start on ticks meet
/// on a half-tick, so in this unit every event falls on the grid.
pub const SPAN: u64 = 2_000_000_000;

/// Time units that pass while an ant walks one half-tick, unless the caller
/// chooses another factor.
pub const DEFAULT_TIME_FACTOR: u32 = 100;

} // verus!
