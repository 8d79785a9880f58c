//! Failure modes shared by the tour-solving components.

use vstd::prelude::*;

verus! {

/// Why a solve could not produce a distance.
#[derive(Clone, Copy, Debug, PartialEq, Eq, Structural)]
pub enum SolveError {
    /// The grid holds more distinct waypoint labels than the collected-set
    /// bitmask can carry.
    CapacityExceeded,
    /// The search exhausted its work queue without reaching the goal state.
    Unsolved,
    /// The grid or the region configuration is unusable: no start cell, or
    /// coordinates out of range.
    MalformedInput,
}

} // verus!
