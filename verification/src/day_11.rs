//! A puzzle slot left unsolved: parsing succeeds, every part reports no
//! solution.

use vstd::prelude::*;

use crate::errors::SolveError;

verus! {

/// Placeholder solver for an unsolved puzzle.
pub struct Day11 {}

impl Day11 {
    pub fn new() -> (r: Self) {
        Day11 {  }
    }

    /// Every part of this puzzle is unsolved.
    pub fn run_part(&self, part: u8) -> (r: Result<u64, SolveError>)
        ensures
            r == Err::<u64, SolveError>(SolveError::Unsolved),
    {
        let _ = part;
        Err(SolveError::Unsolved)
    }
}

} // verus!
