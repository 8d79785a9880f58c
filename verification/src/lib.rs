//! Puzzle solvers for a collection of grid and sequence puzzles.
//!
//! The heart of the crate is a labeled-waypoint collection-tour solver: over
//! a weighted waypoint graph with a start waypoint, it computes the
//! minimum-length closed walk that starts at the start waypoint, collects
//! every waypoint label, and returns to start.  The search runs over
//! (waypoint, collected-set) states in a bucketed work queue keyed by total
//! distance; the grid module gives the breadth-first reachability model that
//! edge distances of such graphs are stated in.  The remaining modules hold
//! smaller, independent puzzle solvers.

pub mod day_01;
pub mod day_02;
pub mod day_04;
pub mod day_05;
pub mod day_06;
pub mod day_07;
pub mod day_11;
pub mod day_16;
pub mod errors;
pub mod grid;
pub mod tour;
