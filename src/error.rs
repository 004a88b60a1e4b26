//! Failures that a simulation can report.

use vstd::prelude::*;

verus! {

/// The kinds of failure a simulation reports to its caller.
#[derive(PartialEq, Eq, Structural, Debug, Clone, Copy)]
pub enum SimError {
    /// Malformed or out-of-bounds grid or passenger input.
    Configuration,
    /// An attempt to place a passenger on a tile that already holds one.
    OccupancyConflict,
    /// A move whose destination lies outside the grid.
    ImpossibleMove,
    /// The tick bound ran out before every passenger was seated.
    NonTermination,
}

} // verus!
