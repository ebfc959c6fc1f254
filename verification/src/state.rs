//! The three-valued lithology state of a grid cell, and the error type of
//! the simulation's precondition checks.

use vstd::prelude::*;

verus! {

/// The state of one grid cell.
///
/// `Caprock` is an impermeable seal, `Reservoir` is permeable pore space
/// that is still empty, and `Injected` marks pore space filled by the
/// migrating fluid.
#[derive(Clone, Copy, PartialEq, Eq, Structural, Debug)]
pub enum CellState {
    Caprock,
    Reservoir,
    Injected,
}

/// Why a requested source position was rejected before the simulation
/// touched any state.
#[derive(Clone, Copy, PartialEq, Eq, Structural, Debug)]
pub enum InvalidSourceReason {
    /// The source cell is not in `Reservoir` state.
    NotReservoir,
    /// The source cell is not at the shallowest layer and the cell directly
    /// above it is not `Caprock`.
    NotBelowCaprock,
}

/// The single error kind of the simulation: the source position failed a
/// precondition check.  No mutation has happened when it is returned.
#[derive(Clone, Copy, PartialEq, Eq, Structural, Debug)]
pub enum SimError {
    InvalidSource(InvalidSourceReason),
}

impl SimError {
    /// A human-readable reason for the failure.
    pub fn message(&self) -> (r: &'static str)
        ensures
            *self == SimError::InvalidSource(InvalidSourceReason::NotReservoir)
                ==> r@ == "Source must be in reservoir"@,
            *self == SimError::InvalidSource(InvalidSourceReason::NotBelowCaprock)
                ==> r@ == "Source must be just below caprock"@,
    {
        match self {
            SimError::InvalidSource(InvalidSourceReason::NotReservoir) => {
                "Source must be in reservoir"
            },
            SimError::InvalidSource(InvalidSourceReason::NotBelowCaprock) => {
                "Source must be just below caprock"
            },
        }
    }
}

} // verus!
