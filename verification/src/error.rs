//! Errors reported to the caller.

use vstd::prelude::*;

verus! {

/// Why a set of starting positions and directions was turned down.
#[derive(Clone, Copy, Debug, PartialEq, Eq, Structural)]
pub enum InputFault {
    /// There are not as many directions as positions.
    LengthMismatch,
    /// A position lies beyond the high end of the line.
    OutOfRange,
    /// A position is lower than the one before it.
    Unordered,
}

/// What can go wrong when an ensemble is built or stepped.
#[derive(Clone, Copy, Debug, PartialEq, Eq, Structural)]
pub enum SimError {
    /// The starting positions and directions do not describe an ensemble.
    InvalidInput(InputFault),
    /// A step was asked of an ensemble that holds no ant.
    EmptyEnsemble,
}

} // verus!
