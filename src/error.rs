//! The ways a query or a build step can be refused.

use vstd::prelude::*;

verus! {

/// Why an operation was refused.
#[derive(Debug, Clone, Copy, PartialEq, Eq, Structural)]
pub enum BitIndexError {
    /// A rank was asked past the end of the sequence.
    OutOfRange,
    /// No set bit has the requested 1-based number.
    SelectOutOfRange,
    /// A position lies outside the sequence.
    InvalidPosition,
    /// A position does not come after every position appended before it.
    PositionNotIncreasing,
    /// Presence bits and values that do not belong together: the number of
    /// set bits differs from the number of values.
    MismatchedParts,
}

} // verus!
