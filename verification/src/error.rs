//! The failures that matrix operations report.

use vstd::prelude::*;

verus! {

/// Why an operation refused its arguments.
#[derive(Clone, Copy, Debug, PartialEq, Eq, Structural)]
pub enum MatrixError {
    /// The shapes of the operands, or a shape and a buffer length, do not fit
    /// together.
    DimensionMismatch,
    /// A key array is not strictly ascending, or holds a key outside the matrix.
    UnorderedKeys,
    /// The result would have more cells than `usize` can index.
    TooLarge,
    /// An iteration used up its budget of steps before it settled.
    DidNotConverge,
}

} // verus!
