use vstd::prelude::*;

pub mod bitrev;
pub mod backend;
pub mod poly;
pub mod fk20;
pub mod recover;
pub mod verify;
pub mod das;
pub mod laws;

verus! {

/// What went wrong in a data-availability operation.
#[derive(Debug, Clone, Copy, PartialEq, Eq, Structural)]
pub enum DasError {
    /// A buffer's length does not match the preset, or the lengths of inputs differ.
    InvalidLength,
    /// A cell index is not below the number of cells of an extended blob.
    InvalidIndex,
    /// Two provided cells target the same index.
    DuplicateIndex,
    /// Recovery was asked with fewer than half of the cells.
    InsufficientCells,
    /// A commitment or proof is not in the prime-order subgroup.
    InvalidPoint,
    /// A division by zero.
    ArithmeticFailure,
    /// An input that must not be empty was empty.
    EmptyInput,
}

} // verus!
