use vstd::prelude::*;

verus! {

/// What went wrong in an operation of the library.
#[derive(Clone, Copy, Debug, PartialEq, Eq, Hash, Structural)]
pub enum FstError {
    /// The operand lacks a property the operation needs (e.g. it is not sorted).
    DomainMismatch,
    /// A state id that does not exist.
    InvalidState,
    /// A configuration that cannot be used.
    InvalidConfiguration,
    /// A fallible semiring operation failed.
    SemiringError,
    /// An internal invariant was violated.
    Internal,
}

} // verus!
