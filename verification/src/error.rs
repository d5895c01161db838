//! Typed errors for reference resolution and value marshaling.
//!
//! Every resolution operation returns one of these to its immediate caller;
//! nothing in this crate panics for an expected condition.

use vstd::prelude::*;

verus! {

/// Why a reference operation failed.
#[derive(Clone, Copy, PartialEq, Eq, Structural, Debug)]
pub enum InteropError {
    /// The referenced arena slot was collected or never existed.
    StaleAllocation,
    /// A claim was denied because an incompatible claim is outstanding.
    AccessConflict,
    /// The root type carries no registry entry, so the base cannot be
    /// resolved through the host graph.
    UnregisteredBase,
    /// A path segment does not apply to the value found at that point:
    /// wrong shape, out-of-range index, or unknown field or key.
    PathError,
    /// A forced downcast target does not match the resolved value's
    /// runtime type.
    TypeMismatch,
    /// No host value can be produced for a given script value under the
    /// target type hint.
    ImpossibleConversion,
}

} // verus!
