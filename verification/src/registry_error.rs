//! Error values returned by the store.

use vstd::prelude::*;

verus! {

/// Failure of a sparse-set operation.
#[derive(Clone, Copy, Debug, PartialEq, Eq, Structural)]
pub enum SparseSetError {
    /// The entity has no entry in this set.
    InvalidPosition,
}

/// Failure of a registry operation.
#[derive(Clone, Copy, Debug, PartialEq, Eq, Structural)]
pub enum RegistryError {
    /// The handle is stale, out of range, or otherwise does not name a live entity.
    NoSuchEntity,
    /// The component kind was never registered.
    NoSuchComponentSet,
    /// The index bit-width or the configured component-kind limit is exhausted.
    CapacityExceeded,
    /// A sparse-set operation underneath the registry failed.
    SparseSet(SparseSetError),
}

} // verus!
