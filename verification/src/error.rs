use vstd::prelude::*;

verus! {

/// Why the storage refused an operation.
#[derive(Clone, Copy, Debug, PartialEq, Eq, Structural, Hash)]
pub enum StorageError {
    /// The archetype cannot hold as many rows as were asked for.
    CapacityExhausted,
}

} // verus!
