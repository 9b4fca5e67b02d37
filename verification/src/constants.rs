use vstd::prelude::*;

verus! {

/// The largest number of component types a single entity may carry.
pub const MAX_COMPONENTS_PER_ENTITY: usize = 14;

/// The largest number of archetypes a registry may hold; indices fit in `u16`.
pub const MAX_ARCHETYPE_COUNT: usize = 65535;

/// Exclusive upper bound on the row capacity of one archetype.
pub const MAX_ENTITIES_PER_ARCHETYPE: usize = 16777216;

/// The row capacity an archetype allocates first, and the least amount it grows by.
pub const DEFAULT_ARCHETYPE_ALLOCATION_SIZE: usize = 64;

} // verus!
