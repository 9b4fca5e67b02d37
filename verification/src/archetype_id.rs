use crate::fnv1a::fnv1a_of_ids;
use vstd::prelude::*;

verus! {

/// The canonical 64-bit identity of an archetype: a hash of its sorted
/// component type ids.
#[derive(Clone, Copy, Debug, PartialEq, Eq, Structural, Hash)]
pub struct ArchetypeId {
    value: u64,
}

impl View for ArchetypeId {
    type V = u64;

    closed spec fn view(&self) -> u64 {
        self.value
    }
}

/// The identity that a sequence of component type ids hashes to.
pub open spec fn archetype_id_of(ids: Seq<u16>) -> u64 {
    fnv1a_of_ids(ids)
}

impl ArchetypeId {
    /// Wraps a raw identity.
    pub fn from_u64(value: u64) -> (id: ArchetypeId)
        ensures
            id@ == value,
    {
        ArchetypeId { value }
    }

    /// The raw identity.
    pub fn into_u64(self) -> (value: u64)
        ensures
            value == self@,
    {
        self.value
    }

    /// Two identities with the same raw value are the same identity.
    pub proof fn lemma_view_injective(a: ArchetypeId, b: ArchetypeId)
        ensures
            a@ == b@ <==> a == b,
    {
    }
}

} // verus!
