use crate::fnv1a::{fnv1a_fold, fnv1a_hash_bytes, FNV_OFFSET_BASIS};
use vstd::prelude::*;
use vstd::string::StringSliceAdditionalSpecFns;

verus! {

/// The stable 16-bit identity of one component type.
#[derive(Clone, Copy, Debug, PartialEq, Eq, Structural, Hash)]
pub struct ComponentTypeId {
    value: u16,
}

impl View for ComponentTypeId {
    type V = u16;

    closed spec fn view(&self) -> u16 {
        self.value
    }
}

impl ComponentTypeId {
    /// Wraps a raw identifier.
    pub fn from_u16(value: u16) -> (id: ComponentTypeId)
        ensures
            id@ == value,
    {
        ComponentTypeId { value }
    }

    /// The raw identifier.
    pub fn into_u16(self) -> (value: u16)
        ensures
            value == self@,
    {
        self.value
    }

    /// Two identities with the same raw value are the same identity.
    pub proof fn lemma_view_injective(a: ComponentTypeId, b: ComponentTypeId)
        ensures
            a@ == b@ <==> a == b,
    {
    }
}

/// Folds a 64-bit hash to 16 bits: the exclusive or of its four 16-bit parts.
pub open spec fn fold_to_u16(hash: u64) -> u16 {
    (((hash >> 48) ^ (hash >> 32) ^ (hash >> 16) ^ hash) & 0xffff) as u16
}

impl ComponentTypeId {
    /// The identity of the component type with the given fully qualified
    /// name: the FNV-1a hash of the name's bytes, folded to 16 bits.
    pub fn from_name(name: &str) -> (id: ComponentTypeId)
        ensures
            id@ == fold_to_u16(fnv1a_fold(FNV_OFFSET_BASIS, name.spec_bytes())),
    {
        let hash = fnv1a_hash_bytes(name.as_bytes());
        let folded: u64 = ((hash >> 48) ^ (hash >> 32) ^ (hash >> 16) ^ hash) & 0xffff;
        assert(folded <= 0xffff) by (bit_vector)
            requires
                folded == ((hash >> 48) ^ (hash >> 32) ^ (hash >> 16) ^ hash) & 0xffff,
        ;
        ComponentTypeId { value: folded as u16 }
    }
}

} // verus!
