use crate::entity::Entity;
use vstd::prelude::*;

verus! {

/// The bookkeeping that an archetype keeps for each row: the handle of the
/// entity that lives there.
#[derive(Clone, Copy, Debug, PartialEq, Eq, Structural, Hash)]
pub struct EntityMetadata {
    entity: Entity,
}

impl EntityMetadata {
    /// The entity recorded for the row.
    pub closed spec fn spec_entity(self) -> Entity {
        self.entity
    }

    /// The bookkeeping of the row in which `entity` lives.
    pub fn new(entity: Entity) -> (metadata: EntityMetadata)
        ensures
            metadata.spec_entity() == entity,
    {
        EntityMetadata { entity }
    }

    /// The entity recorded for the row.
    #[verifier::when_used_as_spec(spec_entity)]
    pub fn entity(self) -> (entity: Entity)
        ensures
            entity == self.spec_entity(),
    {
        self.entity
    }
}

impl Default for EntityMetadata {
    /// The bookkeeping of a row that no entity has taken yet.
    fn default() -> (metadata: EntityMetadata)
        ensures
            metadata.spec_entity()@ == 0,
    {
        EntityMetadata { entity: Entity::from_raw(0) }
    }
}

} // verus!
