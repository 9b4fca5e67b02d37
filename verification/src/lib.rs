//! Archetype-based entity–component storage with verified contracts.
//!
//! Entities that carry the same set of component types share one archetype:
//! a table with one byte column per component type and one row per entity.
//! A registry catalogues the archetypes by the canonical identity of their
//! component sets.
//!
//! The library stores components as bytes. A component type is known by its
//! [`ComponentDescriptor`]; a set of component types by its canonical
//! [`ArchetypeDescriptor`], whatever the order in which the types were
//! listed; and a list of component types in a caller's own order by a
//! [`ComponentGroupDescriptor`], which maps that order to the columns of
//! the archetype. An [`Archetype`] holds the rows, and an
//! [`ArchetypeRegistry`] finds, makes and lends archetypes.
//!
//! Destructors are not run by the library: where an entity is dropped, the
//! calls that are owed are returned as [`DropCall`]s.

pub mod archetype;
pub mod archetype_descriptor;
pub mod archetype_id;
pub mod archetype_registry;
pub mod component_descriptor;
pub mod component_group;
pub mod component_group_descriptor;
pub mod component_type_id;
pub mod constants;
pub mod entity;
pub mod error;
pub mod fnv1a;

pub use archetype::metadata::EntityMetadata;
pub use archetype::{Archetype, DropCall};
pub use archetype_descriptor::ArchetypeDescriptor;
pub use archetype_id::ArchetypeId;
pub use archetype_registry::ArchetypeRegistry;
pub use component_descriptor::ComponentDescriptor;
pub use component_group::ComponentGroup;
pub use component_group_descriptor::ComponentGroupDescriptor;
pub use component_type_id::ComponentTypeId;
pub use constants::{
    DEFAULT_ARCHETYPE_ALLOCATION_SIZE, MAX_ARCHETYPE_COUNT, MAX_COMPONENTS_PER_ENTITY,
    MAX_ENTITIES_PER_ARCHETYPE,
};
pub use entity::Entity;
pub use error::StorageError;
