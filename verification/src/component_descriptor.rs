use crate::component_type_id::ComponentTypeId;
use vstd::prelude::*;

verus! {

/// Identity and memory layout of one component type.
///
/// A descriptor is a plain value: it never changes after it is made, and
/// copying it is cheap.
#[derive(Clone, Copy, Debug, PartialEq, Eq, Structural, Hash)]
pub struct ComponentDescriptor {
    pub component_type_id: ComponentTypeId,
    pub size: u16,
    pub align: u16,
}

impl ComponentDescriptor {
    /// Describes a component type by its identity, its size in bytes and its alignment in bytes.
    pub fn new(
        component_type_id: ComponentTypeId,
        size: u16,
        align: u16,
    ) -> (descriptor: ComponentDescriptor)
        ensures
            descriptor.component_type_id == component_type_id,
            descriptor.size == size,
            descriptor.align == align,
    {
        ComponentDescriptor { component_type_id, size, align }
    }

    /// The raw identifier of the described component type.
    pub open spec fn id(self) -> u16 {
        self.component_type_id@
    }
}

} // verus!
