use vstd::prelude::*;

verus! {

/// The stable handle of one entity.
#[derive(Clone, Copy, Debug, PartialEq, Eq, Structural, Hash)]
pub struct Entity {
    handle: u32,
}

impl View for Entity {
    type V = u32;

    closed spec fn view(&self) -> u32 {
        self.handle
    }
}

impl Entity {
    /// The entity with the given raw handle.
    pub fn from_raw(handle: u32) -> (entity: Entity)
        ensures
            entity@ == handle,
    {
        Entity { handle }
    }

    /// The raw handle.
    pub fn handle(self) -> (handle: u32)
        ensures
            handle == self@,
    {
        self.handle
    }
}

} // verus!
