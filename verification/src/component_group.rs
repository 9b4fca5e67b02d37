use crate::component_group_descriptor::ComponentGroupDescriptor;
use vstd::prelude::*;
use vstd::slice::slice_to_vec;

verus! {

/// The byte strings that a list of buffers holds, in the same order.
pub open spec fn bytes_of(buffers: Seq<Vec<u8>>) -> Seq<Seq<u8>> {
    Seq::new(buffers.len(), |i: int| buffers[i]@)
}

/// The values of one entity's components, as bytes, in the order in which
/// the caller lists the component types.
#[derive(Debug)]
pub struct ComponentGroup {
    descriptor: ComponentGroupDescriptor,
    values: Vec<Vec<u8>>,
}

impl ComponentGroup {
    /// The descriptor of the group's component types.
    pub closed spec fn spec_descriptor(&self) -> ComponentGroupDescriptor {
        self.descriptor
    }

    /// The component values in the caller's order.
    pub closed spec fn values(&self) -> Seq<Seq<u8>> {
        bytes_of(self.values@)
    }

    /// The component values in the order of the archetype's columns.
    pub open spec fn sorted_values(&self) -> Seq<Seq<u8>> {
        Seq::new(
            self.spec_descriptor().inverse().len(),
            |j: int| self.values()[self.spec_descriptor().inverse()[j] as int],
        )
    }

    /// The invariant of every group: a valid descriptor, and one value of
    /// the described size for each component.
    pub open spec fn wf(&self) -> bool {
        &&& self.spec_descriptor().spec_is_valid()
        &&& self.values().len() == self.spec_descriptor().declared().len()
        &&& forall|i: int|
            0 <= i < self.values().len() ==> (#[trigger] self.values()[i]).len()
                == self.spec_descriptor().declared()[i].size
    }

    /// Groups component values under their descriptor.
    ///
    /// The descriptor must be valid, and `values` must hold, in the
    /// descriptor's declaration order, one byte string of the described
    /// size for each component.
    pub fn new(
        descriptor: ComponentGroupDescriptor,
        values: Vec<Vec<u8>>,
    ) -> (group: Option<ComponentGroup>)
        requires
            descriptor.wf(),
        ensures
            group is Some <==> {
                &&& descriptor.spec_is_valid()
                &&& values@.len() == descriptor.declared().len()
                &&& forall|i: int|
                    0 <= i < values@.len() ==> (#[trigger] values@[i])@.len()
                        == descriptor.declared()[i].size
            },
            group matches Some(g) ==> g.wf() && g.spec_descriptor() == descriptor && g.values()
                == bytes_of(values@),
    {
        if !descriptor.is_valid() {
            return None;
        }
        let n = descriptor.len() as usize;
        if values.len() != n {
            return None;
        }
        let mut i: usize = 0;
        while i < n
            invariant
                descriptor.wf(),
                n == descriptor.declared().len(),
                n == values@.len(),
                i <= n,
                forall|k: int|
                    0 <= k < i ==> (#[trigger] values@[k])@.len() == descriptor.declared()[k].size,
            decreases n - i,
        {
            let column = descriptor.unsorted_to_sorted(i) as usize;
            let size = descriptor.archetype().component(column).size as usize;
            if values[i].len() != size {
                return None;
            }
            i += 1;
        }
        Some(ComponentGroup { descriptor, values })
    }

    /// The descriptor of the group's component types.
    pub fn descriptor(&self) -> (descriptor: &ComponentGroupDescriptor)
        ensures
            *descriptor == self.spec_descriptor(),
    {
        &self.descriptor
    }

    /// The value of the component at `index` in the caller's order.
    pub fn component(&self, index: usize) -> (value: &[u8])
        requires
            index < self.values().len(),
        ensures
            value@ == self.values()[index as int],
    {
        self.values[index].as_slice()
    }

    /// The component values, each at the column that its type has in the
    /// archetype's sorted order.
    pub fn as_sorted_pointers(&self) -> (pointers: Vec<&[u8]>)
        requires
            self.wf(),
        ensures
            pointers@.len() == self.sorted_values().len(),
            forall|j: int|
                0 <= j < pointers@.len() ==> (#[trigger] pointers@[j])@ == self.sorted_values()[j],
    {
        let n = self.descriptor.len() as usize;
        let mut pointers: Vec<&[u8]> = Vec::new();
        let mut j: usize = 0;
        while j < n
            invariant
                self.wf(),
                n == self.sorted_values().len(),
                j <= n,
                pointers@.len() == j,
                forall|k: int|
                    0 <= k < j ==> (#[trigger] pointers@[k])@ == self.sorted_values()[k],
            decreases n - j,
        {
            let position = self.descriptor.sorted_to_unsorted(j) as usize;
            pointers.push(self.values[position].as_slice());
            j += 1;
        }
        pointers
    }

    /// Gives up the component values, in the caller's order.
    pub fn into_values(self) -> (values: Vec<Vec<u8>>)
        ensures
            bytes_of(values@) == self.values(),
    {
        self.values
    }
}

impl ComponentGroup {
    /// Copies one entity's component values out of references that stand
    /// in sorted column order, and groups them in the caller's order.
    pub fn read_from_sorted_pointers(
        descriptor: &ComponentGroupDescriptor,
        sorted_pointers: &Vec<&[u8]>,
    ) -> (group: ComponentGroup)
        requires
            descriptor.spec_is_valid(),
            sorted_pointers@.len() == descriptor.mapping().len(),
            forall|j: int|
                0 <= j < sorted_pointers@.len() ==> (#[trigger] sorted_pointers@[j])@.len()
                    == descriptor.spec_archetype()@[j].size,
        ensures
            group.wf(),
            group.spec_descriptor().same_as(descriptor),
            group.sorted_values().len() == sorted_pointers@.len(),
            forall|j: int|
                0 <= j < sorted_pointers@.len() ==> #[trigger] group.sorted_values()[j]
                    == sorted_pointers@[j]@,
    {
        let n = descriptor.len() as usize;
        let mut values: Vec<Vec<u8>> = Vec::new();
        let mut i: usize = 0;
        while i < n
            invariant
                descriptor.spec_is_valid(),
                n == descriptor.mapping().len(),
                n == sorted_pointers@.len(),
                i <= n,
                values@.len() == i,
                forall|k: int|
                    0 <= k < i ==> (#[trigger] values@[k])@
                        == sorted_pointers@[descriptor.mapping()[k] as int]@,
            decreases n - i,
        {
            let column = descriptor.unsorted_to_sorted(i) as usize;
            values.push(slice_to_vec(sorted_pointers[column]));
            i += 1;
        }
        let copy = descriptor.clone();
        proof {
            assert(copy.declared() =~= descriptor.declared());
            assert forall|k: int| 0 <= k < values@.len() implies (#[trigger] values@[k])@.len()
                == copy.declared()[k].size by {
                let column = descriptor.mapping()[k] as int;
                assert(sorted_pointers@[column]@.len()
                    == descriptor.spec_archetype()@[column].size);
            }
        }
        let group = ComponentGroup::new(copy, values).unwrap();
        proof {
            assert forall|j: int| 0 <= j < sorted_pointers@.len()
                implies #[trigger] group.sorted_values()[j]
                == sorted_pointers@[j]@ by {
                let position = descriptor.inverse()[j] as int;
                assert(descriptor.mapping()[position] == j);
                assert(group.values()[position] == values@[position]@);
            }
        }
        group
    }
}

impl ComponentGroup {
    /// Groups of the same shape that agree on the values in column order
    /// agree on the values in the caller's order.
    pub proof fn lemma_values_from_sorted(a: ComponentGroup, b: ComponentGroup)
        requires
            a.wf(),
            b.wf(),
            a.spec_descriptor().same_as(&b.spec_descriptor()),
            a.sorted_values() == b.sorted_values(),
        ensures
            a.values() == b.values(),
    {
        assert forall|i: int| 0 <= i < a.values().len() implies a.values()[i] == b.values()[i] by {
            let column = a.spec_descriptor().mapping()[i] as int;
            assert(a.spec_descriptor().inverse()[column] == i);
            assert(a.sorted_values()[column] == a.values()[i]);
            assert(b.sorted_values()[column] == b.values()[i]);
        }
        assert(a.values() =~= b.values());
    }
}

} // verus!
