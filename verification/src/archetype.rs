pub mod column;
pub mod laws;
pub mod metadata;

use crate::archetype::column::{
    lemma_row_in_bounds, read_row, row_bytes, row_slice, row_slice_mut, swap_rows, with_row,
    write_row,
};
use crate::archetype::metadata::EntityMetadata;
use crate::archetype_descriptor::{
    components_within, distinct_ids, has_id, is_superset, lemma_ascending_is_distinct,
    lemma_position_of_unique, lemma_within_is_superset, position_of, ArchetypeDescriptor,
};
use crate::component_descriptor::ComponentDescriptor;
use crate::component_group::ComponentGroup;
use crate::component_group_descriptor::ComponentGroupDescriptor;
use crate::component_type_id::ComponentTypeId;
use crate::constants::{DEFAULT_ARCHETYPE_ALLOCATION_SIZE, MAX_ENTITIES_PER_ARCHETYPE};
use crate::error::StorageError;
use vstd::prelude::*;
use vstd::slice::slice_subrange;

verus! {

/// One row of an archetype as a value: the bookkeeping of the row, and the
/// bytes of each component in the order of the archetype's columns.
pub struct RowView {
    pub metadata: EntityMetadata,
    pub components: Seq<Seq<u8>>,
}

/// Every column of `capacity` rows has a length that `usize` can hold.
pub open spec fn storable(components: Seq<ComponentDescriptor>, capacity: int) -> bool {
    forall|c: int|
        0 <= c < components.len() ==> capacity * (#[trigger] components[c]).size <= usize::MAX
}

/// The storage of all entities that carry one set of component types.
///
/// Each component type has a column of bytes, and each entity a row: the
/// bytes of row `r` in a column whose component takes `size` bytes are the
/// bytes from `r * size` up to `(r + 1) * size`. The columns and the row
/// bookkeeping always have room for the same number of rows, the capacity,
/// of which the first `size()` rows hold entities.
#[derive(Debug)]
pub struct Archetype {
    descriptor: ArchetypeDescriptor,
    first_shard_index: u16,
    last_shard_index: u16,
    columns: Vec<Vec<u8>>,
    entity_metadata: Vec<EntityMetadata>,
    entity_count: u32,
    capacity: u32,
}

impl Archetype {
    /// The descriptor of the stored component set.
    pub closed spec fn spec_descriptor(&self) -> ArchetypeDescriptor {
        self.descriptor
    }

    /// The first shard of the archetype's shard range.
    pub closed spec fn spec_first_shard_index(&self) -> u16 {
        self.first_shard_index
    }

    /// The last shard of the archetype's shard range.
    pub closed spec fn spec_last_shard_index(&self) -> u16 {
        self.last_shard_index
    }

    /// The number of rows that hold entities.
    pub closed spec fn spec_size(&self) -> u32 {
        self.entity_count
    }

    /// The number of rows that the columns have room for.
    pub closed spec fn spec_capacity(&self) -> u32 {
        self.capacity
    }

    /// The number of columns.
    pub closed spec fn column_count(&self) -> nat {
        self.columns@.len()
    }

    /// All bytes of one column.
    pub closed spec fn column_bytes(&self, column: int) -> Seq<u8> {
        self.columns@[column]@
    }

    /// The bookkeeping of every row that the archetype has room for.
    pub closed spec fn metadata_slots(&self) -> Seq<EntityMetadata> {
        self.entity_metadata@
    }

    /// The invariant of every archetype.
    pub open spec fn wf(&self) -> bool {
        &&& self.spec_descriptor().wf()
        &&& self.column_count() == self.spec_descriptor()@.len()
        &&& forall|c: int|
            0 <= c < self.column_count() ==> (#[trigger] self.column_bytes(c)).len()
                == self.spec_capacity() * self.spec_descriptor()@[c].size
        &&& self.metadata_slots().len() == self.spec_capacity()
        &&& self.spec_size() <= self.spec_capacity()
        &&& self.spec_capacity() < MAX_ENTITIES_PER_ARCHETYPE
    }

    /// The bytes of one component of one row.
    pub open spec fn component_at(&self, column: int, row: int) -> Seq<u8> {
        row_bytes(self.column_bytes(column), self.spec_descriptor()@[column].size as int, row)
    }

    /// One row as a value. Rows from `size()` up to the capacity hold no
    /// entity, but they have bytes all the same.
    pub open spec fn slot(&self, row: int) -> RowView {
        RowView {
            metadata: self.metadata_slots()[row],
            components: Seq::new(self.column_count(), |c: int| self.component_at(c, row)),
        }
    }

    /// The rows that hold entities, first to last.
    pub open spec fn rows(&self) -> Seq<RowView> {
        Seq::new(self.spec_size() as nat, |r: int| self.slot(r))
    }

    /// Both archetypes store the same component set and carry the same
    /// shard range.
    pub open spec fn same_layout(&self, other: &Archetype) -> bool {
        &&& self.spec_descriptor() == other.spec_descriptor()
        &&& self.spec_first_shard_index() == other.spec_first_shard_index()
        &&& self.spec_last_shard_index() == other.spec_last_shard_index()
    }

    /// Both archetypes hold the same bytes in every column and the same
    /// bookkeeping, for the same number of rows.
    pub open spec fn same_contents(&self, other: &Archetype) -> bool {
        &&& self.spec_size() == other.spec_size()
        &&& self.spec_capacity() == other.spec_capacity()
        &&& self.column_count() == other.column_count()
        &&& self.metadata_slots() == other.metadata_slots()
        &&& forall|c: int|
            0 <= c < self.column_count() ==> #[trigger] self.column_bytes(c) == other.column_bytes(
                c,
            )
    }

    /// `after` is this archetype with row `index` overwritten: the row
    /// holds `metadata`, each component whose type `group` names holds the
    /// value that `values` has for it, and everything else is as it was.
    pub open spec fn written(
        &self,
        after: &Archetype,
        index: int,
        metadata: EntityMetadata,
        group: Seq<ComponentDescriptor>,
        values: Seq<Seq<u8>>,
    ) -> bool {
        &&& after.same_layout(self)
        &&& after.spec_size() == self.spec_size()
        &&& after.spec_capacity() == self.spec_capacity()
        &&& after.column_count() == self.column_count()
        &&& after.metadata_slots() == self.metadata_slots().update(index, metadata)
        &&& forall|c: int|
            0 <= c < after.column_count() ==> #[trigger] after.component_at(c, index) == if has_id(
                group,
                self.spec_descriptor()@[c].id(),
            ) {
                values[position_of(group, self.spec_descriptor()@[c].id())]
            } else {
                self.component_at(c, index)
            }
        &&& forall|r: int|
            0 <= r < after.spec_capacity() && r != index ==> #[trigger] after.slot(r) == self.slot(
                r,
            )
    }

    /// `after` is this archetype with one more row, which holds
    /// `metadata` and `values`; the rows that held entities are as they were.
    pub open spec fn pushed(
        &self,
        after: &Archetype,
        metadata: EntityMetadata,
        values: Seq<Seq<u8>>,
    ) -> bool {
        &&& after.same_layout(self)
        &&& after.spec_size() == self.spec_size() + 1
        &&& after.column_count() == self.column_count()
        &&& after.slot(self.spec_size() as int) == (RowView { metadata, components: values })
        &&& forall|r: int|
            0 <= r < self.spec_size() ==> #[trigger] after.slot(r) == self.slot(r)
    }

    /// `after` is this archetype with rows `first` and `second` exchanged.
    pub open spec fn swapped(&self, after: &Archetype, first: int, second: int) -> bool {
        &&& after.same_layout(self)
        &&& after.spec_size() == self.spec_size()
        &&& after.spec_capacity() == self.spec_capacity()
        &&& after.column_count() == self.column_count()
        &&& after.slot(first) == self.slot(second)
        &&& after.slot(second) == self.slot(first)
        &&& forall|r: int|
            0 <= r < after.spec_capacity() && r != first && r != second ==> #[trigger] after.slot(
                r,
            ) == self.slot(r)
    }

    /// `after` is this archetype without the entity of row `index`: the
    /// last row and row `index` have changed places, and there is one row
    /// less, so that the entity which was last lives in row `index` and
    /// the removed one lies just behind the last row.
    pub open spec fn removed(&self, after: &Archetype, index: int) -> bool {
        &&& after.same_layout(self)
        &&& after.spec_size() == self.spec_size() - 1
        &&& after.spec_capacity() == self.spec_capacity()
        &&& after.column_count() == self.column_count()
        &&& after.slot(self.spec_size() - 1) == self.slot(index)
        &&& after.slot(index) == self.slot(self.spec_size() - 1)
        &&& forall|r: int|
            0 <= r < after.spec_capacity() && r != index && r != self.spec_size() - 1
                ==> #[trigger] after.slot(r) == self.slot(r)
        &&& after.rows() == self.rows().update(index, self.rows().last()).drop_last()
    }

    /// `after` is this archetype with row `destination_index` filled from
    /// row `source_index` of `source`: each component whose type `source`
    /// stores too holds the source's bytes, and everything else is as it was.
    pub open spec fn copied_from(
        &self,
        after: &Archetype,
        source: &Archetype,
        source_index: int,
        destination_index: int,
    ) -> bool {
        &&& after.same_layout(self)
        &&& after.spec_size() == self.spec_size()
        &&& after.spec_capacity() == self.spec_capacity()
        &&& after.column_count() == self.column_count()
        &&& after.metadata_slots() == self.metadata_slots()
        &&& forall|c: int|
            0 <= c < after.column_count() ==> #[trigger] after.component_at(c, destination_index)
                == if has_id(source.spec_descriptor()@, self.spec_descriptor()@[c].id()) {
                source.component_at(
                    position_of(source.spec_descriptor()@, self.spec_descriptor()@[c].id()),
                    source_index,
                )
            } else {
                self.component_at(c, destination_index)
            }
        &&& forall|r: int|
            0 <= r < after.spec_capacity() && r != destination_index ==> #[trigger] after.slot(r)
                == self.slot(r)
    }

    /// An archetype that differs from a well-formed one in its row count
    /// and shard range alone is well formed, and has the same rows.
    proof fn lemma_same_storage(&self, other: &Archetype)
        requires
            other.wf(),
            self.descriptor == other.descriptor,
            self.columns == other.columns,
            self.entity_metadata == other.entity_metadata,
            self.capacity == other.capacity,
            self.entity_count <= self.capacity,
        ensures
            self.wf(),
            forall|r: int| #[trigger] self.slot(r) == other.slot(r),
            forall|c: int| #[trigger] self.column_bytes(c) == other.column_bytes(c),
    {
        assert forall|c: int| 0 <= c < self.column_count() implies (#[trigger] self.column_bytes(
            c,
        )).len() == self.spec_capacity() * self.spec_descriptor()@[c].size by {
            assert(self.column_bytes(c) == other.column_bytes(c));
        }
        assert forall|r: int| #[trigger] self.slot(r) == other.slot(r) by {
            assert(self.slot(r).components =~= other.slot(r).components);
        }
    }

    /// An archetype for the described component set, without rows and
    /// without room for any.
    pub fn new(descriptor: ArchetypeDescriptor, first_shard_index: u16) -> (archetype: Archetype)
        requires
            descriptor.wf(),
        ensures
            archetype.wf(),
            archetype.spec_descriptor() == descriptor,
            archetype.spec_first_shard_index() == first_shard_index,
            archetype.spec_last_shard_index() == first_shard_index,
            archetype.spec_size() == 0,
            archetype.spec_capacity() == 0,
    {
        let n = descriptor.len() as usize;
        let mut columns: Vec<Vec<u8>> = Vec::new();
        let mut c: usize = 0;
        while c < n
            invariant
                c <= n,
                columns@.len() == c,
                forall|k: int| 0 <= k < c ==> (#[trigger] columns@[k])@.len() == 0,
            decreases n - c,
        {
            columns.push(Vec::new());
            c += 1;
        }
        let archetype = Archetype {
            descriptor,
            first_shard_index,
            last_shard_index: first_shard_index,
            columns,
            entity_metadata: Vec::new(),
            entity_count: 0,
            capacity: 0,
        };
        proof {
            assert forall|k: int| 0 <= k < archetype.column_count() implies (
            #[trigger] archetype.column_bytes(k)).len() == archetype.spec_capacity()
                * archetype.spec_descriptor()@[k].size by {
                assert(archetype.columns@[k]@.len() == 0);
            }
        }
        archetype
    }

    /// Sets the first shard of the archetype's shard range.
    pub fn set_first_shard_index(&mut self, first_shard_index: u16)
        ensures
            final(self).spec_first_shard_index() == first_shard_index,
            final(self).spec_last_shard_index() == old(self).spec_last_shard_index(),
            final(self).spec_descriptor() == old(self).spec_descriptor(),
            final(self).same_contents(old(self)),
            old(self).wf() ==> final(self).wf(),
    {
        self.first_shard_index = first_shard_index;
    }

    /// Sets the last shard of the archetype's shard range.
    pub fn set_last_shard_index(&mut self, last_shard_index: u16)
        ensures
            final(self).spec_last_shard_index() == last_shard_index,
            final(self).spec_first_shard_index() == old(self).spec_first_shard_index(),
            final(self).spec_descriptor() == old(self).spec_descriptor(),
            final(self).same_contents(old(self)),
            old(self).wf() ==> final(self).wf(),
    {
        self.last_shard_index = last_shard_index;
    }

    /// The first shard of the archetype's shard range.
    #[verifier::when_used_as_spec(spec_first_shard_index)]
    pub fn first_shard_index(&self) -> (index: u16)
        ensures
            index == self.spec_first_shard_index(),
    {
        self.first_shard_index
    }

    /// The last shard of the archetype's shard range.
    #[verifier::when_used_as_spec(spec_last_shard_index)]
    pub fn last_shard_index(&self) -> (index: u16)
        ensures
            index == self.spec_last_shard_index(),
    {
        self.last_shard_index
    }

    /// The descriptor of the stored component set.
    pub fn descriptor(&self) -> (descriptor: &ArchetypeDescriptor)
        ensures
            *descriptor == self.spec_descriptor(),
    {
        &self.descriptor
    }

    /// The number of entities stored in the archetype.
    #[verifier::when_used_as_spec(spec_size)]
    pub fn size(&self) -> (size: u32)
        ensures
            size == self.spec_size(),
    {
        self.entity_count
    }

    /// The number of rows that the archetype has room for.
    #[verifier::when_used_as_spec(spec_capacity)]
    pub fn capacity(&self) -> (capacity: u32)
        ensures
            capacity == self.spec_capacity(),
    {
        self.capacity
    }

    /// Whether every row that the archetype has room for holds an entity.
    pub fn is_full(&self) -> (full: bool)
        ensures
            full == (self.spec_size() == self.spec_capacity()),
    {
        self.entity_count == self.capacity
    }

    /// Releases the columns and the bookkeeping. The archetype keeps its
    /// descriptor and is left without rows and without room.
    ///
    /// No destructor call is owed for rows that held entities.
    pub fn dealloc(&mut self)
        requires
            old(self).wf(),
        ensures
            final(self).wf(),
            final(self).same_layout(old(self)),
            final(self).spec_capacity() == 0,
            final(self).spec_size() == 0,
    {
        let n = self.columns.len();
        let mut c: usize = 0;
        while c < n
            invariant
                c <= n,
                n == self.columns@.len(),
                self.descriptor == old(self).descriptor,
                self.first_shard_index == old(self).first_shard_index,
                self.last_shard_index == old(self).last_shard_index,
                forall|k: int| 0 <= k < c ==> (#[trigger] self.columns@[k])@.len() == 0,
            decreases n - c,
        {
            self.columns[c] = Vec::new();
            c += 1;
        }
        self.entity_metadata = Vec::new();
        self.capacity = 0;
        self.entity_count = 0;
        proof {
            assert forall|k: int| 0 <= k < self.column_count() implies (
            #[trigger] self.column_bytes(k)).len() == self.spec_capacity()
                * self.spec_descriptor()@[k].size by {
                assert(self.columns@[k]@.len() == 0);
            }
        }
    }
}

impl Archetype {
    /// Changes the capacity by `change_in_entity_count` rows.
    ///
    /// A capacity of zero or less releases all storage, as `dealloc` does.
    /// A capacity that reaches [`MAX_ENTITIES_PER_ARCHETYPE`], or whose
    /// columns `usize` cannot measure, is refused and nothing changes.
    /// Otherwise the rows that fit in the new capacity keep their bytes and
    /// their bookkeeping, and the rows that do not fit are released without
    /// destructor calls.
    pub fn resize_capacity(
        &mut self,
        change_in_entity_count: isize,
    ) -> (result: Result<(), StorageError>)
        requires
            old(self).wf(),
        ensures
            final(self).wf(),
            final(self).same_layout(old(self)),
            ({
                let target = old(self).spec_capacity() + change_in_entity_count;
                let kept = if old(self).spec_capacity() <= target {
                    old(self).spec_capacity() as int
                } else {
                    target
                };
                if target <= 0 {
                    &&& result is Ok
                    &&& final(self).spec_capacity() == 0
                    &&& final(self).spec_size() == 0
                } else if target >= MAX_ENTITIES_PER_ARCHETYPE || !storable(
                    old(self).spec_descriptor()@,
                    target,
                ) {
                    &&& result == Err::<(), StorageError>(StorageError::CapacityExhausted)
                    &&& final(self).same_contents(old(self))
                } else {
                    &&& result is Ok
                    &&& final(self).spec_capacity() == target
                    &&& final(self).spec_size() == if old(self).spec_size() <= target {
                        old(self).spec_size() as int
                    } else {
                        target
                    }
                    &&& forall|r: int|
                        0 <= r < kept ==> #[trigger] final(self).slot(r) == old(self).slot(r)
                }
            }),
    {
        let ghost target = self.capacity + change_in_entity_count;
        let wide: i128 = self.capacity as i128 + change_in_entity_count as i128;
        if wide <= 0 {
            self.dealloc();
            return Ok(());
        }
        if wide >= MAX_ENTITIES_PER_ARCHETYPE as i128 {
            return Err(StorageError::CapacityExhausted);
        }
        let new_capacity: u32 = wide as u32;
        let n = self.columns.len();
        let mut c: usize = 0;
        while c < n
            invariant
                c <= n,
                n == self.columns@.len(),
                n == self.descriptor@.len(),
                *self == *old(self),
                old(self).wf(),
                new_capacity == old(self).capacity + change_in_entity_count,
                0 < new_capacity < MAX_ENTITIES_PER_ARCHETYPE,
                forall|k: int|
                    0 <= k < c ==> new_capacity * (#[trigger] self.descriptor@[k]).size
                        <= usize::MAX,
            decreases n - c,
        {
            let size = self.descriptor.component(c).size as usize;
            if (new_capacity as usize).checked_mul(size).is_none() {
                proof {
                    assert(new_capacity * self.descriptor@[c as int].size > usize::MAX);
                }
                return Err(StorageError::CapacityExhausted);
            }
            c += 1;
        }
        let ghost kept = if old(self).capacity <= new_capacity {
            old(self).capacity as int
        } else {
            new_capacity as int
        };
        c = 0;
        while c < n
            invariant
                c <= n,
                n == self.columns@.len(),
                n == self.descriptor@.len(),
                old(self).wf(),
                storable(self.descriptor@, new_capacity as int),
                new_capacity == old(self).capacity + change_in_entity_count,
                0 < new_capacity < MAX_ENTITIES_PER_ARCHETYPE,
                0 <= kept <= new_capacity,
                kept <= old(self).capacity,
                self.descriptor == old(self).descriptor,
                self.first_shard_index == old(self).first_shard_index,
                self.last_shard_index == old(self).last_shard_index,
                self.entity_metadata == old(self).entity_metadata,
                self.entity_count == old(self).entity_count,
                self.capacity == old(self).capacity,
                forall|k: int|
                    c <= k < n ==> #[trigger] self.columns@[k] == old(self).columns@[k],
                forall|k: int|
                    0 <= k < c ==> (#[trigger] self.columns@[k])@.len() == new_capacity
                        * self.descriptor@[k].size,
                forall|k: int, r: int|
                    0 <= k < c && 0 <= r < kept ==> #[trigger] row_bytes(
                        self.columns@[k]@,
                        self.descriptor@[k].size as int,
                        r,
                    ) == row_bytes(old(self).columns@[k]@, self.descriptor@[k].size as int, r),
            decreases n - c,
        {
            let size = self.descriptor.component(c).size as usize;
            let ghost before = self.columns@[c as int]@;
            proof {
                assert(old(self).column_bytes(c as int).len() == old(self).capacity * size);
                assert(new_capacity * self.descriptor@[c as int].size <= usize::MAX);
            }
            let new_len: usize = new_capacity as usize * size;
            self.columns[c].resize(new_len, 0u8);
            proof {
                let after = self.columns@[c as int]@;
                assert forall|r: int| 0 <= r < kept implies #[trigger] row_bytes(
                    after,
                    size as int,
                    r,
                ) == row_bytes(before, size as int, r) by {
                    lemma_row_in_bounds(size as int, r, kept);
                    lemma_row_in_bounds(size as int, r, new_capacity as int);
                    lemma_row_in_bounds(size as int, r, old(self).capacity as int);
                    if new_len <= before.len() {
                        assert(after == before.subrange(0, new_len as int));
                    } else {
                        assert(after.subrange(0, before.len() as int) == before);
                        assert forall|i: int| 0 <= i < before.len() implies after[i]
                            == before[i] by {
                            assert(after.subrange(0, before.len() as int)[i] == after[i]);
                        }
                    }
                    assert(row_bytes(after, size as int, r) =~= row_bytes(before, size as int, r));
                }
            }
            c += 1;
        }
        let ghost metadata_before = self.entity_metadata@;
        self.entity_metadata.resize(new_capacity as usize, EntityMetadata::default());
        self.capacity = new_capacity;
        if self.entity_count > new_capacity {
            self.entity_count = new_capacity;
        }
        proof {
            assert forall|k: int| 0 <= k < self.column_count() implies (
            #[trigger] self.column_bytes(k)).len() == self.spec_capacity()
                * self.spec_descriptor()@[k].size by {
                assert(self.columns@[k]@.len() == new_capacity * self.descriptor@[k].size);
            }
            assert forall|r: int| 0 <= r < kept
                implies #[trigger] self.slot(r) == old(self).slot(r) by {
                if new_capacity as int <= metadata_before.len() {
                    assert(self.entity_metadata@ == metadata_before.subrange(
                        0,
                        new_capacity as int,
                    ));
                } else {
                    assert(self.entity_metadata@.subrange(0, metadata_before.len() as int)[r]
                        == self.entity_metadata@[r]);
                }
                assert(self.slot(r).metadata == old(self).slot(r).metadata);
                assert forall|k: int| 0 <= k < self.column_count() implies self.component_at(
                    k,
                    r,
                ) == old(self).component_at(k, r) by {
                    assert(row_bytes(self.columns@[k]@, self.descriptor@[k].size as int, r)
                        == row_bytes(
                        old(self).columns@[k]@,
                        self.descriptor@[k].size as int,
                        r,
                    ));
                }
                assert(self.slot(r).components =~= old(self).slot(r).components);
            }
        }
        Ok(())
    }
}

impl Archetype {
    /// An archetype for the described component set with room for
    /// `capacity` rows and none in use.
    ///
    /// A capacity that reaches [`MAX_ENTITIES_PER_ARCHETYPE`], or whose
    /// columns `usize` cannot measure, is refused.
    pub fn with_capacity(
        descriptor: &ArchetypeDescriptor,
        capacity: u32,
    ) -> (result: Result<Archetype, StorageError>)
        requires
            descriptor.wf(),
        ensures
            result is Ok <==> capacity < MAX_ENTITIES_PER_ARCHETYPE && storable(
                descriptor@,
                capacity as int,
            ),
            result matches Err(e) ==> e == StorageError::CapacityExhausted,
            result matches Ok(archetype) ==> {
                &&& archetype.wf()
                &&& archetype.spec_descriptor()@ == descriptor@
                &&& archetype.spec_descriptor().spec_archetype_id()
                    == descriptor.spec_archetype_id()
                &&& archetype.spec_first_shard_index() == 0
                &&& archetype.spec_last_shard_index() == 0
                &&& archetype.spec_size() == 0
                &&& archetype.spec_capacity() == capacity
            },
    {
        if capacity as usize >= MAX_ENTITIES_PER_ARCHETYPE {
            return Err(StorageError::CapacityExhausted);
        }
        let mut archetype = Archetype::new(descriptor.clone(), 0);
        if capacity == 0 {
            proof {
                assert forall|c: int| 0 <= c < descriptor@.len() implies 0 * (
                #[trigger] descriptor@[c]).size <= usize::MAX by {}
            }
            return Ok(archetype);
        }
        match archetype.resize_capacity(capacity as isize) {
            Ok(()) => Ok(archetype),
            Err(e) => Err(e),
        }
    }

    /// For each component of `group`, in ascending order of ids, the
    /// column that stores it. Both id sequences ascend, so one pass over
    /// the two finds every column.
    fn fuzzy_columns(&self, group: &ArchetypeDescriptor) -> (columns: Vec<usize>)
        requires
            self.wf(),
            group.wf(),
            is_superset(self.spec_descriptor()@, group@),
        ensures
            columns@.len() == group@.len(),
            forall|j: int|
                0 <= j < columns@.len() ==> (#[trigger] columns@[j]) < self.column_count()
                    && self.spec_descriptor()@[columns@[j] as int].id() == group@[j].id(),
    {
        let n = group.len() as usize;
        let m = self.descriptor.len() as usize;
        let mut columns: Vec<usize> = Vec::new();
        let mut c: usize = 0;
        let mut j: usize = 0;
        while j < n
            invariant
                self.wf(),
                group.wf(),
                is_superset(self.spec_descriptor()@, group@),
                n == group@.len(),
                m == self.descriptor@.len(),
                c <= m,
                j <= n,
                columns@.len() == j,
                forall|k: int|
                    0 <= k < j ==> (#[trigger] columns@[k]) < m
                        && self.descriptor@[columns@[k] as int].id() == group@[k].id(),
                forall|k: int|
                    0 <= k < c && j < n ==> (#[trigger] self.descriptor@[k]).id()
                        < group@[j as int].id(),
            decreases (n - j) + (m - c),
        {
            let wanted = group.component(j).component_type_id.into_u16();
            proof {
                assert(has_id(self.descriptor@, group@[j as int].id()));
                let p = choose|p: int|
                    0 <= p < self.descriptor@.len() && (#[trigger] self.descriptor@[p]).id()
                        == wanted;
                if p < c {
                    assert(self.descriptor@[p].id() < group@[j as int].id());
                }
                if p > c {
                    assert(self.descriptor@[c as int].id() < self.descriptor@[p].id());
                }
            }
            let here = self.descriptor.component(c).component_type_id.into_u16();
            if here == wanted {
                proof {
                    if j + 1 < n {
                        assert(group@[j as int].id() < group@[j + 1].id());
                    }
                }
                columns.push(c);
                j += 1;
            }
            c += 1;
        }
        columns
    }

    /// Writes the components of `entity` and the bookkeeping into row
    /// `index`. Each component goes to the column of its type; a column
    /// whose type the group does not hold keeps its bytes. The row count
    /// does not change, and no destructor call is owed for what the row
    /// held before.
    pub fn write_entity_unchecked(
        &mut self,
        index: u32,
        metadata: EntityMetadata,
        entity: ComponentGroup,
    )
        requires
            old(self).wf(),
            entity.wf(),
            index < old(self).spec_capacity(),
            components_within(
                entity.spec_descriptor().spec_archetype()@,
                old(self).spec_descriptor()@,
            ),
        ensures
            final(self).wf(),
            old(self).written(
                final(self),
                index as int,
                metadata,
                entity.spec_descriptor().spec_archetype()@,
                entity.sorted_values(),
            ),
    {
        let ghost group = entity.spec_descriptor().spec_archetype()@;
        proof {
            lemma_within_is_superset(group, self.spec_descriptor()@);
            lemma_ascending_is_distinct(group);
            lemma_ascending_is_distinct(self.spec_descriptor()@);
        }
        let columns = self.fuzzy_columns(entity.descriptor().archetype());
        let pointers = entity.as_sorted_pointers();
        let n = columns.len();
        let row = index as usize;
        let mut j: usize = 0;
        while j < n
            invariant
                old(self).wf(),
                entity.wf(),
                group == entity.spec_descriptor().spec_archetype()@,
                components_within(group, old(self).descriptor@),
                distinct_ids(group),
                distinct_ids(old(self).descriptor@),
                row == index,
                index < old(self).capacity,
                n == columns@.len(),
                n == group.len(),
                n == pointers@.len(),
                j <= n,
                forall|k: int|
                    0 <= k < n ==> (#[trigger] pointers@[k])@ == entity.sorted_values()[k],
                forall|k: int|
                    0 <= k < n ==> (#[trigger] columns@[k]) < old(self).columns@.len()
                        && old(self).descriptor@[columns@[k] as int].id() == group[k].id(),
                self.descriptor == old(self).descriptor,
                self.first_shard_index == old(self).first_shard_index,
                self.last_shard_index == old(self).last_shard_index,
                self.entity_metadata == old(self).entity_metadata,
                self.entity_count == old(self).entity_count,
                self.capacity == old(self).capacity,
                self.columns@.len() == old(self).columns@.len(),
                forall|c: int|
                    0 <= c < self.columns@.len()
                        ==> (#[trigger] self.columns@[c])@.len() == old(self).columns@[c]@.len(),
                forall|k: int|
                    0 <= k < j ==> row_bytes(
                        self.columns@[(#[trigger] columns@[k]) as int]@,
                        self.descriptor@[columns@[k] as int].size as int,
                        index as int,
                    ) == entity.sorted_values()[k],
                forall|c: int|
                    0 <= c < self.columns@.len() && (forall|k: int|
                        0 <= k < j ==> #[trigger] columns@[k] != c) ==> #[trigger] self.columns@[c]
                        == old(self).columns@[c],
                forall|c: int, r: int|
                    0 <= c < self.columns@.len() && 0 <= r < self.capacity && r != index
                        ==> #[trigger] row_bytes(
                        self.columns@[c]@,
                        self.descriptor@[c].size as int,
                        r,
                    ) == row_bytes(old(self).columns@[c]@, self.descriptor@[c].size as int, r),
            decreases n - j,
        {
            let column = columns[j];
            let size = self.descriptor.component(column).size as usize;
            let ghost before = self.columns@;
            proof {
                let wanted = group[j as int];
                assert(old(self).descriptor@.contains(wanted));
                let p = choose|p: int|
                    0 <= p < old(self).descriptor@.len() && old(self).descriptor@[p] == wanted;
                lemma_position_of_unique(old(self).descriptor@, p);
                lemma_position_of_unique(old(self).descriptor@, column as int);
                assert(p == column);
                assert(pointers@[j as int]@.len() == size) by {
                    let position = entity.spec_descriptor().inverse()[j as int] as int;
                    assert(entity.spec_descriptor().mapping()[position] == j);
                    assert(entity.values()[position].len()
                        == entity.spec_descriptor().declared()[position].size);
                }
                assert(old(self).column_bytes(column as int).len() == old(self).capacity * size);
                lemma_row_in_bounds(size as int, index as int, old(self).capacity as int);
            }
            write_row(&mut self.columns[column], size, row, pointers[j]);
            proof {
                assert forall|k: int| 0 <= k < j + 1 implies row_bytes(
                    self.columns@[(#[trigger] columns@[k]) as int]@,
                    self.descriptor@[columns@[k] as int].size as int,
                    index as int,
                ) == entity.sorted_values()[k] by {
                    if k < j {
                        if columns@[k] == column {
                            lemma_position_of_unique(group, k);
                            lemma_position_of_unique(group, j as int);
                        }
                        assert(self.columns@[columns@[k] as int] == before[columns@[k] as int]);
                    }
                }
                assert forall|c: int, r: int|
                    0 <= c < self.columns@.len() && 0 <= r < self.capacity && r
                        != index implies #[trigger] row_bytes(
                    self.columns@[c]@,
                    self.descriptor@[c].size as int,
                    r,
                ) == row_bytes(old(self).columns@[c]@, self.descriptor@[c].size as int, r) by {
                    if c == column {
                        lemma_row_in_bounds(size as int, r, old(self).capacity as int);
                        assert(row_bytes(self.columns@[c]@, size as int, r) == row_bytes(
                            before[c]@,
                            size as int,
                            r,
                        ));
                    } else {
                        assert(self.columns@[c] == before[c]);
                    }
                }
            }
            j += 1;
        }
        self.entity_metadata[row] = metadata;
        proof {
            assert forall|c: int| 0 <= c < self.column_count() implies (
            #[trigger] self.column_bytes(c)).len() == self.spec_capacity()
                * self.spec_descriptor()@[c].size by {
                assert(self.columns@[c]@.len() == old(self).column_bytes(c).len());
            }
            assert forall|c: int| 0 <= c < self.column_count() implies #[trigger] self.component_at(
                c,
                index as int,
            ) == if has_id(group, old(self).spec_descriptor()@[c].id()) {
                entity.sorted_values()[position_of(group, old(self).spec_descriptor()@[c].id())]
            } else {
                old(self).component_at(c, index as int)
            } by {
                let id = old(self).spec_descriptor()@[c].id();
                if has_id(group, id) {
                    let k = position_of(group, id);
                    assert(0 <= k < group.len() && group[k].id() == id);
                    lemma_position_of_unique(old(self).descriptor@, columns@[k] as int);
                    lemma_position_of_unique(old(self).descriptor@, c);
                    assert(columns@[k] == c);
                } else {
                    assert forall|k: int| 0 <= k < n implies #[trigger] columns@[k] != c by {
                        if columns@[k] == c {
                            assert(group[k].id() == id);
                        }
                    }
                    assert(self.columns@[c] == old(self).columns@[c]);
                }
            }
            assert forall|r: int|
                0 <= r < self.spec_capacity() && r != index implies #[trigger] self.slot(r)
                == old(self).slot(r) by {
                assert forall|c: int| 0 <= c < self.column_count() implies self.component_at(
                    c,
                    r,
                ) == old(self).component_at(c, r) by {
                    assert(row_bytes(self.columns@[c]@, self.descriptor@[c].size as int, r)
                        == row_bytes(
                        old(self).columns@[c]@,
                        self.descriptor@[c].size as int,
                        r,
                    ));
                }
                assert(self.slot(r).components =~= old(self).slot(r).components);
            }
        }
    }
}

/// One destructor call that is owed: the destructor of the component type
/// is to run on `count` values of column `column`, from row `first_row` on.
#[derive(Clone, Copy, Debug, PartialEq, Eq, Structural, Hash)]
pub struct DropCall {
    pub component_type_id: ComponentTypeId,
    pub column: usize,
    pub first_row: u32,
    pub count: u32,
}

impl Archetype {
    /// The number of rows by which a full archetype grows: its capacity,
    /// and at least [`DEFAULT_ARCHETYPE_ALLOCATION_SIZE`].
    pub open spec fn growth_step(&self) -> int {
        if DEFAULT_ARCHETYPE_ALLOCATION_SIZE >= self.spec_capacity() {
            DEFAULT_ARCHETYPE_ALLOCATION_SIZE as int
        } else {
            self.spec_capacity() as int
        }
    }

    /// The destructor calls for `count` rows from `first_row` on: one for
    /// each column, in column order.
    pub open spec fn drop_calls(&self, first_row: u32, count: u32) -> Seq<DropCall> {
        Seq::new(
            self.column_count(),
            |c: int|
                DropCall {
                    component_type_id: self.spec_descriptor()@[c].component_type_id,
                    column: c as usize,
                    first_row,
                    count,
                },
        )
    }

    /// Appends a row that holds the components of `entity` and the
    /// bookkeeping, and returns its index.
    ///
    /// A full archetype first grows by `growth_step()` rows. Where it
    /// cannot, the entity is refused and nothing changes.
    pub fn push_entity_unchecked(
        &mut self,
        metadata: EntityMetadata,
        entity: ComponentGroup,
    ) -> (result: Result<u32, StorageError>)
        requires
            old(self).wf(),
            entity.wf(),
            entity.spec_descriptor().spec_archetype()@ == old(self).spec_descriptor()@,
        ensures
            final(self).wf(),
            final(self).same_layout(old(self)),
            ({
                let grows = old(self).spec_size() == old(self).spec_capacity();
                let target = old(self).spec_capacity() + old(self).growth_step();
                &&& result is Err <==> grows && (target >= MAX_ENTITIES_PER_ARCHETYPE
                    || !storable(old(self).spec_descriptor()@, target))
                &&& result matches Err(e)
                    ==> e == StorageError::CapacityExhausted && final(self).same_contents(old(self))
                &&& result matches Ok(row) ==> {
                    &&& row == old(self).spec_size()
                    &&& final(self).spec_capacity() == if grows {
                        target
                    } else {
                        old(self).spec_capacity() as int
                    }
                    &&& old(self).pushed(final(self), metadata, entity.sorted_values())
                }
            }),
    {
        if self.is_full() {
            let additional: u32 = if DEFAULT_ARCHETYPE_ALLOCATION_SIZE >= self.capacity as usize {
                DEFAULT_ARCHETYPE_ALLOCATION_SIZE as u32
            } else {
                self.capacity
            };
            match self.resize_capacity(additional as isize) {
                Ok(()) => {},
                Err(e) => {
                    return Err(e);
                },
            }
        }
        let ghost grown = *self;
        let ghost group = entity.spec_descriptor().spec_archetype()@;
        let ghost values = entity.sorted_values();
        let entity_index = self.entity_count;
        proof {
            assert forall|j: int| 0 <= j < group.len() implies self.spec_descriptor()@.contains(
                #[trigger] group[j],
            ) by {
                assert(self.spec_descriptor()@[j] == group[j]);
            }
            lemma_ascending_is_distinct(group);
        }
        self.write_entity_unchecked(entity_index, metadata, entity);
        let ghost written = *self;
        self.entity_count = entity_index + 1;
        proof {
            self.lemma_same_storage(&written);
            assert(written.slot(entity_index as int).components =~= values) by {
                assert forall|c: int| 0 <= c < written.column_count() implies written.component_at(
                    c,
                    entity_index as int,
                ) == values[c] by {
                    lemma_position_of_unique(group, c);
                }
            }
            assert forall|r: int| 0 <= r < old(self).spec_size() implies #[trigger] self.slot(r)
                == old(self).slot(r) by {
                assert(written.slot(r) == grown.slot(r));
                assert(grown.slot(r) == old(self).slot(r));
            }
        }
        Ok(entity_index)
    }

    /// For each column, the bytes of row `index`.
    pub fn offset_sorted_pointers_unchecked(&self, index: u32) -> (pointers: Vec<&[u8]>)
        requires
            self.wf(),
            index < self.spec_capacity(),
        ensures
            pointers@.len() == self.column_count(),
            forall|c: int|
                0 <= c < pointers@.len() ==> (#[trigger] pointers@[c])@ == self.component_at(
                    c,
                    index as int,
                ),
    {
        let n = self.columns.len();
        let mut pointers: Vec<&[u8]> = Vec::new();
        let mut c: usize = 0;
        while c < n
            invariant
                self.wf(),
                index < self.capacity,
                n == self.columns@.len(),
                c <= n,
                pointers@.len() == c,
                forall|k: int|
                    0 <= k < c ==> (#[trigger] pointers@[k])@ == self.component_at(
                        k,
                        index as int,
                    ),
            decreases n - c,
        {
            let size = self.descriptor.component(c).size as usize;
            proof {
                assert(self.column_bytes(c as int).len() == self.capacity * size);
                lemma_row_in_bounds(size as int, index as int, self.capacity as int);
            }
            pointers.push(row_slice(&self.columns[c], size, index as usize));
            c += 1;
        }
        pointers
    }

    /// Copies the components of row `index` out, grouped in the order of
    /// `group`. The row stays where it is and the row count does not change.
    pub fn read_components_exact_unchecked(
        &self,
        group: &ComponentGroupDescriptor,
        index: u32,
    ) -> (entity: ComponentGroup)
        requires
            self.wf(),
            group.spec_is_valid(),
            group.spec_archetype()@ == self.spec_descriptor()@,
            index < self.spec_capacity(),
        ensures
            entity.wf(),
            entity.spec_descriptor().same_as(group),
            entity.sorted_values() == self.slot(index as int).components,
    {
        let pointers = self.offset_sorted_pointers_unchecked(index);
        proof {
            assert forall|j: int| 0 <= j < pointers@.len() implies (#[trigger] pointers@[j])@.len()
                == group.spec_archetype()@[j].size by {
                let size = self.spec_descriptor()@[j].size as int;
                assert(self.column_bytes(j).len() == self.capacity * size);
                lemma_row_in_bounds(size, index as int, self.capacity as int);
            }
        }
        let entity = ComponentGroup::read_from_sorted_pointers(group, &pointers);
        proof {
            assert(entity.sorted_values() =~= self.slot(index as int).components);
        }
        entity
    }

    /// Exchanges two rows: the bytes of every column and the bookkeeping.
    pub fn swap_entities(&mut self, first: u32, second: u32)
        requires
            old(self).wf(),
            first < old(self).spec_size(),
            second < old(self).spec_size(),
        ensures
            final(self).wf(),
            old(self).swapped(final(self), first as int, second as int),
    {
        let n = self.columns.len();
        let mut c: usize = 0;
        while c < n
            invariant
                old(self).wf(),
                first < old(self).entity_count,
                second < old(self).entity_count,
                n == self.columns@.len(),
                n == old(self).columns@.len(),
                c <= n,
                self.descriptor == old(self).descriptor,
                self.first_shard_index == old(self).first_shard_index,
                self.last_shard_index == old(self).last_shard_index,
                self.entity_metadata == old(self).entity_metadata,
                self.entity_count == old(self).entity_count,
                self.capacity == old(self).capacity,
                forall|k: int|
                    0 <= k < n
                        ==> (#[trigger] self.columns@[k])@.len() == old(self).columns@[k]@.len(),
                forall|k: int| c <= k < n ==> #[trigger] self.columns@[k] == old(self).columns@[k],
                forall|k: int, r: int|
                    0 <= k < c && 0 <= r < self.capacity ==> #[trigger] row_bytes(
                        self.columns@[k]@,
                        self.descriptor@[k].size as int,
                        r,
                    ) == row_bytes(
                        old(self).columns@[k]@,
                        self.descriptor@[k].size as int,
                        if r == first {
                            second as int
                        } else if r == second {
                            first as int
                        } else {
                            r
                        },
                    ),
            decreases n - c,
        {
            let size = self.descriptor.component(c).size as usize;
            let ghost before = self.columns@[c as int]@;
            proof {
                assert(old(self).column_bytes(c as int).len() == old(self).capacity * size);
                lemma_row_in_bounds(size as int, first as int, old(self).capacity as int);
                lemma_row_in_bounds(size as int, second as int, old(self).capacity as int);
            }
            swap_rows(&mut self.columns[c], size, first as usize, second as usize);
            proof {
                assert forall|r: int| 0 <= r < self.capacity implies #[trigger] row_bytes(
                    self.columns@[c as int]@,
                    size as int,
                    r,
                ) == row_bytes(
                    before,
                    size as int,
                    if r == first {
                        second as int
                    } else if r == second {
                        first as int
                    } else {
                        r
                    },
                ) by {
                    lemma_row_in_bounds(size as int, r, old(self).capacity as int);
                }
            }
            c += 1;
        }
        let first_metadata = self.entity_metadata[first as usize];
        let second_metadata = self.entity_metadata[second as usize];
        self.entity_metadata[first as usize] = second_metadata;
        self.entity_metadata[second as usize] = first_metadata;
        proof {
            assert forall|k: int| 0 <= k < self.column_count() implies (
            #[trigger] self.column_bytes(k)).len() == self.spec_capacity()
                * self.spec_descriptor()@[k].size by {
                assert(self.columns@[k]@.len() == old(self).column_bytes(k).len());
            }
            assert forall|r: int| 0 <= r < self.spec_capacity() implies #[trigger] self.slot(r)
                == old(self).slot(
                if r == first {
                    second as int
                } else if r == second {
                    first as int
                } else {
                    r
                },
            ) by {
                let from = if r == first {
                    second as int
                } else if r == second {
                    first as int
                } else {
                    r
                };
                assert forall|k: int| 0 <= k < self.column_count() implies self.component_at(
                    k,
                    r,
                ) == old(self).component_at(k, from) by {
                    assert(row_bytes(self.columns@[k]@, self.descriptor@[k].size as int, r)
                        == row_bytes(
                        old(self).columns@[k]@,
                        self.descriptor@[k].size as int,
                        from,
                    ));
                }
                assert(self.slot(r).components =~= old(self).slot(from).components);
            }
        }
    }

    /// The destructor calls owed when the entity in row `index` is dropped.
    pub fn drop_entity(&self, index: u32) -> (calls: Vec<DropCall>)
        requires
            self.wf(),
            index < self.spec_size(),
        ensures
            calls@ == self.drop_calls(index, 1),
    {
        self.drop_range(index, 1)
    }

    /// Drops every entity: the archetype is left without rows, keeps its
    /// capacity and every byte, and the destructor calls owed for the rows
    /// it held are returned.
    pub fn drop_entities(&mut self) -> (calls: Vec<DropCall>)
        requires
            old(self).wf(),
        ensures
            final(self).wf(),
            final(self).same_layout(old(self)),
            final(self).spec_size() == 0,
            final(self).spec_capacity() == old(self).spec_capacity(),
            final(self).column_count() == old(self).column_count(),
            final(self).metadata_slots() == old(self).metadata_slots(),
            forall|c: int|
                0 <= c < final(self).column_count() ==> #[trigger] final(self).column_bytes(c)
                    == old(self).column_bytes(c),
            calls@ == old(self).drop_calls(0, old(self).spec_size()),
    {
        let calls = self.drop_range(0, self.entity_count);
        self.entity_count = 0;
        proof {
            self.lemma_same_storage(old(self));
        }
        calls
    }

    /// One destructor call for each column, over `count` rows from `first_row` on.
    fn drop_range(&self, first_row: u32, count: u32) -> (calls: Vec<DropCall>)
        requires
            self.wf(),
        ensures
            calls@ == self.drop_calls(first_row, count),
    {
        let n = self.columns.len();
        let mut calls: Vec<DropCall> = Vec::new();
        let mut c: usize = 0;
        while c < n
            invariant
                self.wf(),
                n == self.columns@.len(),
                c <= n,
                calls@.len() == c,
                forall|k: int|
                    0 <= k < c ==> #[trigger] calls@[k] == self.drop_calls(first_row, count)[k],
            decreases n - c,
        {
            calls.push(
                DropCall {
                    component_type_id: self.descriptor.component(c).component_type_id,
                    column: c,
                    first_row,
                    count,
                },
            );
            c += 1;
        }
        proof {
            assert(calls@ =~= self.drop_calls(first_row, count));
        }
        calls
    }

    /// Removes the entity in row `index` and tells whether a row moved.
    ///
    /// Where `index` is the last row, it is dropped and no row moves.
    /// Otherwise the last row and row `index` change places first, so the
    /// entity that was last now lives in row `index`. Either way there is
    /// one row less, and the destructor calls owed for the removed entity,
    /// which is left just behind the last row, are returned.
    pub fn swap_drop_unchecked(&mut self, index: u32) -> (result: (bool, Vec<DropCall>))
        requires
            old(self).wf(),
            index < old(self).spec_size(),
        ensures
            final(self).wf(),
            old(self).removed(final(self), index as int),
            result.0 == (index != old(self).spec_size() - 1),
            result.0 ==> final(self).slot(index as int).metadata == old(self).slot(
                old(self).spec_size() - 1,
            ).metadata,
            !result.0 ==> forall|r: int|
                0 <= r < final(self).spec_size() ==> #[trigger] final(self).slot(r).metadata
                    == old(self).slot(r).metadata,
            result.1@ == old(self).drop_calls((old(self).spec_size() - 1) as u32, 1),
    {
        let last = self.entity_count - 1;
        let swapped = index != last;
        if swapped {
            self.swap_entities(index, last);
        }
        let ghost moved = *self;
        let calls = self.drop_entity(last);
        self.entity_count = last;
        proof {
            self.lemma_same_storage(&moved);
            assert(calls@ =~= old(self).drop_calls(last, 1));
            assert(self.rows() =~= old(self).rows().update(
                index as int,
                old(self).rows().last(),
            ).drop_last());
        }
        (swapped, calls)
    }

    /// Removes the entity in row `index` as `swap_drop_unchecked` does, but
    /// hands its components to the caller, grouped in the order of
    /// `group`, in place of the destructor calls.
    pub fn swap_remove_unchecked(
        &mut self,
        group: &ComponentGroupDescriptor,
        index: u32,
    ) -> (result: (ComponentGroup, bool))
        requires
            old(self).wf(),
            group.spec_is_valid(),
            group.spec_archetype()@ == old(self).spec_descriptor()@,
            index < old(self).spec_size(),
        ensures
            final(self).wf(),
            old(self).removed(final(self), index as int),
            result.1 == (index != old(self).spec_size() - 1),
            result.0.wf(),
            result.0.spec_descriptor().same_as(group),
            result.0.sorted_values() == old(self).slot(index as int).components,
    {
        let last = self.entity_count - 1;
        let swapped = index != last;
        if swapped {
            self.swap_entities(index, last);
        }
        let ghost moved = *self;
        let data = self.read_components_exact_unchecked(group, last);
        self.entity_count = last;
        proof {
            self.lemma_same_storage(&moved);
            assert(self.rows() =~= old(self).rows().update(
                index as int,
                old(self).rows().last(),
            ).drop_last());
        }
        (data, swapped)
    }
}

/// Components that carry the same id take the same number of bytes.
pub open spec fn sizes_agree(a: Seq<ComponentDescriptor>, b: Seq<ComponentDescriptor>) -> bool {
    forall|i: int, j: int|
        0 <= i < a.len() && 0 <= j < b.len() && (#[trigger] a[i]).id() == (#[trigger] b[j]).id()
            ==> a[i].size == b[j].size
}

impl Archetype {
    /// The bytes of the component with type `id` in row `index`.
    pub fn get_component_unchecked(&self, id: ComponentTypeId, index: u32) -> (value: &[u8])
        requires
            self.wf(),
            has_id(self.spec_descriptor()@, id@),
            index < self.spec_capacity(),
        ensures
            value@ == self.component_at(position_of(self.spec_descriptor()@, id@), index as int),
    {
        let column = self.descriptor.index_of(id).unwrap();
        let size = self.descriptor.component(column).size as usize;
        proof {
            assert(self.column_bytes(column as int).len() == self.capacity * size);
            lemma_row_in_bounds(size as int, index as int, self.capacity as int);
        }
        row_slice(&self.columns[column], size, index as usize)
    }

    /// The bytes of the component with type `id` in row `index`, for
    /// writing. What the borrow holds in the end takes the place of the
    /// component's bytes; as long as it holds as many bytes as before, the
    /// archetype stays well formed and nothing else changes.
    pub fn get_component_unchecked_mut(
        &mut self,
        id: ComponentTypeId,
        index: u32,
    ) -> (value: &mut [u8])
        requires
            old(self).wf(),
            has_id(old(self).spec_descriptor()@, id@),
            index < old(self).spec_capacity(),
        ensures
            value@ == old(self).component_at(
                position_of(old(self).spec_descriptor()@, id@),
                index as int,
            ),
            final(self).same_layout(old(self)),
            final(self).spec_size() == old(self).spec_size(),
            final(self).spec_capacity() == old(self).spec_capacity(),
            final(self).column_count() == old(self).column_count(),
            final(self).metadata_slots() == old(self).metadata_slots(),
            forall|c: int|
                0 <= c < final(self).column_count() ==> #[trigger] final(self).column_bytes(c)
                    == if c == position_of(old(self).spec_descriptor()@, id@) {
                    with_row(
                        old(self).column_bytes(c),
                        old(self).spec_descriptor()@[c].size as int,
                        index as int,
                        final(value)@,
                    )
                } else {
                    old(self).column_bytes(c)
                },
    {
        let column = self.descriptor.index_of(id).unwrap();
        let size = self.descriptor.component(column).size as usize;
        proof {
            assert(self.column_bytes(column as int).len() == self.capacity * size);
            lemma_row_in_bounds(size as int, index as int, self.capacity as int);
        }
        row_slice_mut(&mut self.columns[column], size, index as usize)
    }

    /// A copy of the bytes of the component with type `id` in row `index`.
    pub fn read_component_unchecked(&self, id: ComponentTypeId, index: u32) -> (value: Vec<u8>)
        requires
            self.wf(),
            has_id(self.spec_descriptor()@, id@),
            index < self.spec_capacity(),
        ensures
            value@ == self.component_at(position_of(self.spec_descriptor()@, id@), index as int),
    {
        let column = self.descriptor.index_of(id).unwrap();
        let size = self.descriptor.component(column).size as usize;
        proof {
            assert(self.column_bytes(column as int).len() == self.capacity * size);
            lemma_row_in_bounds(size as int, index as int, self.capacity as int);
        }
        read_row(&self.columns[column], size, index as usize)
    }

    /// The bookkeeping of the rows that hold entities.
    pub fn entity_metadata(&self) -> (metadata: &[EntityMetadata])
        requires
            self.wf(),
        ensures
            metadata@ == self.metadata_slots().subrange(0, self.spec_size() as int),
    {
        slice_subrange(self.entity_metadata.as_slice(), 0, self.entity_count as usize)
    }

    /// The bookkeeping of the rows that hold entities, for writing. What
    /// the borrow holds in the end takes the place of their bookkeeping.
    pub fn entity_metadata_mut(&mut self) -> (metadata: &mut [EntityMetadata])
        requires
            old(self).wf(),
        ensures
            metadata@ == old(self).metadata_slots().subrange(0, old(self).spec_size() as int),
            final(self).same_layout(old(self)),
            final(self).spec_size() == old(self).spec_size(),
            final(self).spec_capacity() == old(self).spec_capacity(),
            final(self).column_count() == old(self).column_count(),
            forall|c: int| #[trigger] final(self).column_bytes(c) == old(self).column_bytes(c),
            final(self).metadata_slots() == final(metadata)@ + old(self).metadata_slots().subrange(
                old(self).spec_size() as int,
                old(self).spec_capacity() as int,
            ),
    {
        let count = self.entity_count as usize;
        let (metadata, _) = self.entity_metadata.as_mut_slice().split_at_mut(count);
        metadata
    }

    /// Every column, whole, in column order.
    fn column_pointers(&self) -> (pointers: Vec<&[u8]>)
        ensures
            pointers@.len() == self.column_count(),
            forall|c: int|
                0 <= c < pointers@.len() ==> (#[trigger] pointers@[c])@ == self.column_bytes(c),
    {
        let n = self.columns.len();
        let mut pointers: Vec<&[u8]> = Vec::new();
        let mut c: usize = 0;
        while c < n
            invariant
                n == self.columns@.len(),
                c <= n,
                pointers@.len() == c,
                forall|k: int|
                    0 <= k < c ==> (#[trigger] pointers@[k])@ == self.column_bytes(k),
            decreases n - c,
        {
            pointers.push(self.columns[c].as_slice());
            c += 1;
        }
        pointers
    }

    /// For each component of `group`, in ascending order of ids, the whole
    /// column that stores it. The archetype may store more component types
    /// than the group names.
    pub fn get_fuzzy_pointers_unchecked(
        &self,
        group: &ComponentGroupDescriptor,
    ) -> (pointers: Vec<&[u8]>)
        requires
            self.wf(),
            group.wf(),
            is_superset(self.spec_descriptor()@, group.spec_archetype()@),
        ensures
            pointers@.len() == group.spec_archetype()@.len(),
            forall|j: int|
                0 <= j < pointers@.len() ==> (#[trigger] pointers@[j])@ == self.column_bytes(
                    position_of(self.spec_descriptor()@, group.spec_archetype()@[j].id()),
                ),
    {
        let columns = self.fuzzy_columns(group.archetype());
        let n = columns.len();
        let mut pointers: Vec<&[u8]> = Vec::new();
        let mut j: usize = 0;
        proof {
            lemma_ascending_is_distinct(self.spec_descriptor()@);
        }
        while j < n
            invariant
                self.wf(),
                distinct_ids(self.spec_descriptor()@),
                n == columns@.len(),
                n == group.spec_archetype()@.len(),
                j <= n,
                pointers@.len() == j,
                forall|k: int|
                    0 <= k < n ==> (#[trigger] columns@[k]) < self.column_count()
                        && self.spec_descriptor()@[columns@[k] as int].id()
                        == group.spec_archetype()@[k].id(),
                forall|k: int|
                    0 <= k < j ==> (#[trigger] pointers@[k])@ == self.column_bytes(
                        position_of(self.spec_descriptor()@, group.spec_archetype()@[k].id()),
                    ),
            decreases n - j,
        {
            let column = columns[j];
            proof {
                lemma_position_of_unique(self.spec_descriptor()@, column as int);
            }
            pointers.push(self.columns[column].as_slice());
            j += 1;
        }
        pointers
    }

    /// For each component of `group`, in the group's own order, the
    /// column of that component, cut to the rows that hold entities. The
    /// group names exactly the component types that the archetype stores.
    pub fn get_slices_unchecked_exact(
        &self,
        group: &ComponentGroupDescriptor,
    ) -> (slices: Vec<&[u8]>)
        requires
            self.wf(),
            group.wf(),
            group.spec_archetype()@ == self.spec_descriptor()@,
        ensures
            slices@.len() == group.declared().len(),
            forall|i: int|
                0 <= i < slices@.len() ==> (#[trigger] slices@[i])@ == self.column_bytes(
                    group.mapping()[i] as int,
                ).subrange(0, self.spec_size() * group.declared()[i].size),
    {
        let pointers = self.column_pointers();
        proof {
            assert forall|j: int| 0 <= j < pointers@.len() implies self.entity_count
                * group.spec_archetype()@[j].size <= (#[trigger] pointers@[j])@.len() by {
                let size = self.spec_descriptor()@[j].size as int;
                assert(self.column_bytes(j).len() == self.capacity * size);
                assert(self.entity_count * size <= self.capacity * size) by (nonlinear_arith)
                    requires
                        self.entity_count <= self.capacity,
                        0 <= size,
                ;
            }
        }
        group.slice_unchecked(&pointers, self.entity_count as usize)
    }

    /// For each component of `group`, in the group's own order, the
    /// column of that component, cut to the rows that hold entities. The
    /// archetype may store more component types than the group names.
    pub fn get_fuzzy_slices_unchecked(
        &self,
        group: &ComponentGroupDescriptor,
    ) -> (slices: Vec<&[u8]>)
        requires
            self.wf(),
            group.spec_is_valid(),
            components_within(group.spec_archetype()@, self.spec_descriptor()@),
        ensures
            slices@.len() == group.declared().len(),
            forall|i: int|
                0 <= i < slices@.len() ==> (#[trigger] slices@[i])@ == self.column_bytes(
                    position_of(self.spec_descriptor()@, group.declared()[i].id()),
                ).subrange(0, self.spec_size() * group.declared()[i].size),
    {
        proof {
            lemma_within_is_superset(group.spec_archetype()@, self.spec_descriptor()@);
            lemma_ascending_is_distinct(self.spec_descriptor()@);
        }
        let pointers = self.get_fuzzy_pointers_unchecked(group);
        proof {
            assert forall|j: int| 0 <= j < pointers@.len() implies self.entity_count
                * group.spec_archetype()@[j].size <= (#[trigger] pointers@[j])@.len() by {
                let wanted = group.spec_archetype()@[j];
                assert(self.spec_descriptor()@.contains(wanted));
                let p = choose|p: int|
                    0 <= p < self.spec_descriptor()@.len() && self.spec_descriptor()@[p] == wanted;
                lemma_position_of_unique(self.spec_descriptor()@, p);
                let size = wanted.size as int;
                assert(self.column_bytes(p).len() == self.capacity * size);
                assert(self.entity_count * size <= self.capacity * size) by (nonlinear_arith)
                    requires
                        self.entity_count <= self.capacity,
                        0 <= size,
                ;
            }
        }
        group.slice_unchecked(&pointers, self.entity_count as usize)
    }

    /// Copies, from row `source_index` of `source` into row
    /// `destination_index` of `destination`, the bytes of every component
    /// whose type both archetypes store. Components that only the
    /// destination stores, its other rows and its bookkeeping stay as they
    /// are. Both id sequences ascend, so one pass over the two suffices.
    pub fn copy_common_components_between_archetypes_unchecked(
        source: &Archetype,
        source_index: u32,
        destination: &mut Archetype,
        destination_index: u32,
    )
        requires
            source.wf(),
            old(destination).wf(),
            source_index < source.spec_capacity(),
            destination_index < old(destination).spec_capacity(),
            sizes_agree(source.spec_descriptor()@, old(destination).spec_descriptor()@),
        ensures
            final(destination).wf(),
            old(destination).copied_from(
                final(destination),
                source,
                source_index as int,
                destination_index as int,
            ),
    {
        let n = source.columns.len();
        let m = destination.columns.len();
        let mut i: usize = 0;
        let mut j: usize = 0;
        proof {
            lemma_ascending_is_distinct(source.spec_descriptor()@);
        }
        while j < m
            invariant
                source.wf(),
                old(destination).wf(),
                distinct_ids(source.descriptor@),
                source_index < source.capacity,
                destination_index < old(destination).capacity,
                sizes_agree(source.descriptor@, old(destination).descriptor@),
                n == source.columns@.len(),
                m == destination.columns@.len(),
                m == old(destination).columns@.len(),
                i <= n,
                j <= m,
                destination.descriptor == old(destination).descriptor,
                destination.first_shard_index == old(destination).first_shard_index,
                destination.last_shard_index == old(destination).last_shard_index,
                destination.entity_metadata == old(destination).entity_metadata,
                destination.entity_count == old(destination).entity_count,
                destination.capacity == old(destination).capacity,
                forall|k: int|
                    0 <= k < i && j < m ==> (#[trigger] source.descriptor@[k]).id()
                        < destination.descriptor@[j as int].id(),
                forall|c: int|
                    0 <= c < m
                        ==> (#[trigger] destination.columns@[c])@.len()
                        == old(destination).columns@[c]@.len(),
                forall|c: int|
                    j <= c < m
                        ==> #[trigger] destination.columns@[c] == old(destination).columns@[c],
                forall|c: int|
                    0 <= c < j ==> #[trigger] row_bytes(
                        destination.columns@[c]@,
                        destination.descriptor@[c].size as int,
                        destination_index as int,
                    ) == if has_id(source.descriptor@, destination.descriptor@[c].id()) {
                        source.component_at(
                            position_of(source.descriptor@, destination.descriptor@[c].id()),
                            source_index as int,
                        )
                    } else {
                        old(destination).component_at(c, destination_index as int)
                    },
                forall|c: int, r: int|
                    0 <= c < m && 0 <= r < destination.capacity && r != destination_index
                        ==> #[trigger] row_bytes(
                        destination.columns@[c]@,
                        destination.descriptor@[c].size as int,
                        r,
                    ) == row_bytes(
                        old(destination).columns@[c]@,
                        destination.descriptor@[c].size as int,
                        r,
                    ),
            decreases (m - j) + (n - i),
        {
            let wanted = destination.descriptor.component(j).component_type_id.into_u16();
            if i < n && source.descriptor.component(i).component_type_id.into_u16() < wanted {
                i += 1;
            } else if i < n && source.descriptor.component(i).component_type_id.into_u16()
                == wanted {
                let size = destination.descriptor.component(j).size as usize;
                let ghost before = destination.columns@;
                proof {
                    assert(source.descriptor@[i as int].size == size);
                    assert(source.column_bytes(i as int).len() == source.capacity * size);
                    assert(old(destination).column_bytes(j as int).len()
                        == old(destination).capacity * size);
                    lemma_row_in_bounds(size as int, source_index as int, source.capacity as int);
                    lemma_row_in_bounds(
                        size as int,
                        destination_index as int,
                        old(destination).capacity as int,
                    );
                    lemma_position_of_unique(source.descriptor@, i as int);
                    if j + 1 < m {
                        assert(destination.descriptor@[j as int].id() < destination.descriptor@[j
                            + 1].id());
                    }
                }
                let bytes = row_slice(&source.columns[i], size, source_index as usize);
                write_row(&mut destination.columns[j], size, destination_index as usize, bytes);
                proof {
                    assert forall|c: int, r: int|
                        0 <= c < m && 0 <= r < destination.capacity && r
                            != destination_index implies #[trigger] row_bytes(
                        destination.columns@[c]@,
                        destination.descriptor@[c].size as int,
                        r,
                    ) == row_bytes(
                        old(destination).columns@[c]@,
                        destination.descriptor@[c].size as int,
                        r,
                    ) by {
                        if c == j {
                            lemma_row_in_bounds(size as int, r, old(destination).capacity as int);
                            assert(row_bytes(destination.columns@[c]@, size as int, r)
                                == row_bytes(before[c]@, size as int, r));
                        } else {
                            assert(destination.columns@[c] == before[c]);
                        }
                    }
                    assert forall|c: int| 0 <= c < j implies destination.columns@[c]
                        == before[c] by {}
                }
                i += 1;
                j += 1;
            } else {
                proof {
                    assert(!has_id(source.descriptor@, wanted)) by {
                        assert forall|k: int| 0 <= k < n implies (
                        #[trigger] source.descriptor@[k]).id() != wanted by {
                            if k > i {
                                assert(source.descriptor@[i as int].id()
                                    < source.descriptor@[k].id());
                            }
                        }
                    }
                    if j + 1 < m {
                        assert(destination.descriptor@[j as int].id() < destination.descriptor@[j
                            + 1].id());
                    }
                }
                j += 1;
            }
        }
        proof {
            destination.lemma_wf_from_lengths(old(destination));
            assert forall|r: int|
                0 <= r < destination.spec_capacity() && r
                    != destination_index
                        implies #[trigger] destination.slot(r) == old(destination).slot(r) by {
                assert forall|c: int|
                    0 <= c < destination.column_count() implies destination.component_at(c, r)
                    == old(destination).component_at(c, r) by {
                    assert(row_bytes(
                        destination.columns@[c]@,
                        destination.descriptor@[c].size as int,
                        r,
                    ) == row_bytes(
                        old(destination).columns@[c]@,
                        destination.descriptor@[c].size as int,
                        r,
                    ));
                }
                assert(destination.slot(r).components =~= old(destination).slot(r).components);
            }
        }
    }

    /// An archetype that has the layout and the capacity of a well-formed
    /// one, and columns and bookkeeping of the same lengths, is well
    /// formed. So it is after a borrow for writing that ended with slices
    /// as long as they were lent.
    pub proof fn lemma_wf_from_lengths(&self, other: &Archetype)
        requires
            other.wf(),
            self.same_layout(other),
            self.spec_capacity() == other.spec_capacity(),
            self.spec_size() <= self.spec_capacity(),
            self.column_count() == other.column_count(),
            self.metadata_slots().len() == other.metadata_slots().len(),
            forall|c: int|
                0 <= c < self.column_count() ==> (#[trigger] self.column_bytes(c)).len()
                    == other.column_bytes(c).len(),
        ensures
            self.wf(),
    {
        assert forall|c: int| 0 <= c < self.column_count() implies (#[trigger] self.column_bytes(
            c,
        )).len() == self.spec_capacity() * self.spec_descriptor()@[c].size by {
            assert(other.column_bytes(c).len() == other.spec_capacity()
                * other.spec_descriptor()@[c].size);
        }
    }
}

impl Archetype {
    /// Every column, whole, for writing, in column order.
    fn column_pointers_mut<'a>(&'a mut self) -> (pointers: Vec<&'a mut [u8]>)
        ensures
            pointers@.len() == old(self).column_count(),
            final(self).same_layout(old(self)),
            final(self).spec_size() == old(self).spec_size(),
            final(self).spec_capacity() == old(self).spec_capacity(),
            final(self).column_count() == old(self).column_count(),
            final(self).metadata_slots() == old(self).metadata_slots(),
            forall|c: int|
                0 <= c < pointers@.len() ==> pointers@[c]@ == #[trigger] old(self).column_bytes(c)
                    && final(self).column_bytes(c) == final(pointers@[c])@,
    {
        let n = self.columns.len();
        let mut pointers: Vec<&'a mut [u8]> = Vec::new();
        let mut rest: &'a mut [Vec<u8>] = self.columns.as_mut_slice();
        let mut c: usize = 0;
        while c < n
            invariant
                c <= n,
                n == old(self).columns@.len(),
                c + rest@.len() == n,
                pointers@.len() == c,
                forall|k: int| 0 <= k < rest@.len()
                    ==> #[trigger] rest@[k] == old(self).columns@[c + k],
                forall|k: int|
                    0 <= k < c ==> pointers@[k]@ == (#[trigger] old(self).columns@[k])@,
                after_borrow(self.columns)@.len() == c + final(rest)@.len(),
                forall|k: int|
                    0 <= k < c ==> (#[trigger] after_borrow(self.columns)@[k])@ == final(
                        pointers@[k])@,
                forall|k: int|
                    c <= k < after_borrow(self.columns)@.len()
                        ==> #[trigger] after_borrow(self.columns)@[k] == final(rest)@[k - c],
            decreases n - c,
        {
            let (head, tail) = rest.split_at_mut(1);
            let column = head.first_mut().unwrap();
            pointers.push(column.as_mut_slice());
            rest = tail;
            c += 1;
        }
        pointers
    }

    /// The references to whole columns that belong to the columns named
    /// in `columns`, which ascend. The other columns stay as they are.
    fn pick_columns<'a>(all: Vec<&'a mut [u8]>, columns: &Vec<usize>) -> (picked: Vec<&'a mut [u8]>)
        requires
            forall|t: int| 0 <= t < columns@.len() ==> (#[trigger] columns@[t]) < all@.len(),
            forall|s: int, t: int|
                0 <= s < t < columns@.len() ==> (#[trigger] columns@[s]) < (#[trigger] columns@[t]),
        ensures
            picked@.len() == columns@.len(),
            forall|t: int|
                0 <= t < columns@.len() ==> picked@[t]@ == all@[(#[trigger] columns@[t]) as int]@
                    && final(all@[columns@[t] as int])@ == final(picked@[t])@,
            forall|c: int|
                0 <= c < all@.len() && #[trigger] unpicked(columns@, c) ==> final(all@[c])@
                    == all@[c]@,
    {
        let mut waiting = all;
        let n = waiting.len();
        let mut picked: Vec<&'a mut [u8]> = Vec::new();
        let mut t: usize = columns.len();
        let mut c: usize = n;
        while c > 0
            invariant
                n == all@.len(),
                c <= n,
                t <= columns@.len(),
                forall|k: int| 0 <= k < columns@.len() ==> (#[trigger] columns@[k]) < n,
                forall|s: int, k: int|
                    0 <= s < k < columns@.len() ==> (#[trigger] columns@[s]) < (
                    #[trigger] columns@[k]),
                forall|k: int| 0 <= k < t ==> (#[trigger] columns@[k]) < c,
                forall|k: int| t <= k < columns@.len() ==> (#[trigger] columns@[k]) >= c,
                waiting@.len() == c,
                forall|k: int|
                    0 <= k < c && #[trigger] unplaced(k) ==> waiting@[k]@ == all@[k]@ && final(
                        waiting@[k])@ == final(all@[k])@,
                picked@.len() == columns@.len() - t,
                forall|k: int|
                    t <= k < columns@.len() ==> picked@[k - t]@ == all@[(
                    #[trigger] columns@[k]) as int]@ && final(all@[columns@[k] as int])@ == final(
                        picked@[k - t])@,
                forall|k: int|
                    c <= k < n && #[trigger] unpicked(columns@, k) ==> final(all@[k])@ == all@[k]@,
            decreases c,
        {
            c -= 1;
            let ghost before = waiting@;
            let ghost done = picked@;
            let pointer = waiting.pop().unwrap();
            proof {
                assert(unplaced(c as int));
                assert forall|k: int| 0 <= k < c && #[trigger] unplaced(k) implies waiting@[k]@
                    == all@[k]@ && final(waiting@[k])@ == final(all@[k])@ by {
                    assert(waiting@[k] == before[k]);
                }
            }
            if t > 0 && columns[t - 1] == c {
                picked.insert(0, pointer);
                t -= 1;
                proof {
                    assert forall|k: int| t <= k < columns@.len() implies picked@[k - t]@ == all@[(
                    #[trigger] columns@[k]) as int]@ && final(all@[columns@[k] as int])@ == final(
                        picked@[k - t])@ by {
                        if k > t {
                            assert(picked@[k - t] == done[k - t - 1]);
                        }
                    }
                    assert forall|k: int| 0 <= k < t implies (#[trigger] columns@[k]) < c by {
                        assert(columns@[k] < columns@[t as int]);
                    }
                    assert forall|k: int|
                        c <= k < n && #[trigger] unpicked(columns@, k) implies final(all@[k])@
                        == all@[k]@ by {
                        if k == c {
                            assert(columns@[t as int] == c);
                        }
                    }
                }
            } else {
                proof {
                    assert forall|k: int| 0 <= k < t implies (#[trigger] columns@[k]) < c by {
                        if k < t - 1 {
                            assert(columns@[k] < columns@[t - 1]);
                        }
                    }
                }
            }
        }
        proof {
            if t > 0 {
                assert(columns@[0] < c);
            }
            assert forall|k: int| 0 <= k < columns@.len() implies picked@[k]@ == all@[(
            #[trigger] columns@[k]) as int]@ && final(all@[columns@[k] as int])@ == final(
                picked@[k])@ by {
                assert(picked@[k - 0] == picked@[k]);
            }
        }
        picked
    }

    /// For each component of `group`, in the group's own order, the
    /// column of that component, cut to the rows that hold entities, for
    /// writing. The group names exactly the component types that the
    /// archetype stores. What a slice holds in the end takes the place of
    /// the cut part of its column.
    pub fn get_slices_unchecked_exact_mut<'a>(
        &'a mut self,
        group: &ComponentGroupDescriptor,
    ) -> (slices: Vec<&'a mut [u8]>)
        requires
            old(self).wf(),
            group.wf(),
            group.spec_archetype()@ == old(self).spec_descriptor()@,
        ensures
            slices@.len() == group.declared().len(),
            final(self).same_layout(old(self)),
            final(self).spec_size() == old(self).spec_size(),
            final(self).spec_capacity() == old(self).spec_capacity(),
            final(self).column_count() == old(self).column_count(),
            final(self).metadata_slots() == old(self).metadata_slots(),
            forall|i: int|
                0 <= i < slices@.len() ==> slices@[i]@ == old(self).column_bytes(
                    (#[trigger] group.mapping()[i]) as int,
                ).subrange(0, old(self).spec_size() * group.declared()[i].size)
                    && final(self).column_bytes(group.mapping()[i] as int)
                    == final(slices@[i])@
                    + old(self).column_bytes(group.mapping()[i] as int).subrange(
                    old(self).spec_size() * group.declared()[i].size,
                    old(self).column_bytes(group.mapping()[i] as int).len() as int,
                ),
    {
        let count = self.entity_count as usize;
        proof {
            assert forall|j: int| 0 <= j < self.column_count() implies count * (
            #[trigger] group.spec_archetype()@[j]).size <= self.column_bytes(j).len() by {
                let size = self.spec_descriptor()@[j].size as int;
                assert(self.column_bytes(j).len() == self.capacity * size);
                assert(self.entity_count * size <= self.capacity * size) by (nonlinear_arith)
                    requires
                        self.entity_count <= self.capacity,
                        0 <= size,
                ;
            }
        }
        let pointers = self.column_pointers_mut();
        group.slice_unchecked_mut(pointers, count)
    }

    /// For each component of `group`, in the group's own order, the
    /// column of that component, cut to the rows that hold entities, for
    /// writing. The archetype may store more component types than the
    /// group names; their columns stay as they are. What a slice holds in
    /// the end takes the place of the cut part of its column.
    pub fn get_fuzzy_slices_unchecked_mut<'a>(
        &'a mut self,
        group: &ComponentGroupDescriptor,
    ) -> (slices: Vec<&'a mut [u8]>)
        requires
            old(self).wf(),
            group.spec_is_valid(),
            components_within(group.spec_archetype()@, old(self).spec_descriptor()@),
        ensures
            slices@.len() == group.declared().len(),
            final(self).same_layout(old(self)),
            final(self).spec_size() == old(self).spec_size(),
            final(self).spec_capacity() == old(self).spec_capacity(),
            final(self).column_count() == old(self).column_count(),
            final(self).metadata_slots() == old(self).metadata_slots(),
            forall|i: int|
                0 <= i < slices@.len() ==> slices@[i]@ == old(self).column_bytes(
                    position_of(old(self).spec_descriptor()@,
                        (#[trigger] group.declared()[i]).id()),
                ).subrange(0, old(self).spec_size() * group.declared()[i].size)
                    && final(self).column_bytes(
                    position_of(old(self).spec_descriptor()@, group.declared()[i].id()),
                ) == final(slices@[i])@ + old(self).column_bytes(
                    position_of(old(self).spec_descriptor()@, group.declared()[i].id()),
                ).subrange(
                    old(self).spec_size() * group.declared()[i].size,
                    old(self).column_bytes(
                        position_of(old(self).spec_descriptor()@, group.declared()[i].id()),
                    ).len() as int,
                ),
            forall|c: int|
                0 <= c < final(self).column_count() && !has_id(
                    group.spec_archetype()@,
                    old(self).spec_descriptor()@[c].id(),
                ) ==> #[trigger] final(self).column_bytes(c) == old(self).column_bytes(c),
    {
        let count = self.entity_count as usize;
        proof {
            lemma_within_is_superset(group.spec_archetype()@, self.spec_descriptor()@);
            lemma_ascending_is_distinct(self.spec_descriptor()@);
            lemma_ascending_is_distinct(group.spec_archetype()@);
        }
        let columns = self.fuzzy_columns(group.archetype());
        proof {
            assert forall|s: int, t: int| 0 <= s < t < columns@.len() implies (
            #[trigger] columns@[s]) < (#[trigger] columns@[t]) by {
                let stored = self.spec_descriptor()@;
                assert(group.spec_archetype()@[s].id() < group.spec_archetype()@[t].id());
                if columns@[s] > columns@[t] {
                    assert(stored[columns@[t] as int].id() < stored[columns@[s] as int].id());
                }
            }
            assert forall|j: int| 0 <= j < columns@.len() implies count * (
            #[trigger] group.spec_archetype()@[j]).size <= self.column_bytes(
                columns@[j] as int,
            ).len() && columns@[j] == position_of(
                self.spec_descriptor()@,
                group.spec_archetype()@[j].id(),
            ) by {
                let wanted = group.spec_archetype()@[j];
                assert(self.spec_descriptor()@.contains(wanted));
                let p = choose|p: int|
                    0 <= p < self.spec_descriptor()@.len() && self.spec_descriptor()@[p] == wanted;
                lemma_position_of_unique(self.spec_descriptor()@, p);
                lemma_position_of_unique(self.spec_descriptor()@, columns@[j] as int);
                let size = wanted.size as int;
                assert(self.column_bytes(p).len() == self.capacity * size);
                assert(self.entity_count * size <= self.capacity * size) by (nonlinear_arith)
                    requires
                        self.entity_count <= self.capacity,
                        0 <= size,
                ;
            }
            assert forall|c: int|
                #![trigger self.column_bytes(c)]
                0 <= c < self.column_count() && !has_id(
                    group.spec_archetype()@,
                    self.spec_descriptor()@[c].id(),
                ) implies unpicked(columns@, c) by {
                assert forall|t: int| 0 <= t < columns@.len() implies columns@[t] != c by {
                    if columns@[t] == c {
                        assert(group.spec_archetype()@[t].id() == self.spec_descriptor()@[c].id());
                    }
                }
            }
        }
        let all = self.column_pointers_mut();
        let picked = Self::pick_columns(all, &columns);
        group.slice_unchecked_mut(picked, count)
    }
}

/// Marks a column whose reference is still in the list it came in.
spec fn unplaced(column: int) -> bool {
    true
}

/// The column is none of the columns that are picked.
spec fn unpicked(columns: Seq<usize>, column: int) -> bool {
    forall|t: int| 0 <= t < columns.len() ==> #[trigger] columns[t] != column
}

} // verus!
