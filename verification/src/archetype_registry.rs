pub mod sorted_archetype_key;

use crate::archetype::Archetype;
use crate::archetype_descriptor::{
    has_id, ids_of, is_superset, lemma_superset_len, with_component, without_component,
    ArchetypeDescriptor,
};
use crate::archetype_id::archetype_id_of;
use crate::archetype_registry::sorted_archetype_key::{
    ascending_keys, search_keys, SortedArchetypeKey,
};
use crate::component_descriptor::ComponentDescriptor;
use crate::component_group_descriptor::ComponentGroupDescriptor;
use crate::component_type_id::ComponentTypeId;
use crate::constants::{
    DEFAULT_ARCHETYPE_ALLOCATION_SIZE, MAX_ARCHETYPE_COUNT, MAX_COMPONENTS_PER_ENTITY,
};
use vstd::prelude::*;

verus! {

/// The number of entries that each bucket of a new registry has room for.
const DEFAULT_VECTOR_CAPACITY: usize = 64;

/// The entry points at a descriptor that has the bucket's number of
/// components and the entry's identity.
pub open spec fn key_matches(
    descriptors: Seq<ArchetypeDescriptor>,
    bucket: int,
    key: SortedArchetypeKey,
) -> bool {
    &&& key.archetype_index < descriptors.len()
    &&& descriptors[key.archetype_index as int]@.len() == bucket + 1
    &&& descriptors[key.archetype_index as int].spec_archetype_id() == key.id
}

/// The descriptor at `index` has an entry in the bucket of its number of components.
pub open spec fn indexed(
    buckets: Seq<Seq<SortedArchetypeKey>>,
    descriptors: Seq<ArchetypeDescriptor>,
    index: int,
) -> bool {
    exists|k: int|
        0 <= k < buckets[descriptors[index]@.len() - 1].len() && (
        #[trigger] buckets[descriptors[index]@.len() - 1][k]).archetype_index == index
}

/// The buckets are an index of the descriptors: there is one bucket for
/// each number of components, every entry points at a descriptor of its
/// bucket and carries that descriptor's identity, the identities of a
/// bucket ascend strictly, and every descriptor has an entry.
pub open spec fn index_covers(
    buckets: Seq<Seq<SortedArchetypeKey>>,
    descriptors: Seq<ArchetypeDescriptor>,
) -> bool {
    &&& buckets.len() == MAX_COMPONENTS_PER_ENTITY
    &&& forall|b: int, k: int|
        0 <= b < buckets.len() && 0 <= k < buckets[b].len() ==> key_matches(
            descriptors,
            b,
            #[trigger] buckets[b][k],
        )
    &&& forall|b: int| 0 <= b < buckets.len() ==> ascending_keys(#[trigger] buckets[b])
    &&& forall|i: int| 0 <= i < descriptors.len() ==> #[trigger] indexed(buckets, descriptors, i)
}

/// Stores all archetypes, each under a stable index, and finds them by
/// their descriptor.
///
/// For each number of components there is a bucket of index entries, kept
/// in ascending order of the archetypes' identities. No two archetypes of
/// a registry have the same number of components and the same identity.
#[derive(Debug)]
pub struct ArchetypeRegistry {
    sorted_mappings: Vec<Vec<SortedArchetypeKey>>,
    archetypes: Vec<Archetype>,
}

impl ArchetypeRegistry {
    /// The archetypes, each at its index.
    pub closed spec fn archetypes(&self) -> Seq<Archetype> {
        self.archetypes@
    }

    /// The index entries: bucket `n - 1` holds the entries of the
    /// archetypes with `n` components.
    pub closed spec fn buckets(&self) -> Seq<Seq<SortedArchetypeKey>> {
        Seq::new(self.sorted_mappings@.len(), |b: int| self.sorted_mappings@[b]@)
    }

    /// The descriptors of the archetypes, each at its archetype's index.
    pub open spec fn descriptors(&self) -> Seq<ArchetypeDescriptor> {
        Seq::new(self.archetypes().len(), |i: int| self.archetypes()[i].spec_descriptor())
    }

    /// The invariant of every registry.
    pub open spec fn wf(&self) -> bool {
        &&& self.archetypes().len() <= MAX_ARCHETYPE_COUNT
        &&& forall|i: int|
            0 <= i < self.archetypes().len() ==> (#[trigger] self.archetypes()[i]).wf()
                && self.archetypes()[i].spec_descriptor().spec_is_valid()
        &&& index_covers(self.buckets(), self.descriptors())
    }

    /// Some archetype of the registry stores exactly these components.
    pub open spec fn contains_descriptor(&self, components: Seq<ComponentDescriptor>) -> bool {
        exists|i: int|
            0 <= i < self.archetypes().len() && (
            #[trigger] self.archetypes()[i]).spec_descriptor()@ == components
    }

    /// The index of an archetype that stores exactly these components;
    /// the only one in a well-formed registry.
    pub open spec fn index_of_descriptor(&self, components: Seq<ComponentDescriptor>) -> int {
        choose|i: int|
            0 <= i < self.archetypes().len() && (
            #[trigger] self.archetypes()[i]).spec_descriptor()@ == components
    }

    /// Some archetype of the registry has as many components as
    /// `components` and the identity that their ids hash to, but not the
    /// same components.
    pub open spec fn collides(&self, components: Seq<ComponentDescriptor>) -> bool {
        exists|i: int|
            0 <= i < self.archetypes().len() && (
            #[trigger] self.archetypes()[i]).spec_descriptor()@.len() == components.len()
                && self.archetypes()[i].spec_descriptor().spec_archetype_id()@ == archetype_id_of(
                ids_of(components),
            ) && self.archetypes()[i].spec_descriptor()@ != components
    }

    /// The registry stores these components already, or has room for an
    /// archetype that does and no archetype that collides with it.
    pub open spec fn can_hold(&self, components: Seq<ComponentDescriptor>) -> bool {
        self.contains_descriptor(components) || (self.archetypes().len() < MAX_ARCHETYPE_COUNT
            && !self.collides(components))
    }

    /// `after` holds the archetypes and the index entries of this registry.
    pub open spec fn unchanged(&self, after: &ArchetypeRegistry) -> bool {
        after.archetypes() == self.archetypes() && after.buckets() == self.buckets()
    }

    /// No two archetypes of a registry store the same components.
    pub proof fn lemma_descriptors_unique(&self, first: int, second: int)
        requires
            self.wf(),
            0 <= first < self.archetypes().len(),
            0 <= second < self.archetypes().len(),
            self.archetypes()[first].spec_descriptor()@
                == self.archetypes()[second].spec_descriptor()@,
        ensures
            first == second,
    {
        let a = self.archetypes()[first].spec_descriptor();
        let b = self.archetypes()[second].spec_descriptor();
        assert(self.archetypes()[first].wf() && self.archetypes()[second].wf());
        ArchetypeDescriptor::lemma_same_components_same_id(a, b);
        let keys = self.buckets()[a@.len() - 1];
        assert(indexed(self.buckets(), self.descriptors(), first));
        assert(indexed(self.buckets(), self.descriptors(), second));
        let i = choose|i: int| 0 <= i < keys.len() && (#[trigger] keys[i]).archetype_index == first;
        let j = choose|j: int|
            0 <= j < keys.len() && (#[trigger] keys[j]).archetype_index == second;
        assert(key_matches(self.descriptors(), a@.len() - 1, self.buckets()[a@.len() - 1][i]));
        assert(key_matches(self.descriptors(), a@.len() - 1, self.buckets()[a@.len() - 1][j]));
        assert(ascending_keys(self.buckets()[a@.len() - 1]));
        if i < j {
            assert(keys[i].id@ < keys[j].id@);
        } else if j < i {
            assert(keys[j].id@ < keys[i].id@);
        }
    }

    /// What a look-up in the bucket of `descriptor` tells: an entry with
    /// the descriptor's identity is the entry of every archetype with
    /// that identity and as many components, and without such an entry
    /// there is no such archetype.
    proof fn lemma_lookup(&self, descriptor: &ArchetypeDescriptor, found: Result<usize, usize>)
        requires
            self.wf(),
            descriptor.spec_is_valid(),
            ({
                let keys = self.buckets()[descriptor@.len() - 1];
                let id = descriptor.spec_archetype_id()@;
                &&& found matches Ok(k) ==> k < keys.len() && keys[k as int].id@ == id
                &&& found matches Err(k) ==> k <= keys.len() && (forall|j: int|
                    0 <= j < k ==> (#[trigger] keys[j]).id@ < id) && (forall|j: int|
                    k <= j < keys.len() ==> (#[trigger] keys[j]).id@ > id)
            }),
        ensures
            forall|i: int|
                0 <= i < self.archetypes().len() && (
                #[trigger] self.archetypes()[i]).spec_descriptor()@.len() == descriptor@.len()
                    && self.archetypes()[i].spec_descriptor().spec_archetype_id()@
                    == descriptor.spec_archetype_id()@ ==> found is Ok
                    && self.buckets()[descriptor@.len() - 1][found->Ok_0 as int].archetype_index
                    == i,
            forall|i: int|
                0 <= i < self.archetypes().len() && (
                #[trigger] self.archetypes()[i]).spec_descriptor()@ == descriptor@
                    ==> self.archetypes()[i].spec_descriptor().spec_archetype_id()
                    == descriptor.spec_archetype_id(),
    {
        let keys = self.buckets()[descriptor@.len() - 1];
        let id = descriptor.spec_archetype_id()@;
        assert forall|i: int|
            0 <= i < self.archetypes().len() && (
            #[trigger] self.archetypes()[i]).spec_descriptor()@.len() == descriptor@.len()
                && self.archetypes()[i].spec_descriptor().spec_archetype_id()@
                == descriptor.spec_archetype_id()@ implies found is Ok
            && keys[found->Ok_0 as int].archetype_index == i by {
            assert(indexed(self.buckets(), self.descriptors(), i));
            let at = choose|at: int|
                0 <= at < keys.len() && (#[trigger] keys[at]).archetype_index == i;
            assert(key_matches(
                self.descriptors(),
                descriptor@.len() - 1,
                self.buckets()[descriptor@.len() - 1][at],
            ));
            assert(keys[at].id@ == id);
            assert(ascending_keys(self.buckets()[descriptor@.len() - 1]));
            match found {
                Ok(k) => {
                    if at < k {
                        assert(keys[at].id@ < keys[k as int].id@);
                    } else if k < at {
                        assert(keys[k as int].id@ < keys[at].id@);
                    }
                },
                Err(k) => {},
            }
        }
        assert forall|i: int|
            0 <= i < self.archetypes().len() && (
            #[trigger] self.archetypes()[i]).spec_descriptor()@
                == descriptor@ implies self.archetypes()[i].spec_descriptor().spec_archetype_id()
            == descriptor.spec_archetype_id() by {
            ArchetypeDescriptor::lemma_same_components_same_id(
                self.archetypes()[i].spec_descriptor(),
                *descriptor,
            );
        }
    }

    /// The place of the archetype that stores exactly the components of
    /// `descriptor`, if the registry holds one.
    fn find_index(&self, descriptor: &ArchetypeDescriptor) -> (found: Option<usize>)
        requires
            self.wf(),
            descriptor.spec_is_valid(),
        ensures
            found is Some <==> self.contains_descriptor(descriptor@),
            found matches Some(index) ==> index == self.index_of_descriptor(descriptor@) && index
                < self.archetypes().len() && self.archetypes()[index as int].spec_descriptor()@
                == descriptor@,
    {
        let len = descriptor.len() as usize;
        proof {
            assert(self.buckets()[len - 1] == self.sorted_mappings@[len - 1]@);
            assert(ascending_keys(self.buckets()[len - 1]));
        }
        let keys = &self.sorted_mappings[len - 1];
        let found = search_keys(keys, descriptor.archetype_id().into_u64());
        proof {
            self.lemma_lookup(descriptor, found);
        }
        match found {
            Ok(k) => {
                proof {
                    assert(key_matches(self.descriptors(), len - 1,
                        self.buckets()[len - 1][k as int]));
                }
                let index = keys[k].archetype_index as usize;
                if self.archetypes[index].descriptor().equals(descriptor) {
                    Some(index)
                } else {
                    None
                }
            },
            Err(_) => None,
        }
    }

    /// Finds the archetype that stores exactly the components of `archetype_descriptor`.
    pub fn find_archetype(
        &self,
        archetype_descriptor: &ArchetypeDescriptor,
    ) -> (found: Option<&Archetype>)
        requires
            self.wf(),
            archetype_descriptor.wf(),
        ensures
            found is Some <==> archetype_descriptor.spec_is_valid() && self.contains_descriptor(
                archetype_descriptor@,
            ),
            found matches Some(archetype) ==> *archetype
                == self.archetypes()[self.index_of_descriptor(archetype_descriptor@)],
    {
        let len = archetype_descriptor.len() as usize;
        if len > MAX_COMPONENTS_PER_ENTITY || !archetype_descriptor.is_valid() {
            return None;
        }
        match self.find_index(archetype_descriptor) {
            Some(index) => Some(&self.archetypes[index]),
            None => None,
        }
    }

    /// Finds the archetype that stores exactly the components of
    /// `archetype_descriptor`, for writing. What the borrow holds in the
    /// end takes the archetype's place in the registry.
    pub fn find_archetype_mut(
        &mut self,
        archetype_descriptor: &ArchetypeDescriptor,
    ) -> (found: Option<&mut Archetype>)
        requires
            old(self).wf(),
            archetype_descriptor.wf(),
        ensures
            found is Some <==> archetype_descriptor.spec_is_valid()
                && old(self).contains_descriptor(archetype_descriptor@),
            final(self).buckets() == old(self).buckets(),
            found is None ==> old(self).unchanged(final(self)),
            found matches Some(archetype) ==> {
                let index = old(self).index_of_descriptor(archetype_descriptor@);
                &&& *archetype == old(self).archetypes()[index]
                &&& final(self).archetypes() == old(self).archetypes().update(
                    index,
                    *final(archetype),
                )
            },
    {
        let len = archetype_descriptor.len() as usize;
        if len > MAX_COMPONENTS_PER_ENTITY || !archetype_descriptor.is_valid() {
            return None;
        }
        match self.find_index(archetype_descriptor) {
            Some(index) => Some(&mut self.archetypes[index]),
            None => None,
        }
    }

    /// The archetype at `index`.
    pub fn get_unchecked(&self, index: u16) -> (archetype: &Archetype)
        requires
            index < self.archetypes().len(),
        ensures
            *archetype == self.archetypes()[index as int],
    {
        &self.archetypes[index as usize]
    }

    /// The archetype at `index`, for writing. What the borrow holds in
    /// the end takes the archetype's place in the registry.
    pub fn get_unchecked_mut(&mut self, index: u16) -> (archetype: &mut Archetype)
        requires
            index < old(self).archetypes().len(),
        ensures
            *archetype == old(self).archetypes()[index as int],
            final(self).buckets() == old(self).buckets(),
            final(self).archetypes() == old(self).archetypes().update(
                index as int,
                *final(archetype),
            ),
    {
        &mut self.archetypes[index as usize]
    }

    /// A registry stays well formed when one of its archetypes is
    /// replaced by a well-formed archetype with the same descriptor.
    pub proof fn lemma_wf_after_update(
        before: ArchetypeRegistry,
        after: ArchetypeRegistry,
        index: int,
        archetype: Archetype,
    )
        requires
            before.wf(),
            0 <= index < before.archetypes().len(),
            after.archetypes() == before.archetypes().update(index, archetype),
            after.buckets() == before.buckets(),
            archetype.wf(),
            archetype.spec_descriptor() == before.archetypes()[index].spec_descriptor(),
        ensures
            after.wf(),
            after.descriptors() == before.descriptors(),
    {
        assert(after.descriptors() =~= before.descriptors());
        assert forall|i: int| 0 <= i < after.archetypes().len() implies (
        #[trigger] after.archetypes()[i]).wf()
            && after.archetypes()[i].spec_descriptor().spec_is_valid() by {
            if i != index {
                assert(before.archetypes()[i].wf());
            } else {
                assert(before.archetypes()[index].spec_descriptor().spec_is_valid());
            }
        }
    }
}

impl Default for ArchetypeRegistry {
    /// The registry without archetypes.
    fn default() -> (registry: ArchetypeRegistry)
        ensures
            registry.wf(),
            registry.archetypes().len() == 0,
    {
        let mut sorted_mappings: Vec<Vec<SortedArchetypeKey>> = Vec::with_capacity(
            MAX_COMPONENTS_PER_ENTITY,
        );
        let mut b: usize = 0;
        while b < MAX_COMPONENTS_PER_ENTITY
            invariant
                b <= MAX_COMPONENTS_PER_ENTITY,
                sorted_mappings@.len() == b,
                forall|k: int| 0 <= k < b ==> (#[trigger] sorted_mappings@[k])@.len() == 0,
            decreases MAX_COMPONENTS_PER_ENTITY - b,
        {
            sorted_mappings.push(Vec::with_capacity(DEFAULT_VECTOR_CAPACITY));
            b += 1;
        }
        ArchetypeRegistry {
            sorted_mappings,
            archetypes: Vec::with_capacity(2 * DEFAULT_VECTOR_CAPACITY),
        }
    }
}

impl ArchetypeRegistry {
    /// The archetype is one that the registry has just made: without rows,
    /// with room for [`DEFAULT_ARCHETYPE_ALLOCATION_SIZE`] rows, and with
    /// an empty shard range.
    pub open spec fn fresh(archetype: Archetype) -> bool {
        &&& archetype.wf()
        &&& archetype.spec_size() == 0
        &&& archetype.spec_capacity() == DEFAULT_ARCHETYPE_ALLOCATION_SIZE
        &&& archetype.spec_first_shard_index() == 0
        &&& archetype.spec_last_shard_index() == 0
    }

    /// The place of the archetype that stores exactly the components of
    /// `descriptor`. Where the registry holds none, one is made, appended
    /// and entered in the index.
    fn find_or_create_index(&mut self, descriptor: &ArchetypeDescriptor) -> (found: Option<u16>)
        requires
            old(self).wf(),
            descriptor.spec_is_valid(),
        ensures
            final(self).wf(),
            found is Some <==> old(self).can_hold(descriptor@),
            found is None || old(self).contains_descriptor(descriptor@) ==> old(self).unchanged(
                final(self),
            ),
            found matches Some(index) ==> {
                let archetype = final(self).archetypes()[index as int];
                &&& index < final(self).archetypes().len()
                &&& archetype.spec_descriptor()@ == descriptor@
                &&& archetype.spec_descriptor().spec_archetype_id()
                    == descriptor.spec_archetype_id()
                &&& if old(self).contains_descriptor(descriptor@) {
                    index == old(self).index_of_descriptor(descriptor@)
                } else {
                    &&& index == old(self).archetypes().len()
                    &&& final(self).archetypes() == old(self).archetypes().push(archetype)
                    &&& Self::fresh(archetype)
                }
            },
    {
        let len = descriptor.len() as usize;
        proof {
            assert(self.buckets()[len - 1] == self.sorted_mappings@[len - 1]@);
            assert(ascending_keys(self.buckets()[len - 1]));
        }
        let id = descriptor.archetype_id();
        let found = search_keys(&self.sorted_mappings[len - 1], id.into_u64());
        proof {
            self.lemma_lookup(descriptor, found);
        }
        match found {
            Ok(k) => {
                proof {
                    assert(key_matches(self.descriptors(), len - 1,
                        self.buckets()[len - 1][k as int]));
                }
                let index = self.sorted_mappings[len - 1][k].archetype_index;
                if self.archetypes[index as usize].descriptor().equals(descriptor) {
                    Some(index)
                } else {
                    proof {
                        assert(self.archetypes()[index as int].spec_descriptor()@ != descriptor@);
                    }
                    None
                }
            },
            Err(insertion_index) => {
                if self.archetypes.len() >= MAX_ARCHETYPE_COUNT {
                    return None;
                }
                proof {
                    assert forall|c: int| 0 <= c < descriptor@.len()
                        implies DEFAULT_ARCHETYPE_ALLOCATION_SIZE
                        * (#[trigger] descriptor@[c]).size <= usize::MAX by {
                        assert(64 * descriptor@[c].size <= 0xffff_ffff);
                    }
                }
                let archetype = match Archetype::with_capacity(
                    descriptor,
                    DEFAULT_ARCHETYPE_ALLOCATION_SIZE as u32,
                ) {
                    Ok(archetype) => archetype,
                    Err(_) => {
                        return None;
                    },
                };
                let index = self.archetypes.len() as u16;
                let key = SortedArchetypeKey { id, archetype_index: index };
                let ghost before = *self;
                let ghost keys_before = self.sorted_mappings@[len - 1]@;
                self.archetypes.push(archetype);
                self.sorted_mappings[len - 1].insert(insertion_index, key);
                proof {
                    let b0 = len - 1;
                    let descriptors = self.descriptors();
                    assert(descriptors =~= before.descriptors().push(archetype.spec_descriptor()));
                    assert(self.buckets()[b0] == keys_before.insert(insertion_index as int, key));
                    assert forall|b: int| 0 <= b < self.buckets().len() && b
                        != b0 implies #[trigger] self.buckets()[b] == before.buckets()[b] by {
                        assert(self.sorted_mappings@[b] == before.sorted_mappings@[b]);
                    }
                    assert forall|b: int, k: int|
                        0 <= b < self.buckets().len() && 0 <= k < self.buckets()[b].len()
                            implies key_matches(
                        descriptors,
                        b,
                        #[trigger] self.buckets()[b][k],
                    ) by {
                        if b == b0 {
                            if k < insertion_index {
                                assert(self.buckets()[b][k] == before.buckets()[b][k]);
                                assert(key_matches(before.descriptors(), b,
                                    before.buckets()[b][k]));
                            } else if k > insertion_index {
                                assert(self.buckets()[b][k] == before.buckets()[b][k - 1]);
                                assert(key_matches(
                                    before.descriptors(),
                                    b,
                                    before.buckets()[b][k - 1],
                                ));
                            } else {
                                assert(self.buckets()[b][k] == key);
                            }
                        } else {
                            assert(self.buckets()[b] == before.buckets()[b]);
                            assert(key_matches(before.descriptors(), b, before.buckets()[b][k]));
                        }
                    }
                    assert forall|b: int| 0 <= b < self.buckets().len() implies ascending_keys(
                        #[trigger] self.buckets()[b],
                    ) by {
                        if b == b0 {
                            let keys = self.buckets()[b];
                            assert(ascending_keys(before.buckets()[b]));
                            assert forall|x: int, y: int| 0 <= x < y < keys.len() implies (
                            #[trigger] keys[x]).id@ < (#[trigger] keys[y]).id@ by {
                                let x0 = if x < insertion_index {
                                    x
                                } else {
                                    x - 1
                                };
                                let y0 = if y < insertion_index {
                                    y
                                } else {
                                    y - 1
                                };
                                if x != insertion_index {
                                    assert(keys[x] == keys_before[x0]);
                                }
                                if y != insertion_index {
                                    assert(keys[y] == keys_before[y0]);
                                }
                            }
                        } else {
                            assert(self.buckets()[b] == before.buckets()[b]);
                            assert(ascending_keys(before.buckets()[b]));
                        }
                    }
                    assert forall|i: int| 0 <= i < descriptors.len() implies #[trigger] indexed(
                        self.buckets(),
                        descriptors,
                        i,
                    ) by {
                        if i == index {
                            assert(self.buckets()[b0][insertion_index as int].archetype_index
                                == i);
                        } else {
                            assert(indexed(before.buckets(), before.descriptors(), i));
                            let b = before.descriptors()[i]@.len() - 1;
                            let k = choose|k: int|
                                0 <= k < before.buckets()[b].len() && (
                                #[trigger] before.buckets()[b][k]).archetype_index == i;
                            assert(key_matches(before.descriptors(), b, before.buckets()[b][k]));
                            if b == b0 {
                                let k1 = if k < insertion_index {
                                    k
                                } else {
                                    k + 1
                                };
                                assert(self.buckets()[b][k1].archetype_index == i);
                            } else {
                                assert(self.buckets()[b] == before.buckets()[b]);
                                assert(self.buckets()[b][k].archetype_index == i);
                            }
                        }
                    }
                    assert forall|i: int| 0 <= i < self.archetypes().len() implies (
                    #[trigger] self.archetypes()[i]).wf()
                        && self.archetypes()[i].spec_descriptor().spec_is_valid() by {
                        if i < index {
                            assert(before.archetypes()[i].wf());
                        }
                    }
                    assert(self.archetypes() =~= before.archetypes().push(
                        self.archetypes()[index as int],
                    ));
                    if before.collides(descriptor@) {
                        let i = choose|i: int|
                            0 <= i < before.archetypes().len() && (
                            #[trigger] before.archetypes()[i]).spec_descriptor()@.len()
                                == descriptor@.len()
                                && before.archetypes()[i].spec_descriptor().spec_archetype_id()@
                                == archetype_id_of(ids_of(descriptor@))
                                && before.archetypes()[i].spec_descriptor()@ != descriptor@;
                        assert(false);
                    }
                }
                Some(index)
            },
        }
    }

    /// Finds the archetype that stores exactly the components of
    /// `archetype_descriptor`, or makes one, and lends it for writing
    /// together with its index.
    ///
    /// There is no result where the descriptor is not valid, where the
    /// registry would hold more than [`MAX_ARCHETYPE_COUNT`] archetypes,
    /// or where an archetype with other components has the same identity.
    /// What the borrow holds in the end takes the archetype's place in
    /// the registry.
    pub fn find_or_create_archetype(
        &mut self,
        archetype_descriptor: &ArchetypeDescriptor,
    ) -> (found: Option<(u16, &mut Archetype)>)
        requires
            old(self).wf(),
            archetype_descriptor.wf(),
        ensures
            found is Some <==> archetype_descriptor.spec_is_valid() && old(self).can_hold(
                archetype_descriptor@,
            ),
            found is None ==> old(self).unchanged(final(self)),
            found matches Some((index, archetype)) ==> {
                &&& archetype.wf()
                &&& archetype.spec_descriptor()@ == archetype_descriptor@
                &&& archetype.spec_descriptor().spec_archetype_id()
                    == archetype_descriptor.spec_archetype_id()
                &&& if old(self).contains_descriptor(archetype_descriptor@) {
                    &&& index == old(self).index_of_descriptor(archetype_descriptor@)
                    &&& *archetype == old(self).archetypes()[index as int]
                    &&& final(self).archetypes() == old(self).archetypes().update(
                        index as int,
                        *final(archetype),
                    )
                    &&& final(self).buckets() == old(self).buckets()
                } else {
                    &&& index == old(self).archetypes().len()
                    &&& Self::fresh(*archetype)
                    &&& final(self).archetypes() == old(self).archetypes().push(*final(archetype))
                    &&& index_covers(
                        final(self).buckets(),
                        old(self).descriptors().push(archetype.spec_descriptor()),
                    )
                }
            },
    {
        let len = archetype_descriptor.len() as usize;
        if len > MAX_COMPONENTS_PER_ENTITY || !archetype_descriptor.is_valid() {
            return None;
        }
        match self.find_or_create_index(archetype_descriptor) {
            Some(index) => {
                proof {
                    if !old(self).contains_descriptor(archetype_descriptor@) {
                        assert(self.descriptors() =~= old(self).descriptors().push(
                            self.archetypes()[index as int].spec_descriptor(),
                        ));
                    }
                    assert(self.archetypes()[index as int].wf());
                }
                Some((index, &mut self.archetypes[index as usize]))
            },
            None => None,
        }
    }

    /// A registry to which a valid, well-formed archetype was appended is
    /// well formed when its buckets index the descriptors.
    pub proof fn lemma_wf_after_push(
        before: ArchetypeRegistry,
        after: ArchetypeRegistry,
        archetype: Archetype,
    )
        requires
            before.wf(),
            before.archetypes().len() < MAX_ARCHETYPE_COUNT,
            after.archetypes() == before.archetypes().push(archetype),
            archetype.wf(),
            archetype.spec_descriptor().spec_is_valid(),
            index_covers(after.buckets(), before.descriptors().push(archetype.spec_descriptor())),
        ensures
            after.wf(),
    {
        assert(after.descriptors() =~= before.descriptors().push(archetype.spec_descriptor()));
        assert forall|i: int| 0 <= i < after.archetypes().len() implies (
        #[trigger] after.archetypes()[i]).wf()
            && after.archetypes()[i].spec_descriptor().spec_is_valid() by {
            if i < before.archetypes().len() {
                assert(before.archetypes()[i].wf());
            }
        }
    }
}

/// Lends two different archetypes of a list for writing.
fn pair_mut(archetypes: &mut Vec<Archetype>, first: usize, second: usize) -> (pair: (
    &mut Archetype,
    &mut Archetype,
))
    requires
        first != second,
        first < old(archetypes)@.len(),
        second < old(archetypes)@.len(),
    ensures
        *pair.0 == old(archetypes)@[first as int],
        *pair.1 == old(archetypes)@[second as int],
        final(archetypes)@ == old(archetypes)@.update(first as int, *final(pair.0)).update(
            second as int,
            *final(pair.1),
        ),
{
    let whole = archetypes.as_mut_slice();
    if first < second {
        let (head, tail) = whole.split_at_mut(second);
        (&mut head[first], &mut tail[0])
    } else {
        let (head, tail) = whole.split_at_mut(first);
        (&mut tail[0], &mut head[second])
    }
}

impl ArchetypeRegistry {
    /// What the registry hands out for a move of an entity from the
    /// archetype at `source_index` to the archetype that stores `target`:
    /// the source archetype as it is, and as destination a different
    /// archetype that stores `target`, which is the one that the registry
    /// held or else a fresh one at the end. What the two borrows hold in
    /// the end takes the archetypes' places in the registry `after`.
    pub open spec fn lends_pair(
        &self,
        after: ArchetypeRegistry,
        target: Seq<ComponentDescriptor>,
        source_index: u16,
        lent: (Archetype, u16, Archetype),
        returned: (Archetype, Archetype),
    ) -> bool {
        let (source, destination_index, destination) = lent;
        &&& source == self.archetypes()[source_index as int]
        &&& destination_index != source_index
        &&& destination.wf()
        &&& destination.spec_descriptor().spec_is_valid()
        &&& destination.spec_descriptor()@ == target
        &&& if self.contains_descriptor(target) {
            &&& destination_index == self.index_of_descriptor(target)
            &&& destination == self.archetypes()[destination_index as int]
            &&& after.archetypes() == self.archetypes().update(
                source_index as int,
                returned.0,
            ).update(destination_index as int, returned.1)
            &&& after.buckets() == self.buckets()
        } else {
            &&& destination_index == self.archetypes().len()
            &&& self.archetypes().len() < MAX_ARCHETYPE_COUNT
            &&& Self::fresh(destination)
            &&& after.archetypes() == self.archetypes().push(destination).update(
                source_index as int,
                returned.0,
            ).update(destination_index as int, returned.1)
            &&& index_covers(
                after.buckets(),
                self.descriptors().push(destination.spec_descriptor()),
            )
        }
    }

    /// Lends the archetype at `source_index` together with the archetype
    /// that stores the components of `target`, which is made where the
    /// registry holds none.
    fn find_or_create_pair(
        &mut self,
        source_index: u16,
        target: &ArchetypeDescriptor,
    ) -> (found: Option<(&mut Archetype, u16, &mut Archetype)>)
        requires
            old(self).wf(),
            target.spec_is_valid(),
            source_index < old(self).archetypes().len(),
            target@.len() != old(self).archetypes()[source_index as int].spec_descriptor()@.len(),
        ensures
            found is Some <==> old(self).can_hold(target@),
            found is None ==> old(self).unchanged(final(self)),
            found matches Some((source, destination_index, destination)) ==> old(self).lends_pair(
                *final(self),
                target@,
                source_index,
                (*source, destination_index, *destination),
                (*final(source), *final(destination)),
            ),
    {
        let destination_index = match self.find_or_create_index(target) {
            Some(index) => index,
            None => {
                return None;
            },
        };
        proof {
            if !old(self).contains_descriptor(target@) {
                assert(self.descriptors() =~= old(self).descriptors().push(
                    self.archetypes()[destination_index as int].spec_descriptor(),
                ));
            }
            assert(self.archetypes()[destination_index as int].wf());
            assert(self.archetypes()[source_index as int]
                == old(self).archetypes()[source_index as int]);
            assert(destination_index != source_index);
        }
        let (source, destination) = pair_mut(
            &mut self.archetypes,
            source_index as usize,
            destination_index as usize,
        );
        Some((source, destination_index, destination))
    }

    /// Prepares the move of an entity that gains a component: lends the
    /// archetype at `source_archetype_index` together with the archetype
    /// that stores the source's components and the new one, which is made
    /// where the registry holds none. The two are never the same archetype.
    ///
    /// There is no result where the index is out of range, where the
    /// source already stores the component or is full, where the registry
    /// would hold more than [`MAX_ARCHETYPE_COUNT`] archetypes, or where
    /// an archetype with other components has the destination's identity.
    pub fn find_or_create_archetype_adding_component(
        &mut self,
        source_archetype_index: u16,
        component_descriptor: &ComponentDescriptor,
    ) -> (found: Option<(&mut Archetype, u16, &mut Archetype)>)
        requires
            old(self).wf(),
        ensures
            found is Some <==> {
                &&& source_archetype_index < old(self).archetypes().len()
                &&& old(self).descriptors()[source_archetype_index as int]@.len()
                    < MAX_COMPONENTS_PER_ENTITY
                &&& !has_id(
                    old(self).descriptors()[source_archetype_index as int]@,
                    component_descriptor.id(),
                )
                &&& old(self).can_hold(
                    with_component(
                        old(self).descriptors()[source_archetype_index as int]@,
                        *component_descriptor,
                    ),
                )
            },
            found is None ==> old(self).unchanged(final(self)),
            found matches Some((source, destination_index, destination)) ==> old(self).lends_pair(
                *final(self),
                with_component(
                    old(self).descriptors()[source_archetype_index as int]@,
                    *component_descriptor,
                ),
                source_archetype_index,
                (*source, destination_index, *destination),
                (*final(source), *final(destination)),
            ),
    {
        if source_archetype_index as usize >= self.archetypes.len() {
            return None;
        }
        proof {
            assert(self.archetypes()[source_archetype_index as int].wf());
        }
        let source = &self.archetypes[source_archetype_index as usize];
        let target = match source.descriptor().add_component(component_descriptor) {
            Some(target) => target,
            None => {
                return None;
            },
        };
        self.find_or_create_pair(source_archetype_index, &target)
    }

    /// Prepares the move of an entity that loses a component: lends the
    /// archetype at `source_archetype_index` together with the archetype
    /// that stores the source's components but the one with the id
    /// `component_type_id`, which is made where the registry holds none.
    /// The two are never the same archetype.
    ///
    /// There is no result where the index is out of range, where the
    /// source does not store the component or stores no other, where the
    /// registry would hold more than [`MAX_ARCHETYPE_COUNT`] archetypes,
    /// or where an archetype with other components has the destination's
    /// identity.
    pub fn find_or_create_archetype_removing_component(
        &mut self,
        source_archetype_index: u16,
        component_type_id: ComponentTypeId,
    ) -> (found: Option<(&mut Archetype, u16, &mut Archetype)>)
        requires
            old(self).wf(),
        ensures
            found is Some <==> {
                &&& source_archetype_index < old(self).archetypes().len()
                &&& old(self).descriptors()[source_archetype_index as int]@.len() >= 2
                &&& has_id(
                    old(self).descriptors()[source_archetype_index as int]@,
                    component_type_id@,
                )
                &&& old(self).can_hold(
                    without_component(
                        old(self).descriptors()[source_archetype_index as int]@,
                        component_type_id@,
                    ),
                )
            },
            found is None ==> old(self).unchanged(final(self)),
            found matches Some((source, destination_index, destination)) ==> old(self).lends_pair(
                *final(self),
                without_component(
                    old(self).descriptors()[source_archetype_index as int]@,
                    component_type_id@,
                ),
                source_archetype_index,
                (*source, destination_index, *destination),
                (*final(source), *final(destination)),
            ),
    {
        if source_archetype_index as usize >= self.archetypes.len() {
            return None;
        }
        proof {
            assert(self.archetypes()[source_archetype_index as int].wf());
        }
        let source = &self.archetypes[source_archetype_index as usize];
        let target = match source.descriptor().remove_component(component_type_id) {
            Some(target) => target,
            None => {
                return None;
            },
        };
        self.find_or_create_pair(source_archetype_index, &target)
    }
}

impl ArchetypeRegistry {
    /// After a move was prepared and both archetypes were given back well
    /// formed and with their descriptors, the registry is well formed.
    pub proof fn lemma_wf_after_pair(
        before: ArchetypeRegistry,
        after: ArchetypeRegistry,
        target: Seq<ComponentDescriptor>,
        source_index: u16,
        lent: (Archetype, u16, Archetype),
        returned: (Archetype, Archetype),
    )
        requires
            before.wf(),
            source_index < before.archetypes().len(),
            before.lends_pair(after, target, source_index, lent, returned),
            returned.0.wf(),
            returned.0.spec_descriptor() == lent.0.spec_descriptor(),
            returned.1.wf(),
            returned.1.spec_descriptor() == lent.2.spec_descriptor(),
        ensures
            after.wf(),
    {
        let (source, destination_index, destination) = lent;
        assert(before.archetypes()[source_index as int].wf());
        if before.contains_descriptor(target) {
            assert(after.descriptors() =~= before.descriptors());
            assert forall|i: int| 0 <= i < after.archetypes().len() implies (
            #[trigger] after.archetypes()[i]).wf()
                && after.archetypes()[i].spec_descriptor().spec_is_valid() by {
                assert(before.archetypes()[i].wf());
            }
        } else {
            assert(after.descriptors() =~= before.descriptors().push(
                destination.spec_descriptor(),
            ));
            assert forall|i: int| 0 <= i < after.archetypes().len() implies (
            #[trigger] after.archetypes()[i]).wf()
                && after.archetypes()[i].spec_descriptor().spec_is_valid() by {
                if i < before.archetypes().len() {
                    assert(before.archetypes()[i].wf());
                }
            }
        }
    }

    /// The archetypes at `first` and at `second` store as many components.
    pub open spec fn same_arity(&self, first: int, second: int) -> bool {
        self.archetypes()[first].spec_descriptor()@.len()
            == self.archetypes()[second].spec_descriptor()@.len()
    }

    /// The indices of all archetypes that store every component type of
    /// `group`, and of no other archetype, each index once. Archetypes
    /// with as many components come in the order in which they were
    /// appended to the registry.
    ///
    /// Only the buckets of archetypes with at least as many components as
    /// the group are walked.
    pub fn iter_components_matching(&self, group: &ComponentGroupDescriptor) -> (matching: Vec<u16>)
        requires
            self.wf(),
            group.wf(),
        ensures
            forall|p: int|
                0 <= p < matching@.len() ==> (#[trigger] matching@[p]) < self.archetypes().len(),
            forall|i: int|
                0 <= i < self.archetypes().len() ==> (matching@.contains(i as u16) <==> is_superset(
                    (#[trigger] self.archetypes()[i]).spec_descriptor()@,
                    group.spec_archetype()@,
                )),
            forall|p: int, q: int|
                0 <= p < q < matching@.len() ==> (#[trigger] matching@[p]) != (
                #[trigger] matching@[q]),
            forall|p: int, q: int|
                0 <= p < q < matching@.len() && self.same_arity(
                    (#[trigger] matching@[p]) as int,
                    (#[trigger] matching@[q]) as int,
                ) ==> matching@[p] < matching@[q],
    {
        let wanted = group.archetype();
        let arity = wanted.len() as usize;
        let first: usize = if arity == 0 {
            0
        } else {
            arity - 1
        };
        let mut matching: Vec<u16> = Vec::new();
        let ghost mut places: Seq<(int, int)> = Seq::empty();
        let mut b: usize = first;
        while b < MAX_COMPONENTS_PER_ENTITY
            invariant
                self.wf(),
                wanted.wf(),
                wanted@ == group.spec_archetype()@,
                first <= b <= MAX_COMPONENTS_PER_ENTITY,
                first + 1 >= wanted@.len(),
                places.len() == matching@.len(),
                forall|p: int|
                    0 <= p < places.len() ==> self.placed(
                        wanted@,
                        #[trigger] places[p],
                        matching@[p],
                    ) && places[p].0 < b,
                forall|p: int, q: int|
                    0 <= p < q < places.len() ==> Self::in_order(
                        #[trigger] places[p],
                        matching@[p],
                        #[trigger] places[q],
                        matching@[q],
                    ),
                forall|bb: int, kk: int|
                    first <= bb < b && 0 <= kk < self.buckets()[bb].len() && self.entry_matches(
                        wanted@,
                        #[trigger] self.buckets()[bb][kk],
                    ) ==> places.contains((bb, kk)),
            decreases MAX_COMPONENTS_PER_ENTITY - b,
        {
            proof {
                assert(self.buckets()[b as int] == self.sorted_mappings@[b as int]@);
                assert(ascending_keys(self.buckets()[b as int]));
            }
            let keys = &self.sorted_mappings[b];
            let start = matching.len();
            let mut k: usize = 0;
            while k < keys.len()
                invariant
                    self.wf(),
                    wanted.wf(),
                    first <= b < MAX_COMPONENTS_PER_ENTITY,
                    keys@ == self.buckets()[b as int],
                    ascending_keys(keys@),
                    k <= keys@.len(),
                    start <= matching@.len(),
                    places.len() == matching@.len(),
                    forall|p: int|
                        0 <= p < places.len() ==> self.placed(
                            wanted@,
                            #[trigger] places[p],
                            matching@[p],
                        ) && if p < start {
                            places[p].0 < b
                        } else {
                            places[p].0 == b && places[p].1 < k
                        },
                    forall|p: int, q: int|
                        0 <= p < q < places.len() ==> Self::in_order(
                            #[trigger] places[p],
                            matching@[p],
                            #[trigger] places[q],
                            matching@[q],
                        ),
                    forall|bb: int, kk: int|
                        first <= bb < b && 0 <= kk < self.buckets()[bb].len()
                            && self.entry_matches(wanted@, #[trigger] self.buckets()[bb][kk])
                            ==> places.contains((bb, kk)),
                    forall|kk: int|
                        0 <= kk < k && self.entry_matches(wanted@, #[trigger] keys@[kk])
                            ==> places.contains((b as int, kk)),
                decreases keys@.len() - k,
            {
                let index = keys[k].archetype_index;
                proof {
                    assert(key_matches(
                        self.descriptors(),
                        b as int,
                        self.buckets()[b as int][k as int],
                    ));
                    assert(self.archetypes()[index as int].wf());
                }
                if self.archetypes[index as usize].descriptor().is_superset_of(wanted) {
                    let mut at: usize = start;
                    while at < matching.len() && matching[at] < index
                        invariant
                            start <= at <= matching@.len(),
                            forall|p: int| start <= p < at ==> (#[trigger] matching@[p]) < index,
                        decreases matching@.len() - at,
                    {
                        at += 1;
                    }
                    let ghost before = places;
                    let ghost found = matching@;
                    proof {
                        assert forall|p: int| start <= p < found.len() implies (
                        #[trigger] found[p]) != index by {
                            assert(self.placed(wanted@, before[p], found[p]));
                            let kk = before[p].1;
                            assert(key_matches(
                                self.descriptors(),
                                b as int,
                                self.buckets()[b as int][kk],
                            ));
                            if found[p] == index {
                                assert(keys@[kk].id@ < keys@[k as int].id@);
                            }
                        }
                        assert forall|p: int| at <= p < found.len() implies (
                        #[trigger] found[p]) > index by {
                            if p > at {
                                assert(Self::in_order(before[at as int], found[at as int],
                                    before[p], found[p]));
                            }
                        }
                    }
                    matching.insert(at, index);
                    proof {
                        places = before.insert(at as int, (b as int, k as int));
                        assert forall|bb: int, kk: int| before.contains((bb, kk))
                            implies places.contains((bb, kk)) by {
                            let p = choose|p: int| 0 <= p < before.len() && before[p] == (bb, kk);
                            let moved = if p < at {
                                p
                            } else {
                                p + 1
                            };
                            assert(places[moved] == (bb, kk));
                        }
                        assert(places[at as int] == (b as int, k as int));
                        assert forall|p: int| 0 <= p < places.len() implies self.placed(
                            wanted@,
                            #[trigger] places[p],
                            matching@[p],
                        ) && if p < start {
                            places[p].0 < b
                        } else {
                            places[p].0 == b && places[p].1 < k + 1
                        } by {
                            if p < at {
                                assert(places[p] == before[p] && matching@[p] == found[p]);
                            } else if p > at {
                                assert(places[p] == before[p - 1] && matching@[p] == found[p - 1]);
                            }
                        }
                        assert forall|p: int, q: int| 0 <= p < q < places.len()
                            implies Self::in_order(
                            #[trigger] places[p],
                            matching@[p],
                            #[trigger] places[q],
                            matching@[q],
                        ) by {
                            let p0 = if p < at {
                                p
                            } else {
                                p - 1
                            };
                            let q0 = if q < at {
                                q
                            } else {
                                q - 1
                            };
                            if p != at {
                                assert(places[p] == before[p0] && matching@[p] == found[p0]);
                            }
                            if q != at {
                                assert(places[q] == before[q0] && matching@[q] == found[q0]);
                            }
                            if p != at && q != at {
                                assert(Self::in_order(before[p0], found[p0], before[q0],
                                    found[q0]));
                            }
                        }
                    }
                }
                k += 1;
            }
            b += 1;
        }
        proof {
            assert forall|p: int| 0 <= p < matching@.len() implies (#[trigger] matching@[p])
                < self.archetypes().len()
                && self.archetypes()[matching@[p] as int].spec_descriptor()@.len() == places[p].0
                + 1 by {
                assert(self.placed(wanted@, places[p], matching@[p]));
                let (bp, kp) = places[p];
                assert(key_matches(self.descriptors(), bp, self.buckets()[bp][kp]));
            }
            assert forall|i: int| 0 <= i < self.archetypes().len() implies (matching@.contains(
                i as u16,
            ) <==> is_superset(
                (#[trigger] self.archetypes()[i]).spec_descriptor()@,
                group.spec_archetype()@,
            )) by {
                let stored = self.archetypes()[i].spec_descriptor()@;
                if matching@.contains(i as u16) {
                    let p = choose|p: int| 0 <= p < matching@.len() && matching@[p] == i as u16;
                    assert(self.placed(wanted@, places[p], matching@[p]));
                }
                if is_superset(stored, wanted@) {
                    assert(self.archetypes()[i].wf());
                    lemma_superset_len(stored, wanted@);
                    assert(indexed(self.buckets(), self.descriptors(), i));
                    let bb = stored.len() - 1;
                    let kk = choose|kk: int|
                        0 <= kk < self.buckets()[bb].len() && (
                        #[trigger] self.buckets()[bb][kk]).archetype_index == i;
                    assert(places.contains((bb, kk)));
                    let p = choose|p: int| 0 <= p < places.len() && places[p] == (bb, kk);
                    assert(self.placed(wanted@, places[p], matching@[p]));
                    assert(matching@[p] == i as u16);
                }
            }
            assert forall|p: int, q: int| 0 <= p < q < matching@.len() implies (
            #[trigger] matching@[p]) != (#[trigger] matching@[q]) by {
                assert(Self::in_order(places[p], matching@[p], places[q], matching@[q]));
            }
            assert forall|p: int, q: int|
                0 <= p < q < matching@.len() && self.same_arity(
                    (#[trigger] matching@[p]) as int,
                    (#[trigger] matching@[q]) as int,
                ) implies matching@[p] < matching@[q] by {
                assert(Self::in_order(places[p], matching@[p], places[q], matching@[q]));
            }
        }
        matching
    }

    /// The index entry at `place`, a bucket and a position in it, is the
    /// entry of the archetype at `index`, which stores every component
    /// type of `wanted`.
    spec fn placed(
        &self,
        wanted: Seq<ComponentDescriptor>,
        place: (int, int),
        index: u16,
    ) -> bool {
        &&& 0 <= place.0 < self.buckets().len()
        &&& 0 <= place.1 < self.buckets()[place.0].len()
        &&& self.buckets()[place.0][place.1].archetype_index == index
        &&& is_superset(self.archetypes()[index as int].spec_descriptor()@, wanted)
    }

    /// The entry is the entry of an archetype that stores every component
    /// type of `wanted`.
    spec fn entry_matches(
        &self,
        wanted: Seq<ComponentDescriptor>,
        key: SortedArchetypeKey,
    ) -> bool {
        is_superset(self.archetypes()[key.archetype_index as int].spec_descriptor()@, wanted)
    }

    /// The first index comes from an earlier bucket, or from the same
    /// bucket and is the smaller one.
    spec fn in_order(
        first: (int, int),
        first_index: u16,
        second: (int, int),
        second_index: u16,
    ) -> bool {
        first.0 < second.0 || (first.0 == second.0 && first_index < second_index)
    }
}

impl core::ops::Index<u16> for ArchetypeRegistry {
    type Output = Archetype;

    /// The archetype at `index`.
    fn index(&self, index: u16) -> (archetype: &Archetype)
        ensures
            *archetype == self.archetypes()[index as int],
    {
        &self.archetypes[index as usize]
    }
}

impl vstd::std_specs::core::IndexSpecImpl<u16> for ArchetypeRegistry {
    open spec fn index_req(&self, index: &u16) -> bool {
        *index < self.archetypes().len()
    }
}

} // verus!
