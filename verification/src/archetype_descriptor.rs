use crate::archetype_id::{archetype_id_of, ArchetypeId};
use crate::component_descriptor::ComponentDescriptor;
use crate::component_type_id::ComponentTypeId;
use crate::constants::MAX_COMPONENTS_PER_ENTITY;
use crate::fnv1a::{fnv1a_fold_ids, fnv1a_hash_u16, FNV_OFFSET_BASIS};
use vstd::prelude::*;
use vstd::seq_lib::{
    to_multiset_build, to_multiset_contains, to_multiset_insert, to_multiset_len,
    to_multiset_remove,
};

verus! {

/// The raw component type ids of `components`, in the same order.
pub open spec fn ids_of(components: Seq<ComponentDescriptor>) -> Seq<u16> {
    Seq::new(components.len(), |i: int| components[i].id())
}

/// The ids rise strictly from each component to the next.
pub open spec fn ascending_ids(components: Seq<ComponentDescriptor>) -> bool {
    forall|i: int, j: int|
        0 <= i < j < components.len() ==> (#[trigger] components[i]).id() < (
        #[trigger] components[j]).id()
}

/// No two components share an id.
pub open spec fn distinct_ids(components: Seq<ComponentDescriptor>) -> bool {
    forall|i: int, j: int|
        0 <= i < j < components.len() ==> (#[trigger] components[i]).id() != (
        #[trigger] components[j]).id()
}

/// Some component carries the id.
pub open spec fn has_id(components: Seq<ComponentDescriptor>, id: u16) -> bool {
    exists|i: int| 0 <= i < components.len() && (#[trigger] components[i]).id() == id
}

/// A position at which the id stands; the only one where ids are distinct.
pub open spec fn position_of(components: Seq<ComponentDescriptor>, id: u16) -> int {
    choose|i: int| 0 <= i < components.len() && (#[trigger] components[i]).id() == id
}

/// Every id of `sub` is an id of `sup`.
pub open spec fn is_superset(
    sup: Seq<ComponentDescriptor>,
    sub: Seq<ComponentDescriptor>,
) -> bool {
    forall|j: int| 0 <= j < sub.len() ==> has_id(sup, (#[trigger] sub[j]).id())
}

/// Every component of `sub` is a component of `sup`, with the same id,
/// size and alignment.
pub open spec fn components_within(
    sub: Seq<ComponentDescriptor>,
    sup: Seq<ComponentDescriptor>,
) -> bool {
    forall|j: int| 0 <= j < sub.len() ==> sup.contains(#[trigger] sub[j])
}

/// Components that are components of `sup` have ids that are ids of `sup`.
pub proof fn lemma_within_is_superset(
    sub: Seq<ComponentDescriptor>,
    sup: Seq<ComponentDescriptor>,
)
    requires
        components_within(sub, sup),
    ensures
        is_superset(sup, sub),
{
    assert forall|j: int| 0 <= j < sub.len() implies has_id(sup, (#[trigger] sub[j]).id()) by {
        assert(sup.contains(sub[j]));
        let i = choose|i: int| 0 <= i < sup.len() && sup[i] == sub[j];
        assert(sup[i].id() == sub[j].id());
    }
}

/// The components with `component` inserted where its id belongs.
pub open spec fn with_component(
    components: Seq<ComponentDescriptor>,
    component: ComponentDescriptor,
) -> Seq<ComponentDescriptor> {
    components.insert(
        choose|k: int|
            0 <= k <= components.len() && ascending_ids(
                #[trigger] components.insert(k, component),
            ),
        component,
    )
}

/// The components without the one that carries `id`.
pub open spec fn without_component(
    components: Seq<ComponentDescriptor>,
    id: u16,
) -> Seq<ComponentDescriptor> {
    components.remove(position_of(components, id))
}

/// Where ids are distinct, a component's position is the position of its id.
pub proof fn lemma_position_of_unique(components: Seq<ComponentDescriptor>, i: int)
    requires
        distinct_ids(components),
        0 <= i < components.len(),
    ensures
        has_id(components, components[i].id()),
        position_of(components, components[i].id()) == i,
{
    let id = components[i].id();
    let p = position_of(components, id);
    assert(0 <= p < components.len() && components[p].id() == id);
    if p < i {
        assert(components[p].id() != components[i].id());
    } else if i < p {
        assert(components[i].id() != components[p].id());
    }
}

/// Ascending ids are distinct ids.
pub proof fn lemma_ascending_is_distinct(components: Seq<ComponentDescriptor>)
    requires
        ascending_ids(components),
    ensures
        distinct_ids(components),
{
}

/// The canonical description of a set of component types: the component
/// descriptors in ascending order of their ids, and the identity that the
/// id sequence hashes to.
#[derive(Debug)]
pub struct ArchetypeDescriptor {
    archetype_id: ArchetypeId,
    components: Vec<ComponentDescriptor>,
}

impl View for ArchetypeDescriptor {
    type V = Seq<ComponentDescriptor>;

    closed spec fn view(&self) -> Seq<ComponentDescriptor> {
        self.components@
    }
}

/// The first position whose id is not below `id`.
fn lower_bound(components: &Vec<ComponentDescriptor>, id: u16) -> (pos: usize)
    requires
        ascending_ids(components@),
    ensures
        pos <= components@.len(),
        forall|k: int| 0 <= k < pos ==> (#[trigger] components@[k]).id() < id,
        forall|k: int| pos <= k < components@.len() ==> (#[trigger] components@[k]).id() >= id,
{
    let mut low: usize = 0;
    let mut high: usize = components.len();
    while low < high
        invariant
            low <= high <= components@.len(),
            ascending_ids(components@),
            forall|k: int| 0 <= k < low ==> (#[trigger] components@[k]).id() < id,
            forall|k: int| high <= k < components@.len() ==> (#[trigger] components@[k]).id() >= id,
        decreases high - low,
    {
        let mid: usize = low + (high - low) / 2;
        if components[mid].component_type_id.into_u16() < id {
            low = mid + 1;
        } else {
            high = mid;
        }
    }
    low
}

/// Hashes the ids of `components`, first to last.
fn hash_components(components: &Vec<ComponentDescriptor>) -> (id: ArchetypeId)
    ensures
        id@ == archetype_id_of(ids_of(components@)),
{
    let mut hash: u64 = FNV_OFFSET_BASIS;
    let mut i: usize = 0;
    while i < components.len()
        invariant
            i <= components@.len(),
            hash == fnv1a_fold_ids(FNV_OFFSET_BASIS, ids_of(components@).subrange(0, i as int)),
        decreases components@.len() - i,
    {
        proof {
            let next = ids_of(components@).subrange(0, i + 1);
            assert(next.drop_last() =~= ids_of(components@).subrange(0, i as int));
            assert(next.last() == components@[i as int].id());
        }
        hash = fnv1a_hash_u16(hash, components[i].component_type_id.into_u16());
        i += 1;
    }
    proof {
        assert(ids_of(components@).subrange(0, i as int) =~= ids_of(components@));
    }
    ArchetypeId::from_u64(hash)
}

/// Copies a component list.
fn copy_components(components: &Vec<ComponentDescriptor>) -> (copy: Vec<ComponentDescriptor>)
    ensures
        copy@ == components@,
{
    let mut copy: Vec<ComponentDescriptor> = Vec::new();
    let mut i: usize = 0;
    while i < components.len()
        invariant
            i <= components@.len(),
            copy@ == components@.subrange(0, i as int),
        decreases components@.len() - i,
    {
        copy.push(components[i]);
        proof {
            assert(copy@ =~= components@.subrange(0, i + 1));
        }
        i += 1;
    }
    proof {
        assert(components@.subrange(0, i as int) =~= components@);
    }
    copy
}

impl ArchetypeDescriptor {
    /// The identity stored with the descriptor.
    pub closed spec fn spec_archetype_id(&self) -> ArchetypeId {
        self.archetype_id
    }

    /// The invariant of every descriptor: at most
    /// [`MAX_COMPONENTS_PER_ENTITY`] components, in strictly ascending order
    /// of their ids, and an identity that is the hash of that id sequence.
    pub open spec fn wf(&self) -> bool {
        &&& self@.len() <= MAX_COMPONENTS_PER_ENTITY
        &&& ascending_ids(self@)
        &&& self.spec_archetype_id()@ == archetype_id_of(ids_of(self@))
    }

    /// A descriptor is valid when it is well formed and names at least one component.
    pub open spec fn spec_is_valid(&self) -> bool {
        self.wf() && self@.len() >= 1
    }

    /// The descriptor without components. It is well formed and not valid.
    pub fn invalid() -> (descriptor: ArchetypeDescriptor)
        ensures
            descriptor.wf(),
            descriptor@.len() == 0,
            !descriptor.spec_is_valid(),
    {
        let components: Vec<ComponentDescriptor> = Vec::new();
        let archetype_id = hash_components(&components);
        ArchetypeDescriptor { archetype_id, components }
    }

    /// The number of components.
    pub fn len(&self) -> (len: u8)
        requires
            self.wf(),
        ensures
            len == self@.len(),
    {
        self.components.len() as u8
    }

    /// Whether the descriptor names at least one component.
    pub fn is_valid(&self) -> (valid: bool)
        requires
            self.wf(),
        ensures
            valid == self.spec_is_valid(),
    {
        self.components.len() >= 1
    }

    /// The identity of the archetype.
    pub fn archetype_id(&self) -> (id: ArchetypeId)
        ensures
            id == self.spec_archetype_id(),
    {
        self.archetype_id
    }

    /// The component descriptors, in ascending order of their ids.
    pub fn components(&self) -> (components: &[ComponentDescriptor])
        ensures
            components@ == self@,
    {
        self.components.as_slice()
    }

    /// The descriptor of the column at `index`.
    pub fn component(&self, index: usize) -> (component: ComponentDescriptor)
        requires
            index < self@.len(),
        ensures
            component == self@[index as int],
    {
        self.components[index]
    }

    /// Whether a component with this id is part of the descriptor.
    pub fn contains(&self, id: ComponentTypeId) -> (found: bool)
        requires
            self.wf(),
        ensures
            found == has_id(self@, id@),
    {
        let pos = lower_bound(&self.components, id.into_u16());
        pos < self.components.len() && self.components[pos].component_type_id.into_u16()
            == id.into_u16()
    }

    /// The column that holds the component with this id, if there is one.
    pub fn index_of(&self, id: ComponentTypeId) -> (index: Option<usize>)
        requires
            self.wf(),
        ensures
            index == if has_id(self@, id@) {
                Some(position_of(self@, id@) as usize)
            } else {
                None
            },
            index matches Some(i) ==> i < self@.len() && self@[i as int].id() == id@,
    {
        let pos = lower_bound(&self.components, id.into_u16());
        if pos < self.components.len() && self.components[pos].component_type_id.into_u16()
            == id.into_u16() {
            proof {
                lemma_position_of_unique(self@, pos as int);
            }
            Some(pos)
        } else {
            None
        }
    }
}

/// A member of `a` is a member of every sequence with the same elements.
proof fn lemma_member_of_permutation(
    a: Seq<ComponentDescriptor>,
    b: Seq<ComponentDescriptor>,
    i: int,
) -> (j: int)
    requires
        a.to_multiset() == b.to_multiset(),
        0 <= i < a.len(),
    ensures
        0 <= j < b.len(),
        b[j] == a[i],
{
    assert(a.contains(a[i]));
    to_multiset_contains(a, a[i]);
    to_multiset_contains(b, a[i]);
    assert(b.contains(a[i]));
    choose|j: int| 0 <= j < b.len() && b[j] == a[i]
}

impl ArchetypeDescriptor {
    /// Builds the canonical descriptor of a component list given in any order.
    ///
    /// The list is accepted when it holds between one and
    /// [`MAX_COMPONENTS_PER_ENTITY`] components and no id twice. The result
    /// holds the same components in ascending order of their ids.
    pub fn from_unsorted(
        components: &[ComponentDescriptor],
    ) -> (descriptor: Option<ArchetypeDescriptor>)
        ensures
            descriptor is Some <==> 1 <= components@.len() <= MAX_COMPONENTS_PER_ENTITY
                && distinct_ids(components@),
            descriptor matches Some(d) ==> d.spec_is_valid() && d@.to_multiset()
                == components@.to_multiset(),
    {
        let n = components.len();
        if n == 0 || n > MAX_COMPONENTS_PER_ENTITY {
            return None;
        }
        let mut sorted: Vec<ComponentDescriptor> = Vec::new();
        let mut i: usize = 0;
        proof {
            assert(sorted@ =~= components@.subrange(0, 0));
        }
        while i < n
            invariant
                n == components@.len(),
                i <= n,
                sorted@.len() == i,
                ascending_ids(sorted@),
                sorted@.to_multiset() == components@.subrange(0, i as int).to_multiset(),
                distinct_ids(components@.subrange(0, i as int)),
            decreases n - i,
        {
            let c = components[i];
            let id = c.component_type_id.into_u16();
            let pos = lower_bound(&sorted, id);
            let ghost prefix = components@.subrange(0, i as int);
            let ghost before = sorted@;
            if pos < sorted.len() && sorted[pos].component_type_id.into_u16() == id {
                proof {
                    let j = lemma_member_of_permutation(before, prefix, pos as int);
                    assert(components@[j].id() == components@[i as int].id());
                }
                return None;
            }
            proof {
                assert forall|j: int| 0 <= j < i implies (#[trigger] components@[j]).id()
                    != id by {
                    let k = lemma_member_of_permutation(prefix, before, j);
                    assert(before[k].id() != id);
                }
                let next = components@.subrange(0, i + 1);
                assert(next =~= prefix.push(c));
                assert(distinct_ids(next)) by {
                    assert forall|a: int, b: int| 0 <= a < b < next.len() implies (
                    #[trigger] next[a]).id() != (#[trigger] next[b]).id() by {
                        if b < i {
                            assert(prefix[a].id() != prefix[b].id());
                        } else {
                            assert(next[a] == components@[a]);
                        }
                    }
                }
                to_multiset_insert(before, pos as int, c);
                to_multiset_build(prefix, c);
            }
            sorted.insert(pos, c);
            proof {
                assert(ascending_ids(sorted@)) by {
                    assert forall|a: int, b: int| 0 <= a < b < sorted@.len() implies (
                    #[trigger] sorted@[a]).id() < (#[trigger] sorted@[b]).id() by {
                        if b < pos {
                            assert(sorted@[a] == before[a] && sorted@[b] == before[b]);
                        } else if b == pos {
                            assert(sorted@[a] == before[a]);
                        } else if a < pos {
                            assert(sorted@[a] == before[a] && sorted@[b] == before[b - 1]);
                        } else if a == pos {
                            assert(sorted@[b] == before[b - 1]);
                        } else {
                            assert(sorted@[a] == before[a - 1] && sorted@[b] == before[b - 1]);
                        }
                    }
                }
            }
            i += 1;
        }
        proof {
            assert(components@.subrange(0, i as int) =~= components@);
        }
        let archetype_id = hash_components(&sorted);
        Some(ArchetypeDescriptor { archetype_id, components: sorted })
    }

    /// The descriptor with one more component, inserted where its id belongs.
    ///
    /// Fails when a component with that id is already present, or when the
    /// descriptor is full.
    pub fn add_component(
        &self,
        component: &ComponentDescriptor,
    ) -> (descriptor: Option<ArchetypeDescriptor>)
        requires
            self.wf(),
        ensures
            descriptor is Some <==> self@.len() < MAX_COMPONENTS_PER_ENTITY && !has_id(
                self@,
                component.id(),
            ),
            descriptor matches Some(d) ==> d.spec_is_valid() && d@ == with_component(
                self@,
                *component,
            ) && d@.len() == self@.len() + 1,
    {
        let id = component.component_type_id.into_u16();
        if self.components.len() >= MAX_COMPONENTS_PER_ENTITY {
            return None;
        }
        let pos = lower_bound(&self.components, id);
        if pos < self.components.len() && self.components[pos].component_type_id.into_u16()
            == id {
            return None;
        }
        let mut components = copy_components(&self.components);
        components.insert(pos, *component);
        proof {
            let before = self@;
            assert(components@ == before.insert(pos as int, *component));
            assert(ascending_ids(components@)) by {
                assert forall|a: int, b: int| 0 <= a < b < components@.len() implies (
                #[trigger] components@[a]).id() < (#[trigger] components@[b]).id() by {
                    if b < pos {
                        assert(components@[a] == before[a] && components@[b] == before[b]);
                    } else if b == pos {
                        assert(components@[a] == before[a]);
                    } else if a < pos {
                        assert(components@[a] == before[a] && components@[b] == before[b - 1]);
                    } else if a == pos {
                        assert(components@[b] == before[b - 1]);
                    } else {
                        assert(components@[a] == before[a - 1] && components@[b] == before[b
                            - 1]);
                    }
                }
            }
        }
        proof {
            lemma_with_component(self@, *component, pos as int);
        }
        let archetype_id = hash_components(&components);
        Some(ArchetypeDescriptor { archetype_id, components })
    }

    /// The descriptor without the component that carries `id`.
    ///
    /// Fails when no component carries the id, or when it is the only component.
    pub fn remove_component(&self, id: ComponentTypeId) -> (descriptor: Option<ArchetypeDescriptor>)
        requires
            self.wf(),
        ensures
            descriptor is Some <==> self@.len() >= 2 && has_id(self@, id@),
            descriptor matches Some(d) ==> d.spec_is_valid() && d@ == without_component(
                self@,
                id@,
            ) && d@.len() == self@.len() - 1,
    {
        let raw = id.into_u16();
        let pos = lower_bound(&self.components, raw);
        if pos >= self.components.len() || self.components[pos].component_type_id.into_u16()
            != raw {
            return None;
        }
        if self.components.len() < 2 {
            return None;
        }
        proof {
            lemma_position_of_unique(self@, pos as int);
        }
        let mut components = copy_components(&self.components);
        let _ = components.remove(pos);
        proof {
            let before = self@;
            assert(components@ == before.remove(pos as int));
            assert(ascending_ids(components@)) by {
                assert forall|a: int, b: int| 0 <= a < b < components@.len() implies (
                #[trigger] components@[a]).id() < (#[trigger] components@[b]).id() by {
                    let a0 = if a < pos { a } else { a + 1 };
                    let b0 = if b < pos { b } else { b + 1 };
                    assert(components@[a] == before[a0] && components@[b] == before[b0]);
                }
            }
        }
        let archetype_id = hash_components(&components);
        Some(ArchetypeDescriptor { archetype_id, components })
    }

    /// Whether every component of `other` is part of this descriptor.
    ///
    /// Both id sequences ascend, so one pass over the two suffices.
    pub fn is_superset_of(&self, other: &ArchetypeDescriptor) -> (superset: bool)
        requires
            self.wf(),
            other.wf(),
        ensures
            superset == is_superset(self@, other@),
    {
        let mut i: usize = 0;
        let mut j: usize = 0;
        while j < other.components.len()
            invariant
                self.wf(),
                other.wf(),
                i <= self@.len(),
                j <= other@.len(),
                forall|k: int| 0 <= k < j ==> has_id(self@, (#[trigger] other@[k]).id()),
                forall|k: int|
                    0 <= k < i && j < other@.len() ==> (#[trigger] self@[k]).id()
                        < other@[j as int].id(),
            decreases other@.len() - j + self@.len() - i,
        {
            let wanted = other.components[j].component_type_id.into_u16();
            if i >= self.components.len() {
                proof {
                    assert(!has_id(self@, wanted));
                }
                return false;
            }
            let here = self.components[i].component_type_id.into_u16();
            if here == wanted {
                proof {
                    assert(self@[i as int].id() == wanted);
                    if j + 1 < other@.len() {
                        assert(other@[j as int].id() < other@[j + 1].id());
                    }
                }
                i += 1;
                j += 1;
            } else if here < wanted {
                i += 1;
            } else {
                proof {
                    assert forall|k: int| 0 <= k < self@.len() implies (#[trigger] self@[k]).id()
                        != wanted by {
                        if k > i {
                            assert(self@[i as int].id() < self@[k].id());
                        }
                    }
                }
                return false;
            }
        }
        true
    }

    /// Whether both descriptors hold the same components.
    pub fn equals(&self, other: &ArchetypeDescriptor) -> (equal: bool)
        ensures
            equal == (self@ == other@),
    {
        if self.components.len() != other.components.len() {
            return false;
        }
        let mut i: usize = 0;
        while i < self.components.len()
            invariant
                i <= self@.len(),
                self@.len() == other@.len(),
                forall|k: int| 0 <= k < i ==> self@[k] == other@[k],
            decreases self@.len() - i,
        {
            let a = self.components[i];
            let b = other.components[i];
            if a.component_type_id.into_u16() != b.component_type_id.into_u16() || a.size
                != b.size || a.align != b.align {
                proof {
                    ComponentTypeId::lemma_view_injective(
                        a.component_type_id,
                        b.component_type_id,
                    );
                    assert(self@[i as int] != other@[i as int]);
                }
                return false;
            }
            proof {
                ComponentTypeId::lemma_view_injective(a.component_type_id, b.component_type_id);
            }
            i += 1;
        }
        proof {
            assert(self@ =~= other@);
        }
        true
    }
}

/// Two ascending sequences with the same elements are the same sequence.
pub proof fn lemma_ascending_arrangement_unique(
    a: Seq<ComponentDescriptor>,
    b: Seq<ComponentDescriptor>,
)
    requires
        ascending_ids(a),
        ascending_ids(b),
        a.to_multiset() == b.to_multiset(),
    ensures
        a == b,
    decreases a.len(),
{
    to_multiset_len(a);
    to_multiset_len(b);
    if a.len() == 0 {
        assert(a =~= b);
    } else {
        let last = a.len() - 1;
        let j = lemma_member_of_permutation(a, b, last);
        let i = lemma_member_of_permutation(b, a, last);
        if i < last {
            assert(a[i].id() < a[last].id());
        }
        if j < last {
            assert(b[j].id() < b[last].id());
        }
        assert(j == last);
        assert(a[last] == b[last]);
        to_multiset_remove(a, last);
        to_multiset_remove(b, last);
        assert(a.remove(last) =~= a.drop_last());
        assert(b.remove(last) =~= b.drop_last());
        lemma_ascending_arrangement_unique(a.drop_last(), b.drop_last());
        assert(a =~= a.drop_last().push(a[last]));
        assert(b =~= b.drop_last().push(b[last]));
    }
}

/// In ascending sequences, the component of the superset that carries the
/// id of the subset's component `j` stands at position `j` or later.
pub proof fn lemma_superset_position(
    sup: Seq<ComponentDescriptor>,
    sub: Seq<ComponentDescriptor>,
    j: int,
)
    requires
        ascending_ids(sup),
        ascending_ids(sub),
        is_superset(sup, sub),
        0 <= j < sub.len(),
    ensures
        j <= position_of(sup, sub[j].id()) < sup.len(),
        sup[position_of(sup, sub[j].id())].id() == sub[j].id(),
    decreases j,
{
    assert(has_id(sup, sub[j].id()));
    let p = position_of(sup, sub[j].id());
    if j > 0 {
        lemma_superset_position(sup, sub, j - 1);
        let before = position_of(sup, sub[j - 1].id());
        assert(sub[j - 1].id() < sub[j].id());
        if p < before {
            assert(sup[p].id() < sup[before].id());
        }
    }
}

/// A set of component types has at most as many members as a superset of it.
pub proof fn lemma_superset_len(sup: Seq<ComponentDescriptor>, sub: Seq<ComponentDescriptor>)
    requires
        ascending_ids(sup),
        ascending_ids(sub),
        is_superset(sup, sub),
    ensures
        sub.len() <= sup.len(),
{
    if sub.len() > 0 {
        lemma_superset_position(sup, sub, sub.len() - 1);
    }
}

/// There is one way to insert a component so that the ids ascend.
pub proof fn lemma_with_component(
    components: Seq<ComponentDescriptor>,
    component: ComponentDescriptor,
    k: int,
)
    requires
        0 <= k <= components.len(),
        ascending_ids(components.insert(k, component)),
    ensures
        with_component(components, component) == components.insert(k, component),
{
    let chosen = choose|j: int|
        0 <= j <= components.len() && ascending_ids(
            #[trigger] components.insert(j, component),
        );
    to_multiset_insert(components, k, component);
    to_multiset_insert(components, chosen, component);
    lemma_ascending_arrangement_unique(
        components.insert(chosen, component),
        components.insert(k, component),
    );
}

/// A component whose id is new to an ascending sequence has a place in
/// it: the position at which `with_component` inserts it.
pub proof fn lemma_insertion_point(
    components: Seq<ComponentDescriptor>,
    component: ComponentDescriptor,
) -> (k: int)
    requires
        ascending_ids(components),
        !has_id(components, component.id()),
    ensures
        0 <= k <= components.len(),
        ascending_ids(components.insert(k, component)),
        with_component(components, component) == components.insert(k, component),
    decreases components.len(),
{
    if components.len() == 0 {
        lemma_with_component(components, component, 0);
        0
    } else {
        let end = components.len() - 1;
        let last = components[end];
        assert(last.id() != component.id());
        if last.id() < component.id() {
            let k = components.len() as int;
            let after = components.insert(k, component);
            assert forall|a: int, b: int| 0 <= a < b < after.len()
                implies (#[trigger] after[a]).id()
                < (#[trigger] after[b]).id() by {
                assert(after[a] == components[a]);
                if b < k {
                    assert(after[b] == components[b]);
                } else if a < end {
                    assert(components[a].id() < components[end].id());
                }
            }
            lemma_with_component(components, component, k);
            k
        } else {
            let rest = components.drop_last();
            assert forall|i: int| 0 <= i < rest.len() implies (#[trigger] rest[i]).id()
                != component.id() by {
                assert(components[i].id() != component.id());
            }
            assert(ascending_ids(rest)) by {
                assert forall|a: int, b: int| 0 <= a < b < rest.len()
                    implies (#[trigger] rest[a]).id()
                    < (#[trigger] rest[b]).id() by {
                    assert(components[a].id() < components[b].id());
                }
            }
            let k = lemma_insertion_point(rest, component);
            let shorter = rest.insert(k, component);
            let after = components.insert(k, component);
            assert(after =~= shorter.push(last));
            assert forall|a: int, b: int| 0 <= a < b < after.len()
                implies (#[trigger] after[a]).id()
                < (#[trigger] after[b]).id() by {
                if b < shorter.len() {
                    assert(shorter[a].id() < shorter[b].id());
                } else if a == k {
                } else if a < k {
                    assert(after[a] == components[a]);
                    assert(components[a].id() < components[end].id());
                } else {
                    assert(after[a] == components[a - 1]);
                    assert(components[a - 1].id() < components[end].id());
                }
            }
            lemma_with_component(components, component, k);
            k
        }
    }
}

impl ArchetypeDescriptor {
    /// The canonical form does not depend on the order in which the
    /// components were listed: the descriptors built from a list and from any
    /// permutation of it hold the same components in the same ascending
    /// order, and carry the same identity.
    pub proof fn lemma_canonical_id(
        list: Seq<ComponentDescriptor>,
        permuted: Seq<ComponentDescriptor>,
        of_list: ArchetypeDescriptor,
        of_permuted: ArchetypeDescriptor,
    )
        requires
            list.to_multiset() == permuted.to_multiset(),
            of_list.wf(),
            of_permuted.wf(),
            of_list@.to_multiset() == list.to_multiset(),
            of_permuted@.to_multiset() == permuted.to_multiset(),
        ensures
            of_list@ == of_permuted@,
            of_list.spec_archetype_id() == of_permuted.spec_archetype_id(),
            ascending_ids(of_list@),
    {
        lemma_ascending_arrangement_unique(of_list@, of_permuted@);
        ArchetypeId::lemma_view_injective(
            of_list.spec_archetype_id(),
            of_permuted.spec_archetype_id(),
        );
    }

    /// Well-formed descriptors with the same components carry the same identity.
    pub proof fn lemma_same_components_same_id(a: ArchetypeDescriptor, b: ArchetypeDescriptor)
        requires
            a.wf(),
            b.wf(),
            a@ == b@,
        ensures
            a.spec_archetype_id() == b.spec_archetype_id(),
    {
        ArchetypeId::lemma_view_injective(a.spec_archetype_id(), b.spec_archetype_id());
    }
}

impl Clone for ArchetypeDescriptor {
    fn clone(&self) -> (copy: Self)
        ensures
            copy@ == self@,
            copy.spec_archetype_id() == self.spec_archetype_id(),
    {
        ArchetypeDescriptor {
            archetype_id: self.archetype_id,
            components: copy_components(&self.components),
        }
    }
}

impl PartialEq for ArchetypeDescriptor {
    /// Descriptors are equal when they hold the same components.
    fn eq(&self, other: &ArchetypeDescriptor) -> (equal: bool) {
        self.equals(other)
    }
}

impl vstd::std_specs::cmp::PartialEqSpecImpl for ArchetypeDescriptor {
    open spec fn obeys_eq_spec() -> bool {
        true
    }

    open spec fn eq_spec(&self, other: &ArchetypeDescriptor) -> bool {
        self@ == other@
    }
}

} // verus!
