use crate::archetype_descriptor::{
    distinct_ids, has_id, lemma_ascending_is_distinct, lemma_position_of_unique,
    ArchetypeDescriptor,
};
use crate::component_descriptor::ComponentDescriptor;
use crate::constants::MAX_COMPONENTS_PER_ENTITY;
use vstd::prelude::*;
use vstd::seq_lib::to_multiset_contains;
use vstd::slice::slice_subrange;

verus! {

/// Describes a group of component types in the order in which a caller
/// lists them, together with the canonical descriptor of the same set and
/// the permutation between the two orders.
#[derive(Debug)]
pub struct ComponentGroupDescriptor {
    archetype: ArchetypeDescriptor,
    unsorted_to_sorted: Vec<u8>,
    sorted_to_unsorted: Vec<u8>,
}

/// The first position in `components` that carries `id`.
fn find_by_id(components: &[ComponentDescriptor], id: u16) -> (found: Option<usize>)
    ensures
        found matches Some(i) ==> i < components@.len() && components@[i as int].id() == id,
        found is None ==> !has_id(components@, id),
{
    let mut i: usize = 0;
    while i < components.len()
        invariant
            i <= components@.len(),
            forall|k: int| 0 <= k < i ==> (#[trigger] components@[k]).id() != id,
        decreases components@.len() - i,
    {
        if components[i].component_type_id.into_u16() == id {
            return Some(i);
        }
        i += 1;
    }
    None
}

/// Copies a permutation table.
fn copy_table(table: &Vec<u8>) -> (copy: Vec<u8>)
    ensures
        copy@ == table@,
{
    let mut copy: Vec<u8> = Vec::new();
    let mut i: usize = 0;
    while i < table.len()
        invariant
            i <= table@.len(),
            copy@ == table@.subrange(0, i as int),
        decreases table@.len() - i,
    {
        copy.push(table[i]);
        proof {
            assert(copy@ =~= table@.subrange(0, i + 1));
        }
        i += 1;
    }
    proof {
        assert(table@.subrange(0, i as int) =~= table@);
    }
    copy
}

impl ComponentGroupDescriptor {
    /// The canonical descriptor of the group's component set.
    pub closed spec fn spec_archetype(&self) -> ArchetypeDescriptor {
        self.archetype
    }

    /// For each position in the caller's order, the column in sorted order.
    pub closed spec fn mapping(&self) -> Seq<u8> {
        self.unsorted_to_sorted@
    }

    /// For each column in sorted order, the position in the caller's order.
    pub closed spec fn inverse(&self) -> Seq<u8> {
        self.sorted_to_unsorted@
    }

    /// The invariant of every group descriptor: the canonical descriptor is
    /// well formed, and the two tables are permutations of its columns that
    /// undo each other.
    pub open spec fn wf(&self) -> bool {
        &&& self.spec_archetype().wf()
        &&& self.mapping().len() == self.spec_archetype()@.len()
        &&& self.inverse().len() == self.spec_archetype()@.len()
        &&& forall|i: int|
            0 <= i < self.mapping().len() ==> (#[trigger] self.mapping()[i])
                < self.mapping().len() && self.inverse()[self.mapping()[i] as int] == i
        &&& forall|j: int|
            0 <= j < self.inverse().len() ==> (#[trigger] self.inverse()[j])
                < self.inverse().len() && self.mapping()[self.inverse()[j] as int] == j
    }

    /// The group is valid when it is well formed and names at least one component.
    pub open spec fn spec_is_valid(&self) -> bool {
        self.wf() && self.spec_archetype()@.len() >= 1
    }

    /// Both descriptors describe the same group: the same components in
    /// the same declaration order, with the same canonical descriptor.
    pub open spec fn same_as(&self, other: &ComponentGroupDescriptor) -> bool {
        &&& self.spec_archetype()@ == other.spec_archetype()@
        &&& self.spec_archetype().spec_archetype_id() == other.spec_archetype().spec_archetype_id()
        &&& self.mapping() == other.mapping()
        &&& self.inverse() == other.inverse()
    }

    /// The component descriptors in the caller's order.
    pub open spec fn declared(&self) -> Seq<ComponentDescriptor> {
        Seq::new(
            self.mapping().len(),
            |i: int| self.spec_archetype()@[self.mapping()[i] as int],
        )
    }

    /// Describes the group whose components are listed in `components`.
    ///
    /// A list of between one and [`MAX_COMPONENTS_PER_ENTITY`] components
    /// with distinct ids gives a valid descriptor, which keeps the order of
    /// the list. Any other list gives the descriptor without components.
    pub fn new(components: &[ComponentDescriptor]) -> (group: ComponentGroupDescriptor)
        ensures
            group.wf(),
            group.spec_is_valid() <==> 1 <= components@.len() <= MAX_COMPONENTS_PER_ENTITY
                && distinct_ids(components@),
            group.spec_is_valid() ==> group.declared() == components@
                && group.spec_archetype()@.to_multiset() == components@.to_multiset(),
            !group.spec_is_valid() ==> group.spec_archetype()@.len() == 0,
    {
        let archetype = match ArchetypeDescriptor::from_unsorted(components) {
            Some(archetype) => archetype,
            None => {
                return ComponentGroupDescriptor {
                    archetype: ArchetypeDescriptor::invalid(),
                    unsorted_to_sorted: Vec::new(),
                    sorted_to_unsorted: Vec::new(),
                };
            },
        };
        let n = components.len();
        proof {
            vstd::seq_lib::to_multiset_len(archetype@);
            vstd::seq_lib::to_multiset_len(components@);
            lemma_ascending_is_distinct(archetype@);
        }
        let mut unsorted_to_sorted: Vec<u8> = Vec::new();
        let mut i: usize = 0;
        while i < n
            invariant
                n == components@.len(),
                n == archetype@.len(),
                n <= MAX_COMPONENTS_PER_ENTITY,
                i <= n,
                archetype.wf(),
                distinct_ids(archetype@),
                archetype@.to_multiset() == components@.to_multiset(),
                unsorted_to_sorted@.len() == i,
                forall|k: int|
                    0 <= k < i ==> (#[trigger] unsorted_to_sorted@[k]) < n
                        && archetype@[unsorted_to_sorted@[k] as int] == components@[k],
            decreases n - i,
        {
            let wanted = components[i];
            proof {
                assert(components@.contains(wanted));
                to_multiset_contains(components@, wanted);
                to_multiset_contains(archetype@, wanted);
                assert(archetype@.contains(wanted));
                let k = choose|k: int| 0 <= k < archetype@.len() && archetype@[k] == wanted;
                lemma_position_of_unique(archetype@, k);
            }
            let column = match archetype.index_of(wanted.component_type_id) {
                Some(column) => column,
                None => 0,
            };
            unsorted_to_sorted.push(column as u8);
            i += 1;
        }
        let mut sorted_to_unsorted: Vec<u8> = Vec::new();
        let mut j: usize = 0;
        while j < n
            invariant
                n == components@.len(),
                n == archetype@.len(),
                n <= MAX_COMPONENTS_PER_ENTITY,
                j <= n,
                distinct_ids(components@),
                archetype@.to_multiset() == components@.to_multiset(),
                sorted_to_unsorted@.len() == j,
                forall|k: int|
                    0 <= k < j ==> (#[trigger] sorted_to_unsorted@[k]) < n
                        && components@[sorted_to_unsorted@[k] as int] == archetype@[k],
            decreases n - j,
        {
            let wanted = archetype.component(j);
            proof {
                assert(archetype@.contains(wanted));
                to_multiset_contains(components@, wanted);
                to_multiset_contains(archetype@, wanted);
                assert(components@.contains(wanted));
                let k = choose|k: int| 0 <= k < components@.len() && components@[k] == wanted;
                assert(components@[k].id() == wanted.id());
                lemma_position_of_unique(components@, k);
            }
            let position = match find_by_id(components, wanted.component_type_id.into_u16()) {
                Some(position) => position,
                None => 0,
            };
            proof {
                lemma_position_of_unique(components@, position as int);
            }
            sorted_to_unsorted.push(position as u8);
            j += 1;
        }
        let group = ComponentGroupDescriptor { archetype, unsorted_to_sorted, sorted_to_unsorted };
        proof {
            assert forall|i: int| 0 <= i < group.mapping().len() implies (
            #[trigger] group.mapping()[i]) < group.mapping().len()
                && group.inverse()[group.mapping()[i] as int] == i by {
                let column = group.mapping()[i] as int;
                let back = group.inverse()[column] as int;
                assert(components@[back] == archetype@[column]);
                assert(archetype@[column] == components@[i]);
                lemma_position_of_unique(components@, back);
                lemma_position_of_unique(components@, i);
            }
            assert forall|j: int| 0 <= j < group.inverse().len() implies (
            #[trigger] group.inverse()[j]) < group.inverse().len()
                && group.mapping()[group.inverse()[j] as int] == j by {
                let position = group.inverse()[j] as int;
                let column = group.mapping()[position] as int;
                assert(archetype@[column] == components@[position]);
                assert(components@[position] == archetype@[j]);
                lemma_position_of_unique(archetype@, column);
                lemma_position_of_unique(archetype@, j);
            }
            assert(group.declared() =~= components@);
        }
        group
    }

    /// Whether the group names at least one component.
    pub fn is_valid(&self) -> (valid: bool)
        requires
            self.wf(),
        ensures
            valid == self.spec_is_valid(),
    {
        self.archetype.is_valid()
    }

    /// The number of components in the group.
    pub fn len(&self) -> (len: u8)
        requires
            self.wf(),
        ensures
            len == self.spec_archetype()@.len(),
    {
        self.archetype.len()
    }

    /// The canonical descriptor of the group's component set.
    pub fn archetype(&self) -> (archetype: &ArchetypeDescriptor)
        ensures
            *archetype == self.spec_archetype(),
    {
        &self.archetype
    }

    /// The sorted column of the component at `index` in the caller's order.
    pub fn unsorted_to_sorted(&self, index: usize) -> (column: u8)
        requires
            self.wf(),
            index < self.mapping().len(),
        ensures
            column == self.mapping()[index as int],
            column < self.mapping().len(),
            self.spec_archetype()@[column as int] == self.declared()[index as int],
    {
        self.unsorted_to_sorted[index]
    }

    /// The position in the caller's order of the component in sorted column `column`.
    pub fn sorted_to_unsorted(&self, column: usize) -> (index: u8)
        requires
            self.wf(),
            column < self.inverse().len(),
        ensures
            index == self.inverse()[column as int],
            index < self.inverse().len(),
            self.declared()[index as int] == self.spec_archetype()@[column as int],
    {
        self.sorted_to_unsorted[column]
    }
}

impl Clone for ComponentGroupDescriptor {
    fn clone(&self) -> (copy: Self)
        ensures
            copy.same_as(self),
    {
        ComponentGroupDescriptor {
            archetype: self.archetype.clone(),
            unsorted_to_sorted: copy_table(&self.unsorted_to_sorted),
            sorted_to_unsorted: copy_table(&self.sorted_to_unsorted),
        }
    }
}

impl ComponentGroupDescriptor {
    /// Puts references that stand in sorted column order into the caller's order.
    pub fn pointers_as_ref_tuple<'a>(
        &self,
        sorted_pointers: &Vec<&'a [u8]>,
    ) -> (tuple: Vec<&'a [u8]>)
        requires
            self.wf(),
            sorted_pointers@.len() == self.mapping().len(),
        ensures
            tuple@.len() == self.mapping().len(),
            forall|i: int|
                0 <= i < tuple@.len()
                    ==> #[trigger] tuple@[i] == sorted_pointers@[self.mapping()[i] as int],
    {
        let n = self.unsorted_to_sorted.len();
        let mut tuple: Vec<&'a [u8]> = Vec::new();
        let mut i: usize = 0;
        while i < n
            invariant
                self.wf(),
                n == self.mapping().len(),
                n == sorted_pointers@.len(),
                i <= n,
                tuple@.len() == i,
                forall|k: int|
                    0 <= k < i
                        ==> #[trigger] tuple@[k] == sorted_pointers@[self.mapping()[k] as int],
            decreases n - i,
        {
            let column = self.unsorted_to_sorted[i] as usize;
            tuple.push(sorted_pointers[column]);
            i += 1;
        }
        tuple
    }

    /// Cuts the first `len` elements out of each column and puts the
    /// slices, which stand in sorted column order, into the caller's order.
    pub fn slice_unchecked<'a>(
        &self,
        sorted_pointers: &Vec<&'a [u8]>,
        len: usize,
    ) -> (slices: Vec<&'a [u8]>)
        requires
            self.wf(),
            sorted_pointers@.len() == self.mapping().len(),
            forall|j: int|
                0 <= j < sorted_pointers@.len() ==> len * self.spec_archetype()@[j].size <= (
                #[trigger] sorted_pointers@[j])@.len(),
        ensures
            slices@.len() == self.mapping().len(),
            forall|i: int|
                0 <= i < slices@.len() ==> (#[trigger] slices@[i])@
                    == sorted_pointers@[self.mapping()[i] as int]@.subrange(
                    0,
                    len * self.declared()[i].size,
                ),
    {
        let n = self.unsorted_to_sorted.len();
        let mut slices: Vec<&'a [u8]> = Vec::new();
        let mut i: usize = 0;
        while i < n
            invariant
                self.wf(),
                n == self.mapping().len(),
                n == sorted_pointers@.len(),
                i <= n,
                slices@.len() == i,
                forall|j: int|
                    0 <= j < sorted_pointers@.len() ==> len * self.spec_archetype()@[j].size <= (
                    #[trigger] sorted_pointers@[j])@.len(),
                forall|k: int|
                    0 <= k < i ==> (#[trigger] slices@[k])@
                        == sorted_pointers@[self.mapping()[k] as int]@.subrange(
                        0,
                        len * self.declared()[k].size,
                    ),
            decreases n - i,
        {
            let column = self.unsorted_to_sorted[i] as usize;
            let size = self.archetype.component(column).size as usize;
            let pointer: &'a [u8] = sorted_pointers[column];
            proof {
                assert(len * self.spec_archetype()@[column as int].size
                    <= sorted_pointers@[column as int]@.len());
                assert(pointer@.len() == pointer.len());
            }
            slices.push(slice_subrange(pointer, 0, len * size));
            i += 1;
        }
        slices
    }
}

/// Marks a column whose reference has not been placed yet.
spec fn waits(column: int) -> bool {
    true
}

/// The positions rise strictly from each entry to the next.
spec fn ascending_positions(positions: Seq<u8>) -> bool {
    forall|a: int, b: int|
        0 <= a < b < positions.len() ==> (#[trigger] positions[a]) < (#[trigger] positions[b])
}

/// In an ascending sequence, the entry at `k` is at least `k`.
proof fn lemma_position_from_below(positions: Seq<u8>, k: int)
    requires
        ascending_positions(positions),
        0 <= k < positions.len(),
    ensures
        positions[k] >= k,
    decreases k,
{
    if k > 0 {
        lemma_position_from_below(positions, k - 1);
        assert(positions[k - 1] < positions[k]);
    }
}

/// In an ascending sequence of entries below its length, the entry at `k` is at most `k`.
proof fn lemma_position_from_above(positions: Seq<u8>, k: int)
    requires
        ascending_positions(positions),
        forall|i: int| 0 <= i < positions.len() ==> (#[trigger] positions[i]) < positions.len(),
        0 <= k < positions.len(),
    ensures
        positions[k] <= k,
    decreases positions.len() - k,
{
    if k + 1 < positions.len() {
        lemma_position_from_above(positions, k + 1);
        assert(positions[k] < positions[k + 1]);
    }
}

impl ComponentGroupDescriptor {
    /// Puts references for writing that stand in sorted column order into
    /// the caller's order. What is written through a reference of the
    /// result is written through the reference that was handed in.
    pub fn pointers_as_mut_ref_tuple<'a>(
        &self,
        sorted_pointers: Vec<&'a mut [u8]>,
    ) -> (tuple: Vec<&'a mut [u8]>)
        requires
            self.wf(),
            sorted_pointers@.len() == self.mapping().len(),
        ensures
            tuple@.len() == self.mapping().len(),
            forall|i: int|
                0 <= i < tuple@.len() ==> tuple@[i]@ == sorted_pointers@[(
                #[trigger] self.mapping()[i]) as int]@
                    && final(tuple@[i])@ == final(sorted_pointers@[self.mapping()[i] as int])@,
    {
        let mut sorted = sorted_pointers;
        let n = sorted.len();
        let mut tuple: Vec<&'a mut [u8]> = Vec::new();
        let mut positions: Vec<u8> = Vec::new();
        let mut j: usize = n;
        while j > 0
            invariant
                self.wf(),
                n == self.mapping().len(),
                n == sorted_pointers@.len(),
                j <= n,
                sorted@.len() == j,
                forall|c: int|
                    0 <= c < j && #[trigger] waits(c) ==> sorted@[c]@ == sorted_pointers@[c]@
                        && final(sorted@[c])@ == final(sorted_pointers@[c])@,
                positions@.len() == n - j,
                tuple@.len() == n - j,
                ascending_positions(positions@),
                forall|k: int|
                    0 <= k < positions@.len() ==> (#[trigger] positions@[k]) < n
                        && self.mapping()[positions@[k] as int] >= j && tuple@[k]@
                        == sorted_pointers@[self.mapping()[positions@[k] as int] as int]@
                        && final(tuple@[k])@
                            == final(
                            sorted_pointers@[self.mapping()[positions@[k] as int] as int])@,
            decreases j,
        {
            j -= 1;
            let ghost waiting = sorted@;
            let pointer = sorted.pop().unwrap();
            let position = self.sorted_to_unsorted[j];
            let mut at: usize = 0;
            while at < positions.len() && positions[at] < position
                invariant
                    at <= positions@.len(),
                    forall|k: int| 0 <= k < at ==> (#[trigger] positions@[k]) < position,
                decreases positions@.len() - at,
            {
                at += 1;
            }
            let ghost before = positions@;
            let ghost placed = tuple@;
            proof {
                assert(position == self.inverse()[j as int]);
                assert(position < n);
                assert(self.mapping()[position as int] == j);
                if at < before.len() {
                    assert(self.mapping()[before[at as int] as int] > j);
                }
                assert(waits(j as int));
                assert forall|c: int| 0 <= c < j && #[trigger] waits(c) implies sorted@[c]@
                    == sorted_pointers@[c]@ && final(sorted@[c])@ == final(
                    sorted_pointers@[c])@ by {
                    assert(sorted@[c] == waiting[c]);
                }
            }
            positions.insert(at, position);
            tuple.insert(at, pointer);
            proof {
                assert forall|a: int, b: int| 0 <= a < b < positions@.len() implies (
                #[trigger] positions@[a]) < (#[trigger] positions@[b]) by {
                    let a0 = if a < at {
                        a
                    } else {
                        a - 1
                    };
                    let b0 = if b < at {
                        b
                    } else {
                        b - 1
                    };
                    if a != at {
                        assert(positions@[a] == before[a0]);
                    }
                    if b != at {
                        assert(positions@[b] == before[b0]);
                    }
                    if a != at && b != at {
                        assert(before[a0] < before[b0]);
                    } else if a == at {
                        assert(before[at as int] <= before[b0]) by {
                            if (at as int) < b0 {
                                assert(before[at as int] < before[b0]);
                            }
                        }
                    }
                }
                assert forall|k: int| 0 <= k < positions@.len() implies (
                #[trigger] positions@[k]) < n && self.mapping()[positions@[k] as int] >= j
                    && tuple@[k]@ == sorted_pointers@[self.mapping()[positions@[k] as int] as int]@
                    && final(tuple@[k])@
                        == final(
                            sorted_pointers@[self.mapping()[positions@[k] as int] as int])@ by {
                    if k < at {
                        assert(positions@[k] == before[k] && tuple@[k] == placed[k]);
                    } else if k > at {
                        assert(positions@[k] == before[k - 1] && tuple@[k] == placed[k - 1]);
                    } else {
                        assert(positions@[k] == position);
                    }
                }
            }
        }
        proof {
            assert forall|i: int| 0 <= i < tuple@.len() implies tuple@[i]@ == sorted_pointers@[(
            #[trigger] self.mapping()[i]) as int]@
                && final(tuple@[i])@ == final(sorted_pointers@[self.mapping()[i] as int])@ by {
                lemma_position_from_below(positions@, i);
                lemma_position_from_above(positions@, i);
            }
        }
        tuple
    }
}

impl ComponentGroupDescriptor {
    /// Cuts the first `len` elements out of each column, for writing, and
    /// puts the slices, which stand in sorted column order, into the
    /// caller's order. What a slice holds in the end takes the place of
    /// the first `len` elements of its column.
    pub fn slice_unchecked_mut<'a>(
        &self,
        sorted_pointers: Vec<&'a mut [u8]>,
        len: usize,
    ) -> (slices: Vec<&'a mut [u8]>)
        requires
            self.wf(),
            sorted_pointers@.len() == self.mapping().len(),
            forall|j: int|
                0 <= j < sorted_pointers@.len()
                    ==> len * (#[trigger] self.spec_archetype()@[j]).size
                    <= sorted_pointers@[j]@.len(),
        ensures
            slices@.len() == self.mapping().len(),
            forall|i: int|
                0 <= i < slices@.len() ==> slices@[i]@ == sorted_pointers@[(
                #[trigger] self.mapping()[i]) as int]@.subrange(0, len * self.declared()[i].size)
                    && final(sorted_pointers@[self.mapping()[i] as int])@ == final(slices@[i])@
                    + sorted_pointers@[self.mapping()[i] as int]@.subrange(
                    len * self.declared()[i].size,
                    sorted_pointers@[self.mapping()[i] as int]@.len() as int,
                ),
    {
        let mut sorted = sorted_pointers;
        let n = sorted.len();
        let mut cut: Vec<&'a mut [u8]> = Vec::new();
        let mut j: usize = n;
        while j > 0
            invariant
                self.wf(),
                n == self.mapping().len(),
                n == sorted_pointers@.len(),
                j <= n,
                forall|c: int|
                    0 <= c < n ==> len * (#[trigger] self.spec_archetype()@[c]).size
                        <= sorted_pointers@[c]@.len(),
                sorted@.len() == j,
                forall|c: int|
                    0 <= c < j && #[trigger] waits(c) ==> sorted@[c]@ == sorted_pointers@[c]@
                        && final(sorted@[c])@ == final(sorted_pointers@[c])@,
                cut@.len() == n - j,
                forall|c: int|
                    j <= c < n && #[trigger] waits(c) ==> cut@[c - j]@
                        == sorted_pointers@[c]@.subrange(0, len * self.spec_archetype()@[c].size)
                        && final(sorted_pointers@[c])@ == final(cut@[c - j])@
                        + sorted_pointers@[c]@.subrange(
                        len * self.spec_archetype()@[c].size,
                        sorted_pointers@[c]@.len() as int,
                    ),
            decreases j,
        {
            j -= 1;
            let ghost waiting = sorted@;
            let ghost done = cut@;
            let pointer = sorted.pop().unwrap();
            let size = self.archetype.component(j).size as usize;
            proof {
                assert(waits(j as int));
                assert(len * self.spec_archetype()@[j as int].size
                    <= sorted_pointers@[j as int]@.len());
                assert(pointer@.len() == pointer.len());
                assert forall|c: int| 0 <= c < j && #[trigger] waits(c) implies sorted@[c]@
                    == sorted_pointers@[c]@ && final(sorted@[c])@ == final(
                    sorted_pointers@[c])@ by {
                    assert(sorted@[c] == waiting[c]);
                }
            }
            let (live, _) = pointer.split_at_mut(len * size);
            cut.insert(0, live);
            proof {
                assert forall|c: int| j <= c < n && #[trigger] waits(c) implies cut@[c - j]@
                    == sorted_pointers@[c]@.subrange(0, len * self.spec_archetype()@[c].size)
                    && final(sorted_pointers@[c])@ == final(cut@[c - j])@
                    + sorted_pointers@[c]@.subrange(
                    len * self.spec_archetype()@[c].size,
                    sorted_pointers@[c]@.len() as int,
                ) by {
                    if c > j {
                        assert(cut@[c - j] == done[c - j - 1]);
                    }
                }
            }
        }
        proof {
            assert forall|c: int| 0 <= c < n && #[trigger] waits(c) implies cut@[c]@
                == sorted_pointers@[c]@.subrange(0, len * self.spec_archetype()@[c].size)
                && final(sorted_pointers@[c])@ == final(cut@[c])@ + sorted_pointers@[c]@.subrange(
                len * self.spec_archetype()@[c].size,
                sorted_pointers@[c]@.len() as int,
            ) by {
                assert(cut@[c - 0] == cut@[c]);
            }
        }
        let slices = self.pointers_as_mut_ref_tuple(cut);
        proof {
            assert forall|i: int| 0 <= i < slices@.len() implies slices@[i]@ == sorted_pointers@[(
            #[trigger] self.mapping()[i]) as int]@.subrange(0, len * self.declared()[i].size)
                && final(sorted_pointers@[self.mapping()[i] as int])@ == final(slices@[i])@
                + sorted_pointers@[self.mapping()[i] as int]@.subrange(
                len * self.declared()[i].size,
                sorted_pointers@[self.mapping()[i] as int]@.len() as int,
            ) by {
                assert(waits(self.mapping()[i] as int));
            }
        }
        slices
    }
}

} // verus!
