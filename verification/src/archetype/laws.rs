use crate::archetype::column::{
    lemma_column_determined_by_rows, lemma_row_in_bounds, lemma_with_row, row_bytes, with_row,
};
use crate::archetype::metadata::EntityMetadata;
use crate::archetype::Archetype;
use crate::archetype_descriptor::{
    has_id, lemma_ascending_is_distinct, lemma_insertion_point, lemma_position_of_unique,
    position_of, with_component,
};
use crate::component_group::ComponentGroup;
use vstd::prelude::*;

verus! {

impl Archetype {
    /// What is pushed is what is read: after an entity was appended, its
    /// row holds the pushed values, a group read from that row has the
    /// pushed group's values in the caller's order, there is one row more,
    /// and removing the row again restores the row count and the rows.
    pub proof fn lemma_push_read_round_trip(
        before: Archetype,
        pushed: Archetype,
        dropped: Archetype,
        metadata: EntityMetadata,
        entity: ComponentGroup,
        read: ComponentGroup,
    )
        requires
            before.wf(),
            pushed.wf(),
            entity.wf(),
            read.wf(),
            before.pushed(&pushed, metadata, entity.sorted_values()),
            read.spec_descriptor().same_as(&entity.spec_descriptor()),
            read.sorted_values() == pushed.slot(before.spec_size() as int).components,
            pushed.removed(&dropped, before.spec_size() as int),
        ensures
            read.values() == entity.values(),
            pushed.slot(before.spec_size() as int).metadata == metadata,
            pushed.spec_size() == before.spec_size() + 1,
            dropped.spec_size() == before.spec_size(),
            dropped.rows() == before.rows(),
    {
        ComponentGroup::lemma_values_from_sorted(read, entity);
        assert(dropped.rows() =~= before.rows());
    }

    /// Exchanging the same two rows twice changes nothing: every column
    /// holds the bytes it held, and the bookkeeping is what it was.
    pub proof fn lemma_swap_twice(
        before: Archetype,
        once: Archetype,
        twice: Archetype,
        first: int,
        second: int,
    )
        requires
            before.wf(),
            once.wf(),
            twice.wf(),
            0 <= first < before.spec_size(),
            0 <= second < before.spec_size(),
            before.swapped(&once, first, second),
            once.swapped(&twice, first, second),
        ensures
            twice.same_contents(&before),
            twice.same_layout(&before),
    {
        assert forall|r: int| 0 <= r < before.spec_capacity() implies #[trigger] twice.slot(r)
            == before.slot(r) by {
            if r == first {
                assert(twice.slot(first) == once.slot(second));
            } else if r == second {
                assert(twice.slot(second) == once.slot(first));
            } else {
                assert(twice.slot(r) == once.slot(r));
            }
        }
        assert(twice.metadata_slots() =~= before.metadata_slots()) by {
            assert forall|r: int| 0 <= r < before.spec_capacity() implies twice.metadata_slots()[r]
                == before.metadata_slots()[r] by {
                assert(twice.slot(r).metadata == before.slot(r).metadata);
            }
        }
        assert forall|c: int| 0 <= c < twice.column_count() implies #[trigger] twice.column_bytes(
            c,
        ) == before.column_bytes(c) by {
            let size = before.spec_descriptor()@[c].size as int;
            assert forall|r: int| 0 <= r < before.spec_capacity() implies #[trigger] row_bytes(
                twice.column_bytes(c),
                size,
                r,
            ) == row_bytes(before.column_bytes(c), size, r) by {
                assert(twice.slot(r).components[c] == before.slot(r).components[c]);
            }
            lemma_column_determined_by_rows(
                twice.column_bytes(c),
                before.column_bytes(c),
                size,
                before.spec_capacity() as int,
            );
        }
    }

    /// A move that adds a component is complete: after the common
    /// components were copied from the source row and the added component
    /// was written, the destination row holds, for every component type of
    /// the source, the bytes of the source row, and for the added type the
    /// added value, together with the written bookkeeping.
    pub proof fn lemma_transition_complete(
        source: Archetype,
        destination: Archetype,
        copied: Archetype,
        written: Archetype,
        source_row: int,
        destination_row: int,
        metadata: EntityMetadata,
        added: ComponentGroup,
    )
        requires
            source.wf(),
            destination.wf(),
            added.wf(),
            added.spec_descriptor().spec_archetype()@.len() == 1,
            !has_id(
                source.spec_descriptor()@,
                added.spec_descriptor().spec_archetype()@[0].id(),
            ),
            destination.spec_descriptor()@ == with_component(
                source.spec_descriptor()@,
                added.spec_descriptor().spec_archetype()@[0],
            ),
            0 <= source_row < source.spec_capacity(),
            0 <= destination_row < destination.spec_capacity(),
            destination.copied_from(&copied, &source, source_row, destination_row),
            copied.written(
                &written,
                destination_row,
                metadata,
                added.spec_descriptor().spec_archetype()@,
                added.sorted_values(),
            ),
        ensures
            forall|i: int|
                0 <= i < source.column_count() ==> #[trigger] has_id(
                    destination.spec_descriptor()@,
                    source.spec_descriptor()@[i].id(),
                ),
            forall|i: int|
                0 <= i < source.column_count() ==> written.component_at(
                    position_of(destination.spec_descriptor()@, source.spec_descriptor()@[i].id()),
                    destination_row,
                ) == #[trigger] source.component_at(i, source_row),
            has_id(
                destination.spec_descriptor()@,
                added.spec_descriptor().spec_archetype()@[0].id(),
            ),
            written.component_at(
                position_of(
                    destination.spec_descriptor()@,
                    added.spec_descriptor().spec_archetype()@[0].id(),
                ),
                destination_row,
            ) == added.sorted_values()[0],
            written.slot(destination_row).metadata == metadata,
    {
        let stored = source.spec_descriptor()@;
        let group = added.spec_descriptor().spec_archetype()@;
        let component = group[0];
        let target = destination.spec_descriptor()@;
        let k = lemma_insertion_point(stored, component);
        lemma_ascending_is_distinct(target);
        lemma_ascending_is_distinct(stored);
        lemma_ascending_is_distinct(group);
        assert(target[k] == component);
        lemma_position_of_unique(target, k);
        lemma_position_of_unique(group, 0);
        assert(written.component_at(k, destination_row) == added.sorted_values()[0]);
        assert forall|i: int| 0 <= i < source.column_count() implies #[trigger] has_id(
            destination.spec_descriptor()@,
            source.spec_descriptor()@[i].id(),
        ) by {
            let column = if i < k {
                i
            } else {
                i + 1
            };
            assert(target[column] == stored[i]);
        }
        assert forall|i: int| 0 <= i < source.column_count() implies written.component_at(
            position_of(destination.spec_descriptor()@, source.spec_descriptor()@[i].id()),
            destination_row,
        ) == #[trigger] source.component_at(i, source_row) by {
            let column = if i < k {
                i
            } else {
                i + 1
            };
            assert(target[column] == stored[i]);
            lemma_position_of_unique(target, column);
            lemma_position_of_unique(stored, i);
            assert(copied.component_at(column, destination_row) == source.component_at(
                i,
                source_row,
            ));
            assert(!has_id(group, stored[i].id())) by {
                if has_id(group, stored[i].id()) {
                    let j = choose|j: int| 0 <= j < group.len() && (#[trigger] group[j]).id()
                        == stored[i].id();
                    assert(j == 0);
                    assert(stored[i].id() == component.id());
                }
            }
            assert(written.component_at(column, destination_row) == copied.component_at(
                column,
                destination_row,
            ));
        }
    }

    /// After the bytes of one component of one row were replaced by as
    /// many bytes through `get_component_unchecked_mut`, the archetype is
    /// well formed, the component holds the new bytes, and every other
    /// component of every row holds what it held.
    pub proof fn lemma_component_replaced(
        before: Archetype,
        after: Archetype,
        column: int,
        row: int,
        bytes: Seq<u8>,
    )
        requires
            before.wf(),
            0 <= column < before.column_count(),
            0 <= row < before.spec_capacity(),
            bytes.len() == before.spec_descriptor()@[column].size,
            after.same_layout(&before),
            after.spec_size() == before.spec_size(),
            after.spec_capacity() == before.spec_capacity(),
            after.column_count() == before.column_count(),
            after.metadata_slots() == before.metadata_slots(),
            forall|c: int|
                0 <= c < after.column_count() ==> #[trigger] after.column_bytes(c) == if c
                    == column {
                    with_row(
                        before.column_bytes(c),
                        before.spec_descriptor()@[c].size as int,
                        row,
                        bytes,
                    )
                } else {
                    before.column_bytes(c)
                },
        ensures
            after.wf(),
            after.component_at(column, row) == bytes,
            forall|c: int, r: int|
                0 <= c < after.column_count() && 0 <= r < after.spec_capacity() && (c != column
                    || r != row) ==> #[trigger] after.component_at(c, r) == before.component_at(
                    c,
                    r,
                ),
            forall|r: int|
                0 <= r < after.spec_capacity() && r != row ==> #[trigger] after.slot(r)
                    == before.slot(r),
    {
        let size = before.spec_descriptor()@[column].size as int;
        assert(before.column_bytes(column).len() == before.spec_capacity() * size);
        lemma_row_in_bounds(size, row, before.spec_capacity() as int);
        lemma_with_row(before.column_bytes(column), size, row, bytes);
        assert(after.column_bytes(column) == with_row(
            before.column_bytes(column),
            size,
            row,
            bytes,
        ));
        assert forall|c: int| 0 <= c < after.column_count() implies (
        #[trigger] after.column_bytes(c)).len() == after.spec_capacity()
            * after.spec_descriptor()@[c].size by {
            assert(before.column_bytes(c).len() == before.spec_capacity()
                * before.spec_descriptor()@[c].size);
        }
        assert forall|c: int, r: int|
            0 <= c < after.column_count() && 0 <= r < after.spec_capacity() && (c != column || r
                != row) implies #[trigger] after.component_at(c, r) == before.component_at(
            c,
            r,
        ) by {
            if c == column {
                lemma_row_in_bounds(size, r, before.spec_capacity() as int);
            } else {
                assert(after.column_bytes(c) == before.column_bytes(c));
            }
        }
        assert forall|r: int|
            0 <= r < after.spec_capacity() && r != row implies #[trigger] after.slot(r)
            == before.slot(r) by {
            assert(after.slot(r).components =~= before.slot(r).components);
        }
    }

    /// After the bookkeeping of the rows that hold entities was replaced,
    /// entry for entry, through `entity_metadata_mut`, the archetype is well
    /// formed and every component of every row holds what it held.
    pub proof fn lemma_metadata_replaced(
        before: Archetype,
        after: Archetype,
        metadata: Seq<EntityMetadata>,
    )
        requires
            before.wf(),
            metadata.len() == before.spec_size(),
            after.same_layout(&before),
            after.spec_size() == before.spec_size(),
            after.spec_capacity() == before.spec_capacity(),
            after.column_count() == before.column_count(),
            forall|c: int| #[trigger] after.column_bytes(c) == before.column_bytes(c),
            after.metadata_slots() == metadata + before.metadata_slots().subrange(
                before.spec_size() as int,
                before.spec_capacity() as int,
            ),
        ensures
            after.wf(),
            forall|r: int|
                0 <= r < after.spec_capacity() ==> #[trigger] after.slot(r).components
                    == before.slot(r).components,
            forall|r: int|
                0 <= r < after.spec_size() ==> #[trigger] after.slot(r).metadata == metadata[r],
            forall|r: int|
                after.spec_size() <= r < after.spec_capacity() ==> #[trigger] after.slot(r)
                    == before.slot(r),
    {
        assert forall|c: int| 0 <= c < after.column_count() implies (
        #[trigger] after.column_bytes(c)).len() == after.spec_capacity()
            * after.spec_descriptor()@[c].size by {
            assert(before.column_bytes(c).len() == before.spec_capacity()
                * before.spec_descriptor()@[c].size);
        }
        assert forall|r: int| 0 <= r < after.spec_capacity() implies #[trigger] after.slot(
            r,
        ).components == before.slot(r).components by {
            assert(after.slot(r).components =~= before.slot(r).components);
        }
        let rest = before.metadata_slots().subrange(
            before.spec_size() as int,
            before.spec_capacity() as int,
        );
        assert forall|r: int|
            after.spec_size() <= r < after.spec_capacity() implies #[trigger] after.slot(r)
            == before.slot(r) by {
            assert((metadata + rest)[r] == rest[r - metadata.len()]);
            assert(after.slot(r).components == before.slot(r).components);
        }
    }
}

} // verus!
