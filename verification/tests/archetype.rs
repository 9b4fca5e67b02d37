use archetype_storage::{
    Archetype, ArchetypeDescriptor, ComponentDescriptor, ComponentGroup,
    ComponentGroupDescriptor, ComponentTypeId, DropCall, Entity, EntityMetadata, StorageError,
    DEFAULT_ARCHETYPE_ALLOCATION_SIZE, MAX_ENTITIES_PER_ARCHETYPE,
};

fn a() -> ComponentDescriptor {
    ComponentDescriptor::new(ComponentTypeId::from_u16(1), 1, 1)
}

fn b() -> ComponentDescriptor {
    ComponentDescriptor::new(ComponentTypeId::from_u16(2), 4, 4)
}

fn c() -> ComponentDescriptor {
    ComponentDescriptor::new(ComponentTypeId::from_u16(3), 8, 8)
}

fn d() -> ComponentDescriptor {
    ComponentDescriptor::new(ComponentTypeId::from_u16(4), 2, 2)
}

fn id(component: ComponentDescriptor) -> ComponentTypeId {
    component.component_type_id
}

fn descriptor(components: &[ComponentDescriptor]) -> ArchetypeDescriptor {
    ArchetypeDescriptor::from_unsorted(components).unwrap()
}

fn metadata(handle: u32) -> EntityMetadata {
    EntityMetadata::new(Entity::from_raw(handle))
}

fn abc(a_value: u8, b_value: u32, c_value: u64) -> ComponentGroup {
    ComponentGroup::new(
        ComponentGroupDescriptor::new(&[a(), b(), c()]),
        vec![
            vec![a_value],
            b_value.to_le_bytes().to_vec(),
            c_value.to_le_bytes().to_vec(),
        ],
    )
    .unwrap()
}

fn handles(archetype: &Archetype) -> Vec<u32> {
    archetype
        .entity_metadata()
        .iter()
        .map(|m| m.entity().handle())
        .collect()
}

fn b_values(archetype: &Archetype) -> Vec<u32> {
    (0..archetype.size())
        .map(|row| {
            let bytes = archetype.get_component_unchecked(id(b()), row);
            u32::from_le_bytes([bytes[0], bytes[1], bytes[2], bytes[3]])
        })
        .collect()
}

fn filled(rows: u32) -> Archetype {
    let mut archetype = Archetype::with_capacity(&descriptor(&[a(), b(), c()]), 4).unwrap();
    for row in 0..rows {
        let pushed = archetype
            .push_entity_unchecked(
                metadata(100 + row),
                abc(row as u8, 10 * (row + 1), 1000 + row as u64),
            )
            .unwrap();
        assert_eq!(pushed, row);
    }
    archetype
}

#[test]
fn a_new_archetype_has_no_rows_and_no_room() {
    let mut archetype = Archetype::new(descriptor(&[b(), a()]), 5);
    assert_eq!(archetype.size(), 0);
    assert_eq!(archetype.capacity(), 0);
    assert!(archetype.is_full());
    assert_eq!(archetype.first_shard_index(), 5);
    assert_eq!(archetype.last_shard_index(), 5);
    assert_eq!(archetype.descriptor().len(), 2);
    archetype.set_last_shard_index(9);
    assert_eq!(archetype.first_shard_index(), 5);
    assert_eq!(archetype.last_shard_index(), 9);
    archetype.set_first_shard_index(7);
    assert_eq!(archetype.first_shard_index(), 7);
    assert_eq!(archetype.last_shard_index(), 9);
}

#[test]
fn the_first_push_allocates_the_default_size() {
    let mut archetype = Archetype::new(descriptor(&[a(), b(), c()]), 0);
    let row = archetype
        .push_entity_unchecked(metadata(1), abc(1, 42, 7))
        .unwrap();
    assert_eq!(row, 0);
    assert_eq!(archetype.size(), 1);
    assert_eq!(
        archetype.capacity() as usize,
        DEFAULT_ARCHETYPE_ALLOCATION_SIZE
    );
    assert!(!archetype.is_full());
}

#[test]
fn with_capacity_allocates_and_refuses_the_maximum() {
    let archetype = Archetype::with_capacity(&descriptor(&[a(), b()]), 16).unwrap();
    assert_eq!(archetype.capacity(), 16);
    assert_eq!(archetype.size(), 0);
    assert_eq!(archetype.first_shard_index(), 0);
    assert_eq!(archetype.last_shard_index(), 0);
    let empty = Archetype::with_capacity(&descriptor(&[a(), b()]), 0).unwrap();
    assert_eq!(empty.capacity(), 0);
    let refused =
        Archetype::with_capacity(&descriptor(&[a()]), MAX_ENTITIES_PER_ARCHETYPE as u32);
    assert_eq!(refused.err(), Some(StorageError::CapacityExhausted));
}

#[test]
fn push_then_read_gives_the_pushed_values_back() {
    let mut archetype = Archetype::with_capacity(&descriptor(&[a(), b(), c()]), 4).unwrap();
    let row = archetype
        .push_entity_unchecked(metadata(11), abc(1, 42, 7))
        .unwrap();
    assert_eq!(archetype.size(), 1);
    let group = ComponentGroupDescriptor::new(&[a(), b(), c()]);
    let read = archetype.read_components_exact_unchecked(&group, row);
    assert_eq!(read.component(0), &[1u8][..]);
    assert_eq!(read.component(1), &42u32.to_le_bytes()[..]);
    assert_eq!(read.component(2), &7u64.to_le_bytes()[..]);
    assert_eq!(archetype.size(), 1);
    let (swapped, _) = archetype.swap_drop_unchecked(row);
    assert!(!swapped);
    assert_eq!(archetype.size(), 0);
}

#[test]
fn a_group_in_another_order_is_stored_in_the_same_columns() {
    let mut archetype = Archetype::with_capacity(&descriptor(&[a(), b(), c()]), 4).unwrap();
    let cab = ComponentGroup::new(
        ComponentGroupDescriptor::new(&[c(), a(), b()]),
        vec![
            7u64.to_le_bytes().to_vec(),
            vec![1u8],
            42u32.to_le_bytes().to_vec(),
        ],
    )
    .unwrap();
    let row = archetype.push_entity_unchecked(metadata(1), cab).unwrap();
    assert_eq!(archetype.get_component_unchecked(id(a()), row), &[1u8][..]);
    assert_eq!(
        archetype.get_component_unchecked(id(b()), row),
        &42u32.to_le_bytes()[..]
    );
    assert_eq!(
        archetype.read_component_unchecked(id(c()), row),
        7u64.to_le_bytes().to_vec()
    );
    let pointers = archetype.offset_sorted_pointers_unchecked(row);
    assert_eq!(pointers.len(), 3);
    assert_eq!(pointers[0], &[1u8][..]);
    assert_eq!(pointers[1], &42u32.to_le_bytes()[..]);
    assert_eq!(pointers[2], &7u64.to_le_bytes()[..]);
    let bca = ComponentGroupDescriptor::new(&[b(), c(), a()]);
    let read = archetype.read_components_exact_unchecked(&bca, row);
    assert_eq!(read.component(0), &42u32.to_le_bytes()[..]);
    assert_eq!(read.component(1), &7u64.to_le_bytes()[..]);
    assert_eq!(read.component(2), &[1u8][..]);
}

#[test]
fn a_small_full_archetype_grows_by_the_default() {
    let mut archetype = Archetype::with_capacity(&descriptor(&[a(), b(), c()]), 2).unwrap();
    let mut capacities = Vec::new();
    for row in 0..5u32 {
        archetype
            .push_entity_unchecked(metadata(row), abc(row as u8, row, row as u64))
            .unwrap();
        capacities.push(archetype.capacity());
    }
    let grown = 2 + DEFAULT_ARCHETYPE_ALLOCATION_SIZE as u32;
    assert_eq!(grown, 66);
    assert_eq!(capacities, vec![2, 2, grown, grown, grown]);
    assert_eq!(handles(&archetype), vec![0, 1, 2, 3, 4]);
    assert_eq!(b_values(&archetype), vec![0, 1, 2, 3, 4]);
}

#[test]
fn resized_and_made_archetypes_grow_alike() {
    let mut made = Archetype::with_capacity(&descriptor(&[a(), b(), c()]), 2).unwrap();
    let mut resized = Archetype::new(descriptor(&[a(), b(), c()]), 0);
    assert_eq!(resized.resize_capacity(2), Ok(()));
    for row in 0..3u32 {
        made.push_entity_unchecked(metadata(row), abc(0, row, 0))
            .unwrap();
        resized
            .push_entity_unchecked(metadata(row), abc(0, row, 0))
            .unwrap();
        assert_eq!(made.capacity(), resized.capacity());
    }
    assert_eq!(made.capacity(), 66);
}

#[test]
fn a_large_full_archetype_doubles() {
    let start = DEFAULT_ARCHETYPE_ALLOCATION_SIZE as u32;
    let mut archetype = Archetype::with_capacity(&descriptor(&[a(), b(), c()]), start).unwrap();
    for row in 0..start {
        archetype
            .push_entity_unchecked(metadata(row), abc(0, row, 0))
            .unwrap();
    }
    assert_eq!(archetype.capacity(), 64);
    assert!(archetype.is_full());
    archetype
        .push_entity_unchecked(metadata(start), abc(0, start, 0))
        .unwrap();
    assert_eq!(archetype.capacity(), 128);
    for row in start + 1..2 * start + 1 {
        archetype
            .push_entity_unchecked(metadata(row), abc(0, row, 0))
            .unwrap();
    }
    assert_eq!(archetype.capacity(), 256);
    assert_eq!(archetype.size(), 129);
    assert_eq!(b_values(&archetype), (0..129u32).collect::<Vec<u32>>());
}

#[test]
fn resize_capacity_keeps_the_rows_that_fit() {
    let mut archetype = filled(3);
    assert_eq!(archetype.resize_capacity(6), Ok(()));
    assert_eq!(archetype.capacity(), 10);
    assert_eq!(archetype.size(), 3);
    assert_eq!(b_values(&archetype), vec![10, 20, 30]);
    assert_eq!(handles(&archetype), vec![100, 101, 102]);
    assert_eq!(archetype.resize_capacity(-8), Ok(()));
    assert_eq!(archetype.capacity(), 2);
    assert_eq!(archetype.size(), 2);
    assert_eq!(b_values(&archetype), vec![10, 20]);
    assert_eq!(handles(&archetype), vec![100, 101]);
}

#[test]
fn resize_capacity_to_nothing_deallocates() {
    let mut archetype = filled(3);
    assert_eq!(archetype.resize_capacity(-4), Ok(()));
    assert_eq!(archetype.capacity(), 0);
    assert_eq!(archetype.size(), 0);
    let mut archetype = filled(3);
    assert_eq!(archetype.resize_capacity(-100), Ok(()));
    assert_eq!(archetype.capacity(), 0);
    assert_eq!(archetype.size(), 0);
    assert_eq!(archetype.descriptor().len(), 3);
}

#[test]
fn resize_capacity_refuses_the_maximum_and_changes_nothing() {
    let mut archetype = filled(3);
    let change = MAX_ENTITIES_PER_ARCHETYPE as isize - 4;
    assert_eq!(
        archetype.resize_capacity(change),
        Err(StorageError::CapacityExhausted)
    );
    assert_eq!(archetype.capacity(), 4);
    assert_eq!(archetype.size(), 3);
    assert_eq!(b_values(&archetype), vec![10, 20, 30]);
    assert_eq!(
        archetype.resize_capacity(isize::MAX),
        Err(StorageError::CapacityExhausted)
    );
    assert_eq!(archetype.capacity(), 4);
}

#[test]
fn dealloc_releases_everything_and_the_archetype_can_grow_again() {
    let mut archetype = filled(3);
    archetype.dealloc();
    assert_eq!(archetype.capacity(), 0);
    assert_eq!(archetype.size(), 0);
    let row = archetype
        .push_entity_unchecked(metadata(5), abc(5, 55, 555))
        .unwrap();
    assert_eq!(row, 0);
    assert_eq!(
        archetype.capacity() as usize,
        DEFAULT_ARCHETYPE_ALLOCATION_SIZE
    );
    assert_eq!(b_values(&archetype), vec![55]);
}

#[test]
fn write_entity_overwrites_one_row() {
    let mut archetype = filled(3);
    archetype.write_entity_unchecked(1, metadata(77), abc(9, 99, 999));
    assert_eq!(archetype.size(), 3);
    assert_eq!(b_values(&archetype), vec![10, 99, 30]);
    assert_eq!(handles(&archetype), vec![100, 77, 102]);
    assert_eq!(archetype.get_component_unchecked(id(a()), 1), &[9u8][..]);
    assert_eq!(
        archetype.get_component_unchecked(id(c()), 1),
        &999u64.to_le_bytes()[..]
    );
    assert_eq!(
        archetype.get_component_unchecked(id(c()), 2),
        &1002u64.to_le_bytes()[..]
    );
}

#[test]
fn write_entity_with_a_smaller_group_keeps_the_other_components() {
    let mut archetype = filled(2);
    let only_b = ComponentGroup::new(
        ComponentGroupDescriptor::new(&[b()]),
        vec![5u32.to_le_bytes().to_vec()],
    )
    .unwrap();
    archetype.write_entity_unchecked(0, metadata(1), only_b);
    assert_eq!(b_values(&archetype), vec![5, 20]);
    assert_eq!(archetype.get_component_unchecked(id(a()), 0), &[0u8][..]);
    assert_eq!(
        archetype.get_component_unchecked(id(c()), 0),
        &1000u64.to_le_bytes()[..]
    );
    assert_eq!(handles(&archetype), vec![1, 101]);
}

#[test]
fn swap_entities_exchanges_bytes_and_bookkeeping() {
    let mut archetype = filled(3);
    archetype.swap_entities(0, 2);
    assert_eq!(b_values(&archetype), vec![30, 20, 10]);
    assert_eq!(handles(&archetype), vec![102, 101, 100]);
    assert_eq!(archetype.get_component_unchecked(id(a()), 0), &[2u8][..]);
    assert_eq!(
        archetype.get_component_unchecked(id(c()), 2),
        &1000u64.to_le_bytes()[..]
    );
    archetype.swap_entities(1, 1);
    assert_eq!(b_values(&archetype), vec![30, 20, 10]);
}

#[test]
fn swapping_twice_changes_nothing() {
    let mut archetype = filled(4);
    let group = ComponentGroupDescriptor::new(&[a(), b(), c()]);
    let before: Vec<Vec<u8>> = archetype
        .get_slices_unchecked_exact(&group)
        .iter()
        .map(|s| s.to_vec())
        .collect();
    let handles_before = handles(&archetype);
    archetype.swap_entities(1, 3);
    archetype.swap_entities(1, 3);
    let after: Vec<Vec<u8>> = archetype
        .get_slices_unchecked_exact(&group)
        .iter()
        .map(|s| s.to_vec())
        .collect();
    assert_eq!(before, after);
    assert_eq!(handles(&archetype), handles_before);
}

#[test]
fn drop_entity_names_one_call_per_column() {
    let archetype = filled(3);
    let calls = archetype.drop_entity(1);
    assert_eq!(
        calls,
        vec![
            DropCall {
                component_type_id: id(a()),
                column: 0,
                first_row: 1,
                count: 1
            },
            DropCall {
                component_type_id: id(b()),
                column: 1,
                first_row: 1,
                count: 1
            },
            DropCall {
                component_type_id: id(c()),
                column: 2,
                first_row: 1,
                count: 1
            },
        ]
    );
    assert_eq!(archetype.size(), 3);
}

#[test]
fn drop_entities_drops_every_row() {
    let mut archetype = filled(3);
    let calls = archetype.drop_entities();
    assert_eq!(calls.len(), 3);
    for (column, call) in calls.iter().enumerate() {
        assert_eq!(call.column, column);
        assert_eq!(call.first_row, 0);
        assert_eq!(call.count, 3);
    }
    assert_eq!(archetype.size(), 0);
    assert_eq!(archetype.capacity(), 4);
}

#[test]
fn swap_drop_in_the_middle_moves_the_last_row() {
    let mut archetype = filled(3);
    let (swapped, calls) = archetype.swap_drop_unchecked(0);
    assert!(swapped);
    assert_eq!(archetype.size(), 2);
    assert_eq!(b_values(&archetype), vec![30, 20]);
    assert_eq!(handles(&archetype), vec![102, 101]);
    assert_eq!(calls.len(), 3);
    assert_eq!(calls[1].first_row, 2);
    assert_eq!(calls[1].count, 1);
    assert_eq!(
        archetype.get_component_unchecked(id(b()), 2),
        &10u32.to_le_bytes()[..]
    );
}

#[test]
fn swap_drop_of_the_last_row_moves_nothing() {
    let mut archetype = filled(3);
    let (swapped, calls) = archetype.swap_drop_unchecked(2);
    assert!(!swapped);
    assert_eq!(archetype.size(), 2);
    assert_eq!(b_values(&archetype), vec![10, 20]);
    assert_eq!(handles(&archetype), vec![100, 101]);
    assert_eq!(calls[0].first_row, 2);
}

#[test]
fn swap_remove_hands_the_row_out() {
    let mut archetype = filled(3);
    let group = ComponentGroupDescriptor::new(&[c(), b(), a()]);
    let (data, swapped) = archetype.swap_remove_unchecked(&group, 0);
    assert!(swapped);
    assert_eq!(data.component(0), &1000u64.to_le_bytes()[..]);
    assert_eq!(data.component(1), &10u32.to_le_bytes()[..]);
    assert_eq!(data.component(2), &[0u8][..]);
    assert_eq!(archetype.size(), 2);
    assert_eq!(b_values(&archetype), vec![30, 20]);
    let (data, swapped) = archetype.swap_remove_unchecked(&group, 1);
    assert!(!swapped);
    assert_eq!(data.component(1), &20u32.to_le_bytes()[..]);
    assert_eq!(b_values(&archetype), vec![30]);
    assert_eq!(handles(&archetype), vec![102]);
}

#[test]
fn get_component_mut_writes_one_component() {
    let mut archetype = filled(3);
    {
        let value = archetype.get_component_unchecked_mut(id(b()), 1);
        assert_eq!(value, &20u32.to_le_bytes()[..]);
        value.copy_from_slice(&21u32.to_le_bytes());
    }
    assert_eq!(b_values(&archetype), vec![10, 21, 30]);
    assert_eq!(archetype.get_component_unchecked(id(a()), 1), &[1u8][..]);
    assert_eq!(
        archetype.get_component_unchecked(id(c()), 1),
        &1001u64.to_le_bytes()[..]
    );
}

#[test]
fn entity_metadata_covers_the_rows_in_use() {
    let mut archetype = filled(3);
    assert_eq!(archetype.entity_metadata().len(), 3);
    assert_eq!(archetype.entity_metadata()[1], metadata(101));
    archetype.entity_metadata_mut()[1] = metadata(5);
    assert_eq!(handles(&archetype), vec![100, 5, 102]);
    assert_eq!(archetype.entity_metadata_mut().len(), 3);
    assert_eq!(EntityMetadata::default().entity().handle(), 0);
}

#[test]
fn exact_slices_come_in_the_order_of_the_group() {
    let archetype = filled(3);
    let cab = ComponentGroupDescriptor::new(&[c(), a(), b()]);
    let slices = archetype.get_slices_unchecked_exact(&cab);
    assert_eq!(slices.len(), 3);
    assert_eq!(slices[0].len(), 3 * 8);
    assert_eq!(slices[1], &[0u8, 1, 2][..]);
    assert_eq!(slices[2].len(), 3 * 4);
    assert_eq!(&slices[2][4..8], &20u32.to_le_bytes()[..]);
    assert_eq!(&slices[0][16..24], &1002u64.to_le_bytes()[..]);
}

#[test]
fn fuzzy_slices_are_the_columns_of_the_named_components() {
    let mut archetype =
        Archetype::with_capacity(&descriptor(&[a(), b(), c(), d()]), 4).unwrap();
    let abcd = ComponentGroupDescriptor::new(&[a(), b(), c(), d()]);
    for row in 0..4u8 {
        let entity = ComponentGroup::new(
            abcd.clone(),
            vec![
                vec![row],
                (100 + row as u32).to_le_bytes().to_vec(),
                (1000 + row as u64).to_le_bytes().to_vec(),
                (50 + row as u16).to_le_bytes().to_vec(),
            ],
        )
        .unwrap();
        archetype
            .push_entity_unchecked(metadata(row as u32), entity)
            .unwrap();
    }
    let ca = ComponentGroupDescriptor::new(&[c(), a()]);
    let slices = archetype.get_fuzzy_slices_unchecked(&ca);
    assert_eq!(slices.len(), 2);
    assert_eq!(slices[0].len(), 4 * 8);
    assert_eq!(slices[1].len(), 4);
    assert_eq!(
        slices[0].as_ptr(),
        archetype.get_component_unchecked(id(c()), 0).as_ptr()
    );
    assert_eq!(
        slices[1].as_ptr(),
        archetype.get_component_unchecked(id(a()), 0).as_ptr()
    );
    let pointers = archetype.get_fuzzy_pointers_unchecked(&ca);
    assert_eq!(pointers.len(), 2);
    assert_eq!(pointers[0].as_ptr(), slices[1].as_ptr());
    assert_eq!(pointers[1].as_ptr(), slices[0].as_ptr());
    assert_eq!(pointers[0].len(), 4);
    assert_eq!(pointers[1].len(), 4 * 8);
    let bd = ComponentGroupDescriptor::new(&[d(), b()]);
    let slices = archetype.get_fuzzy_slices_unchecked(&bd);
    assert_eq!(&slices[0][2..4], &51u16.to_le_bytes()[..]);
    assert_eq!(&slices[1][12..16], &103u32.to_le_bytes()[..]);
}

#[test]
fn copy_common_components_copies_what_both_store() {
    let source = filled(3);
    let mut destination =
        Archetype::with_capacity(&descriptor(&[b(), c(), d()]), 4).unwrap();
    let bcd = ComponentGroup::new(
        ComponentGroupDescriptor::new(&[b(), c(), d()]),
        vec![
            1u32.to_le_bytes().to_vec(),
            2u64.to_le_bytes().to_vec(),
            3u16.to_le_bytes().to_vec(),
        ],
    )
    .unwrap();
    destination
        .push_entity_unchecked(metadata(9), bcd)
        .unwrap();
    Archetype::copy_common_components_between_archetypes_unchecked(
        &source,
        2,
        &mut destination,
        0,
    );
    assert_eq!(
        destination.get_component_unchecked(id(b()), 0),
        &30u32.to_le_bytes()[..]
    );
    assert_eq!(
        destination.get_component_unchecked(id(c()), 0),
        &1002u64.to_le_bytes()[..]
    );
    assert_eq!(
        destination.get_component_unchecked(id(d()), 0),
        &3u16.to_le_bytes()[..]
    );
    assert_eq!(destination.size(), 1);
    assert_eq!(handles(&destination), vec![9]);
    assert_eq!(b_values(&source), vec![10, 20, 30]);
}

#[test]
fn exact_mutable_slices_write_through_to_the_columns() {
    let mut archetype = filled(3);
    let cab = ComponentGroupDescriptor::new(&[c(), a(), b()]);
    {
        let mut slices = archetype.get_slices_unchecked_exact_mut(&cab);
        assert_eq!(slices.len(), 3);
        assert_eq!(slices[0].len(), 3 * 8);
        assert_eq!(slices[1].len(), 3);
        assert_eq!(slices[2].len(), 3 * 4);
        assert_eq!(&slices[2][4..8], &20u32.to_le_bytes()[..]);
        slices[2][4..8].copy_from_slice(&21u32.to_le_bytes());
        slices[1][2] = 9;
        slices[0][0..8].copy_from_slice(&5u64.to_le_bytes());
    }
    assert_eq!(b_values(&archetype), vec![10, 21, 30]);
    assert_eq!(archetype.get_component_unchecked(id(a()), 2), &[9u8][..]);
    assert_eq!(archetype.get_component_unchecked(id(a()), 1), &[1u8][..]);
    assert_eq!(
        archetype.get_component_unchecked(id(c()), 0),
        &5u64.to_le_bytes()[..]
    );
    assert_eq!(handles(&archetype), vec![100, 101, 102]);
    assert_eq!(archetype.size(), 3);
    assert_eq!(archetype.capacity(), 4);
}

#[test]
fn fuzzy_mutable_slices_leave_the_other_columns_alone() {
    let mut archetype = filled(3);
    let ba = ComponentGroupDescriptor::new(&[b(), a()]);
    let column_a = archetype.get_component_unchecked(id(a()), 0).as_ptr();
    let column_b = archetype.get_component_unchecked(id(b()), 0).as_ptr();
    {
        let mut slices = archetype.get_fuzzy_slices_unchecked_mut(&ba);
        assert_eq!(slices.len(), 2);
        assert_eq!(slices[0].as_ptr(), column_b);
        assert_eq!(slices[1].as_ptr(), column_a);
        assert_eq!(slices[0].len(), 3 * 4);
        assert_eq!(slices[1].len(), 3);
        slices[0][0..4].copy_from_slice(&11u32.to_le_bytes());
        slices[1][1] = 8;
    }
    assert_eq!(b_values(&archetype), vec![11, 20, 30]);
    assert_eq!(archetype.get_component_unchecked(id(a()), 1), &[8u8][..]);
    for row in 0..3u32 {
        assert_eq!(
            archetype.get_component_unchecked(id(c()), row),
            &(1000 + row as u64).to_le_bytes()[..]
        );
    }
    let only_c = ComponentGroupDescriptor::new(&[c()]);
    {
        let mut slices = archetype.get_fuzzy_slices_unchecked_mut(&only_c);
        assert_eq!(slices.len(), 1);
        slices[0][16..24].copy_from_slice(&3u64.to_le_bytes());
    }
    assert_eq!(
        archetype.get_component_unchecked(id(c()), 2),
        &3u64.to_le_bytes()[..]
    );
    assert_eq!(b_values(&archetype), vec![11, 20, 30]);
}
