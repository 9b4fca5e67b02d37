use archetype_storage::{
    Archetype, ArchetypeRegistry, ComponentDescriptor, ComponentGroup, ComponentGroupDescriptor,
    ComponentTypeId, Entity, EntityMetadata, DEFAULT_ARCHETYPE_ALLOCATION_SIZE,
};

fn a() -> ComponentDescriptor {
    ComponentDescriptor::new(ComponentTypeId::from_u16(1), 1, 1)
}

fn b() -> ComponentDescriptor {
    ComponentDescriptor::new(ComponentTypeId::from_u16(2), 4, 4)
}

fn c() -> ComponentDescriptor {
    ComponentDescriptor::new(ComponentTypeId::from_u16(3), 8, 8)
}

fn d() -> ComponentDescriptor {
    ComponentDescriptor::new(ComponentTypeId::from_u16(4), 2, 2)
}

fn value_a(value: u8) -> Vec<u8> {
    vec![value]
}

fn value_b(value: u32) -> Vec<u8> {
    value.to_le_bytes().to_vec()
}

fn value_c(value: u64) -> Vec<u8> {
    value.to_le_bytes().to_vec()
}

fn value_d(value: u16) -> Vec<u8> {
    value.to_le_bytes().to_vec()
}

fn group(components: &[ComponentDescriptor], values: Vec<Vec<u8>>) -> ComponentGroup {
    ComponentGroup::new(ComponentGroupDescriptor::new(components), values).unwrap()
}

fn metadata(handle: u32) -> EntityMetadata {
    EntityMetadata::new(Entity::from_raw(handle))
}

/// Where each entity lives: handle, archetype and row.
struct Locations {
    entries: Vec<(u32, u16, u32)>,
}

impl Locations {
    fn locate(&self, handle: u32) -> Option<(u16, u32)> {
        self.entries
            .iter()
            .find(|e| e.0 == handle)
            .map(|e| (e.1, e.2))
    }

    fn relocate(&mut self, handle: u32, archetype: u16, row: u32) {
        self.entries.retain(|e| e.0 != handle);
        self.entries.push((handle, archetype, row));
    }

    fn free(&mut self, handle: u32) {
        self.entries.retain(|e| e.0 != handle);
    }
}

fn spawn(
    registry: &mut ArchetypeRegistry,
    locations: &mut Locations,
    handle: u32,
    entity: ComponentGroup,
) -> (u16, u32) {
    let descriptor = entity.descriptor().archetype().clone();
    let (index, archetype) = registry.find_or_create_archetype(&descriptor).unwrap();
    let row = archetype
        .push_entity_unchecked(metadata(handle), entity)
        .unwrap();
    locations.relocate(handle, index, row);
    (index, row)
}

fn despawn(registry: &mut ArchetypeRegistry, locations: &mut Locations, handle: u32) -> bool {
    let (index, row) = locations.locate(handle).unwrap();
    let archetype = registry.get_unchecked_mut(index);
    let (swapped, _) = archetype.swap_drop_unchecked(row);
    locations.free(handle);
    if swapped {
        let moved = archetype.entity_metadata()[row as usize].entity().handle();
        locations.relocate(moved, index, row);
    }
    swapped
}

/// The rows of every archetype that stores the group's components, each
/// row as the values of the group's components in the group's order.
fn query(registry: &ArchetypeRegistry, components: &[ComponentDescriptor]) -> Vec<Vec<Vec<u8>>> {
    let group = ComponentGroupDescriptor::new(components);
    let mut rows = Vec::new();
    for index in registry.iter_components_matching(&group) {
        let archetype: &Archetype = &registry[index];
        let slices = archetype.get_fuzzy_slices_unchecked(&group);
        for row in 0..archetype.size() as usize {
            let mut values = Vec::new();
            for (position, slice) in slices.iter().enumerate() {
                let size = components[position].size as usize;
                values.push(slice[row * size..(row + 1) * size].to_vec());
            }
            rows.push(values);
        }
    }
    rows
}

#[test]
fn spawn_and_read() {
    let mut registry = ArchetypeRegistry::default();
    let mut locations = Locations { entries: Vec::new() };
    let (index, row) = spawn(
        &mut registry,
        &mut locations,
        1,
        group(&[a(), b(), c()], vec![value_a(1), value_b(42), value_c(7)]),
    );
    assert_eq!(row, 0);
    let rows = query(&registry, &[a(), b(), c()]);
    assert_eq!(rows, vec![vec![value_a(1), value_b(42), value_c(7)]]);
    assert_eq!(registry[index].size(), 1);
}

#[test]
fn spawn_permuted() {
    let mut first = ArchetypeRegistry::default();
    let mut first_locations = Locations { entries: Vec::new() };
    let (first_index, _) = spawn(
        &mut first,
        &mut first_locations,
        1,
        group(&[a(), b(), c()], vec![value_a(1), value_b(42), value_c(7)]),
    );

    let mut registry = ArchetypeRegistry::default();
    let mut locations = Locations { entries: Vec::new() };
    let (index, _) = spawn(
        &mut registry,
        &mut locations,
        1,
        group(&[b(), c(), a()], vec![value_b(42), value_c(7), value_a(1)]),
    );
    assert_eq!(
        registry[index].descriptor().archetype_id(),
        first[first_index].descriptor().archetype_id()
    );
    let rows = query(&registry, &[c(), a(), b()]);
    assert_eq!(rows, vec![vec![value_c(7), value_a(1), value_b(42)]]);
}

#[test]
fn swap_remove_middle() {
    let mut registry = ArchetypeRegistry::default();
    let mut locations = Locations { entries: Vec::new() };
    let (h1, h2, h3) = (11, 12, 13);
    for (handle, value) in [(h1, 10u32), (h2, 20), (h3, 30)] {
        spawn(
            &mut registry,
            &mut locations,
            handle,
            group(&[a(), b()], vec![value_a(1), value_b(value)]),
        );
    }
    let (index, row) = locations.locate(h2).unwrap();
    assert_eq!(row, 1);
    let swapped = despawn(&mut registry, &mut locations, h2);
    assert!(swapped);
    assert_eq!(locations.locate(h3), Some((index, 1)));
    assert_eq!(locations.locate(h1), Some((index, 0)));
    assert_eq!(locations.locate(h2), None);
    assert_eq!(registry[index].size(), 2);
    assert_eq!(
        query(&registry, &[b()]),
        vec![vec![value_b(10)], vec![value_b(30)]]
    );
}

#[test]
fn add_component_transition() {
    let mut registry = ArchetypeRegistry::default();
    let mut locations = Locations { entries: Vec::new() };
    let h1 = 21;
    let (source_index, source_row) = spawn(
        &mut registry,
        &mut locations,
        h1,
        group(&[a(), b()], vec![value_a(1), value_b(42)]),
    );

    let destination_index;
    {
        let (source, index, destination) = registry
            .find_or_create_archetype_adding_component(source_index, &c())
            .unwrap();
        destination_index = index;
        let moved = source.entity_metadata()[source_row as usize];
        let destination_row = destination
            .push_entity_unchecked(
                moved,
                group(&[a(), b(), c()], vec![value_a(0), value_b(0), value_c(0)]),
            )
            .unwrap();
        Archetype::copy_common_components_between_archetypes_unchecked(
            source,
            source_row,
            destination,
            destination_row,
        );
        destination.write_entity_unchecked(destination_row, moved, group(&[c()], vec![value_c(7)]));
        let (swapped, _) = source.swap_drop_unchecked(source_row);
        assert!(!swapped);
        locations.relocate(h1, index, destination_row);
    }

    assert_ne!(destination_index, source_index);
    assert_eq!(registry[destination_index].size(), 1);
    assert_eq!(registry[source_index].size(), 0);
    assert_eq!(locations.locate(h1), Some((destination_index, 0)));
    assert_eq!(
        query(&registry, &[a(), b(), c()]),
        vec![vec![value_a(1), value_b(42), value_c(7)]]
    );
    assert_eq!(
        registry[destination_index].entity_metadata()[0]
            .entity()
            .handle(),
        h1
    );
    assert!(query(&registry, &[a(), b()]).len() == 1);
}

#[test]
fn grow() {
    let descriptor = ComponentGroupDescriptor::new(&[a(), b(), c()]);
    let default = DEFAULT_ARCHETYPE_ALLOCATION_SIZE as u32;
    let mut archetype = Archetype::with_capacity(descriptor.archetype(), default).unwrap();
    let mut capacities = vec![archetype.capacity()];
    let rows = 2 * default + 1;
    for row in 0..rows {
        archetype
            .push_entity_unchecked(
                metadata(row),
                group(
                    &[a(), b(), c()],
                    vec![value_a(row as u8), value_b(row * 3), value_c(row as u64 * 5)],
                ),
            )
            .unwrap();
        if *capacities.last().unwrap() != archetype.capacity() {
            capacities.push(archetype.capacity());
        }
    }
    assert_eq!(capacities, vec![default, 2 * default, 4 * default]);
    assert_eq!(capacities, vec![64, 128, 256]);
    assert_eq!(archetype.size(), rows);
    for row in 0..rows {
        let read = archetype.read_components_exact_unchecked(&descriptor, row);
        assert_eq!(read.component(0), &value_a(row as u8)[..]);
        assert_eq!(read.component(1), &value_b(row * 3)[..]);
        assert_eq!(read.component(2), &value_c(row as u64 * 5)[..]);
        assert_eq!(archetype.entity_metadata()[row as usize], metadata(row));
    }
}

#[test]
fn fuzzy_query() {
    let mut registry = ArchetypeRegistry::default();
    let mut locations = Locations { entries: Vec::new() };
    for row in 0..4u32 {
        spawn(
            &mut registry,
            &mut locations,
            row,
            group(
                &[a(), b(), c(), d()],
                vec![
                    value_a(row as u8 + 1),
                    value_b(0xb0b0_b0b0),
                    value_c(100 + row as u64),
                    value_d(0xd0d0),
                ],
            ),
        );
    }
    let rows = query(&registry, &[c(), a()]);
    assert_eq!(
        rows,
        vec![
            vec![value_c(100), value_a(1)],
            vec![value_c(101), value_a(2)],
            vec![value_c(102), value_a(3)],
            vec![value_c(103), value_a(4)],
        ]
    );
}
