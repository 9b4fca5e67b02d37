use archetype_storage::{
    ArchetypeDescriptor, ArchetypeId, ComponentDescriptor, ComponentTypeId,
    MAX_COMPONENTS_PER_ENTITY,
};

fn component(id: u16, size: u16, align: u16) -> ComponentDescriptor {
    ComponentDescriptor::new(ComponentTypeId::from_u16(id), size, align)
}

fn ids(descriptor: &ArchetypeDescriptor) -> Vec<u16> {
    descriptor
        .components()
        .iter()
        .map(|c| c.component_type_id.into_u16())
        .collect()
}

#[test]
fn from_unsorted_sorts_by_id() {
    let list = [component(3, 8, 8), component(1, 1, 1), component(2, 4, 4)];
    let descriptor = ArchetypeDescriptor::from_unsorted(&list).unwrap();
    assert_eq!(ids(&descriptor), vec![1, 2, 3]);
    assert!(descriptor.is_valid());
    assert_eq!(descriptor.len(), 3);
    assert_eq!(descriptor.component(0), component(1, 1, 1));
    assert_eq!(descriptor.component(1), component(2, 4, 4));
    assert_eq!(descriptor.component(2), component(3, 8, 8));
}

#[test]
fn archetype_id_is_the_hash_of_the_sorted_ids() {
    let list = [component(3, 8, 8), component(1, 1, 1), component(2, 4, 4)];
    let descriptor = ArchetypeDescriptor::from_unsorted(&list).unwrap();
    assert_eq!(descriptor.archetype_id().into_u64(), 4269565106663473405);
    let single = ArchetypeDescriptor::from_unsorted(&[component(1, 1, 1)]).unwrap();
    assert_eq!(single.archetype_id().into_u64(), 589727492704079044);
    assert_eq!(
        single.archetype_id(),
        ArchetypeId::from_u64(589727492704079044)
    );
}

#[test]
fn every_permutation_has_the_same_canonical_form() {
    let a = component(10, 1, 1);
    let b = component(20, 4, 4);
    let c = component(30, 8, 8);
    let permutations = [
        [a, b, c],
        [a, c, b],
        [b, a, c],
        [b, c, a],
        [c, a, b],
        [c, b, a],
    ];
    let reference = ArchetypeDescriptor::from_unsorted(&permutations[0]).unwrap();
    for list in permutations.iter() {
        let descriptor = ArchetypeDescriptor::from_unsorted(list).unwrap();
        assert_eq!(descriptor.archetype_id(), reference.archetype_id());
        assert_eq!(ids(&descriptor), vec![10, 20, 30]);
        assert!(descriptor.equals(&reference));
    }
}

#[test]
fn from_unsorted_rejects_an_empty_list() {
    assert!(ArchetypeDescriptor::from_unsorted(&[]).is_none());
}

#[test]
fn from_unsorted_rejects_duplicate_ids() {
    let list = [component(1, 1, 1), component(2, 4, 4), component(1, 8, 8)];
    assert!(ArchetypeDescriptor::from_unsorted(&list).is_none());
}

#[test]
fn from_unsorted_rejects_more_than_the_maximum() {
    let exact: Vec<ComponentDescriptor> = (0..MAX_COMPONENTS_PER_ENTITY as u16)
        .map(|i| component(100 - i, 1, 1))
        .collect();
    let descriptor = ArchetypeDescriptor::from_unsorted(&exact).unwrap();
    assert_eq!(descriptor.len() as usize, MAX_COMPONENTS_PER_ENTITY);
    let too_many: Vec<ComponentDescriptor> = (0..MAX_COMPONENTS_PER_ENTITY as u16 + 1)
        .map(|i| component(100 - i, 1, 1))
        .collect();
    assert!(ArchetypeDescriptor::from_unsorted(&too_many).is_none());
}

#[test]
fn the_invalid_descriptor_is_empty() {
    let descriptor = ArchetypeDescriptor::invalid();
    assert!(!descriptor.is_valid());
    assert_eq!(descriptor.len(), 0);
    assert_eq!(descriptor.archetype_id().into_u64(), 0xcbf29ce484222325);
}

#[test]
fn add_component_inserts_in_sorted_position() {
    let base = ArchetypeDescriptor::from_unsorted(&[component(1, 1, 1), component(3, 8, 8)])
        .unwrap();
    let middle = base.add_component(&component(2, 4, 4)).unwrap();
    assert_eq!(ids(&middle), vec![1, 2, 3]);
    assert_eq!(middle.archetype_id().into_u64(), 4269565106663473405);
    let front = base.add_component(&component(0, 2, 2)).unwrap();
    assert_eq!(ids(&front), vec![0, 1, 3]);
    let back = base.add_component(&component(9, 2, 2)).unwrap();
    assert_eq!(ids(&back), vec![1, 3, 9]);
    assert_eq!(ids(&base), vec![1, 3]);
}

#[test]
fn add_component_fails_when_present_or_full() {
    let base = ArchetypeDescriptor::from_unsorted(&[component(1, 1, 1), component(3, 8, 8)])
        .unwrap();
    assert!(base.add_component(&component(3, 8, 8)).is_none());
    let full: Vec<ComponentDescriptor> = (0..MAX_COMPONENTS_PER_ENTITY as u16)
        .map(|i| component(i, 1, 1))
        .collect();
    let full = ArchetypeDescriptor::from_unsorted(&full).unwrap();
    assert!(full.add_component(&component(500, 1, 1)).is_none());
}

#[test]
fn remove_component_takes_the_id_out() {
    let base = ArchetypeDescriptor::from_unsorted(&[
        component(1, 1, 1),
        component(2, 4, 4),
        component(3, 8, 8),
    ])
    .unwrap();
    let without = base.remove_component(ComponentTypeId::from_u16(2)).unwrap();
    assert_eq!(ids(&without), vec![1, 3]);
    assert_eq!(
        without.archetype_id(),
        ArchetypeDescriptor::from_unsorted(&[component(3, 8, 8), component(1, 1, 1)])
            .unwrap()
            .archetype_id()
    );
}

#[test]
fn remove_component_fails_when_absent_or_last() {
    let base = ArchetypeDescriptor::from_unsorted(&[component(1, 1, 1), component(2, 4, 4)])
        .unwrap();
    assert!(base.remove_component(ComponentTypeId::from_u16(7)).is_none());
    let single = ArchetypeDescriptor::from_unsorted(&[component(1, 1, 1)]).unwrap();
    assert!(single.remove_component(ComponentTypeId::from_u16(1)).is_none());
}

#[test]
fn contains_and_index_of() {
    let descriptor = ArchetypeDescriptor::from_unsorted(&[
        component(30, 8, 8),
        component(10, 1, 1),
        component(20, 4, 4),
    ])
    .unwrap();
    assert!(descriptor.contains(ComponentTypeId::from_u16(10)));
    assert!(descriptor.contains(ComponentTypeId::from_u16(30)));
    assert!(!descriptor.contains(ComponentTypeId::from_u16(15)));
    assert_eq!(descriptor.index_of(ComponentTypeId::from_u16(10)), Some(0));
    assert_eq!(descriptor.index_of(ComponentTypeId::from_u16(20)), Some(1));
    assert_eq!(descriptor.index_of(ComponentTypeId::from_u16(30)), Some(2));
    assert_eq!(descriptor.index_of(ComponentTypeId::from_u16(31)), None);
    assert_eq!(descriptor.index_of(ComponentTypeId::from_u16(0)), None);
}

#[test]
fn is_superset_of_compares_id_sets() {
    let abc = ArchetypeDescriptor::from_unsorted(&[
        component(1, 1, 1),
        component(2, 4, 4),
        component(3, 8, 8),
    ])
    .unwrap();
    let ac = ArchetypeDescriptor::from_unsorted(&[component(3, 8, 8), component(1, 1, 1)])
        .unwrap();
    let ad = ArchetypeDescriptor::from_unsorted(&[component(1, 1, 1), component(4, 2, 2)])
        .unwrap();
    assert!(abc.is_superset_of(&abc));
    assert!(abc.is_superset_of(&ac));
    assert!(!ac.is_superset_of(&abc));
    assert!(!abc.is_superset_of(&ad));
    assert!(abc.is_superset_of(&ArchetypeDescriptor::invalid()));
}

#[test]
fn equals_compares_every_component() {
    let one = ArchetypeDescriptor::from_unsorted(&[component(1, 1, 1), component(2, 4, 4)])
        .unwrap();
    let same = ArchetypeDescriptor::from_unsorted(&[component(2, 4, 4), component(1, 1, 1)])
        .unwrap();
    let other_size =
        ArchetypeDescriptor::from_unsorted(&[component(1, 1, 1), component(2, 8, 4)]).unwrap();
    let shorter = ArchetypeDescriptor::from_unsorted(&[component(1, 1, 1)]).unwrap();
    assert!(one.equals(&same));
    assert!(one == same);
    assert!(one != other_size);
    assert!(one.equals(&one.clone()));
    assert!(!one.equals(&other_size));
    assert!(!one.equals(&shorter));
}

#[test]
fn component_ids_are_folded_hashes_of_the_name() {
    assert_eq!(ComponentTypeId::from_name("").into_u16(), 61457);
    assert_eq!(ComponentTypeId::from_name("a").into_u16(), 6562);
    assert_eq!(ComponentTypeId::from_name("game::Position").into_u16(), 4518);
    assert_eq!(ComponentTypeId::from_name("game::Velocity").into_u16(), 5091);
}
