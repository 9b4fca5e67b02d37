use archetype_storage::{
    ComponentDescriptor, ComponentGroup, ComponentGroupDescriptor, ComponentTypeId,
};

fn a() -> ComponentDescriptor {
    ComponentDescriptor::new(ComponentTypeId::from_u16(1), 1, 1)
}

fn b() -> ComponentDescriptor {
    ComponentDescriptor::new(ComponentTypeId::from_u16(2), 4, 4)
}

fn c() -> ComponentDescriptor {
    ComponentDescriptor::new(ComponentTypeId::from_u16(3), 8, 8)
}

fn default_value(component: &ComponentDescriptor) -> Vec<u8> {
    vec![0u8; component.size as usize]
}

fn default_group(components: &[ComponentDescriptor]) -> ComponentGroup {
    let values = components.iter().map(default_value).collect();
    ComponentGroup::new(ComponentGroupDescriptor::new(components), values).unwrap()
}

#[test]
fn test_component_group_as_sorted_pointers() {
    let group = default_group(&[a(), b(), c()]);
    let ptrs = group.as_sorted_pointers();
    assert_eq!(ptrs[0].as_ptr(), group.component(0).as_ptr());
    assert_eq!(ptrs[1].as_ptr(), group.component(1).as_ptr());
    assert_eq!(ptrs[2].as_ptr(), group.component(2).as_ptr());

    let group = default_group(&[b(), c(), a()]);
    let ptrs = group.as_sorted_pointers();
    assert_eq!(ptrs[0].as_ptr(), group.component(2).as_ptr());
    assert_eq!(ptrs[1].as_ptr(), group.component(0).as_ptr());
    assert_eq!(ptrs[2].as_ptr(), group.component(1).as_ptr());
}

#[test]
fn test_component_group_sorted_pointers_as_ref_tuples() {
    let mut group = (
        default_value(&a()),
        default_value(&b()),
        default_value(&c()),
    );
    let ptrs = [group.0.as_ptr(), group.1.as_ptr(), group.2.as_ptr()];

    let abc = ComponentGroupDescriptor::new(&[a(), b(), c()]);
    {
        let sorted: Vec<&[u8]> = vec![&group.0[..], &group.1[..], &group.2[..]];
        let result = abc.pointers_as_ref_tuple(&sorted);
        assert_eq!(result[0].as_ptr(), ptrs[0]);
        assert_eq!(result[1].as_ptr(), ptrs[1]);
        assert_eq!(result[2].as_ptr(), ptrs[2]);
    }
    {
        let sorted: Vec<&mut [u8]> =
            vec![&mut group.0[..], &mut group.1[..], &mut group.2[..]];
        let result = abc.pointers_as_mut_ref_tuple(sorted);
        assert_eq!(result[0].as_ptr(), ptrs[0]);
        assert_eq!(result[1].as_ptr(), ptrs[1]);
        assert_eq!(result[2].as_ptr(), ptrs[2]);
    }
    {
        let sorted: Vec<&[u8]> = vec![&group.0[..], &group.1[..], &group.2[..]];
        let bca = ComponentGroupDescriptor::new(&[b(), c(), a()]);
        let result = bca.pointers_as_ref_tuple(&sorted);
        assert_eq!(result[0].as_ptr(), ptrs[1]);
        assert_eq!(result[1].as_ptr(), ptrs[2]);
        assert_eq!(result[2].as_ptr(), ptrs[0]);
    }
    {
        let sorted: Vec<&mut [u8]> =
            vec![&mut group.0[..], &mut group.1[..], &mut group.2[..]];
        let cab = ComponentGroupDescriptor::new(&[c(), a(), b()]);
        let result = cab.pointers_as_mut_ref_tuple(sorted);
        assert_eq!(result[0].as_ptr(), ptrs[2]);
        assert_eq!(result[1].as_ptr(), ptrs[0]);
        assert_eq!(result[2].as_ptr(), ptrs[1]);
    }
}

#[test]
fn test_component_group_slices() {
    let slice_a = [0u8; 16];
    let slice_b = [0u8; 16 * 4];
    let slice_c = [0u8; 16 * 8];

    let pointers: Vec<&[u8]> = vec![&slice_a[..], &slice_b[..], &slice_c[..]];

    let abc = ComponentGroupDescriptor::new(&[a(), b(), c()]);
    let slices = abc.slice_unchecked(&pointers, slice_a.len());
    assert_eq!(slices[0].as_ptr(), pointers[0].as_ptr());
    assert_eq!(slices[1].as_ptr(), pointers[1].as_ptr());
    assert_eq!(slices[2].as_ptr(), pointers[2].as_ptr());

    let bca = ComponentGroupDescriptor::new(&[b(), c(), a()]);
    let slices = bca.slice_unchecked(&pointers, slice_a.len());
    assert_eq!(slices[0].as_ptr(), pointers[1].as_ptr());
    assert_eq!(slices[1].as_ptr(), pointers[2].as_ptr());
    assert_eq!(slices[2].as_ptr(), pointers[0].as_ptr());
}

#[test]
fn slice_unchecked_cuts_to_the_row_count() {
    let column_a = [7u8; 16];
    let column_b = [9u8; 16 * 4];
    let pointers: Vec<&[u8]> = vec![&column_a[..], &column_b[..]];
    let ba = ComponentGroupDescriptor::new(&[b(), a()]);
    let slices = ba.slice_unchecked(&pointers, 5);
    assert_eq!(slices[0], &[9u8; 20][..]);
    assert_eq!(slices[1], &[7u8; 5][..]);
}

#[test]
fn the_descriptor_keeps_the_declaration_order_and_the_permutation() {
    let group = ComponentGroupDescriptor::new(&[b(), c(), a()]);
    assert!(group.is_valid());
    assert_eq!(group.len(), 3);
    assert_eq!(group.unsorted_to_sorted(0), 1);
    assert_eq!(group.unsorted_to_sorted(1), 2);
    assert_eq!(group.unsorted_to_sorted(2), 0);
    assert_eq!(group.sorted_to_unsorted(0), 2);
    assert_eq!(group.sorted_to_unsorted(1), 0);
    assert_eq!(group.sorted_to_unsorted(2), 1);
    let sorted: Vec<u16> = group
        .archetype()
        .components()
        .iter()
        .map(|c| c.component_type_id.into_u16())
        .collect();
    assert_eq!(sorted, vec![1, 2, 3]);
    let copy = group.clone();
    assert_eq!(copy.unsorted_to_sorted(0), 1);
    assert!(copy.archetype().equals(group.archetype()));
}

#[test]
fn a_list_with_a_duplicate_gives_the_invalid_descriptor() {
    let group = ComponentGroupDescriptor::new(&[a(), b(), a()]);
    assert!(!group.is_valid());
    assert_eq!(group.len(), 0);
    let empty = ComponentGroupDescriptor::new(&[]);
    assert!(!empty.is_valid());
}

#[test]
fn a_group_needs_one_value_of_the_right_size_per_component() {
    let descriptor = ComponentGroupDescriptor::new(&[b(), a()]);
    assert!(ComponentGroup::new(descriptor.clone(), vec![vec![0; 4], vec![0; 1]]).is_some());
    assert!(ComponentGroup::new(descriptor.clone(), vec![vec![0; 1], vec![0; 4]]).is_none());
    assert!(ComponentGroup::new(descriptor.clone(), vec![vec![0; 4]]).is_none());
    assert!(
        ComponentGroup::new(descriptor, vec![vec![0; 4], vec![0; 1], vec![0; 8]]).is_none()
    );
    let invalid = ComponentGroupDescriptor::new(&[a(), a()]);
    assert!(ComponentGroup::new(invalid, vec![]).is_none());
}

#[test]
fn read_from_sorted_pointers_restores_the_declaration_order() {
    let value_a = [1u8];
    let value_b = 42u32.to_le_bytes();
    let value_c = 7u64.to_le_bytes();
    let sorted: Vec<&[u8]> = vec![&value_a[..], &value_b[..], &value_c[..]];
    let cab = ComponentGroupDescriptor::new(&[c(), a(), b()]);
    let group = ComponentGroup::read_from_sorted_pointers(&cab, &sorted);
    assert_eq!(group.component(0), &value_c[..]);
    assert_eq!(group.component(1), &value_a[..]);
    assert_eq!(group.component(2), &value_b[..]);
    assert_ne!(group.component(0).as_ptr(), value_c.as_ptr());
    assert_eq!(group.descriptor().unsorted_to_sorted(0), 2);
    let values = group.into_values();
    assert_eq!(
        values,
        vec![value_c.to_vec(), value_a.to_vec(), value_b.to_vec()]
    );
}

#[test]
fn slice_unchecked_mut_lends_the_front_of_each_column() {
    let mut column_a = [7u8; 16];
    let mut column_b = [9u8; 16 * 4];
    let start_a = column_a.as_ptr();
    let start_b = column_b.as_ptr();
    {
        let pointers: Vec<&mut [u8]> = vec![&mut column_a[..], &mut column_b[..]];
        let ba = ComponentGroupDescriptor::new(&[b(), a()]);
        let mut slices = ba.slice_unchecked_mut(pointers, 5);
        assert_eq!(slices.len(), 2);
        assert_eq!(slices[0].as_ptr(), start_b);
        assert_eq!(slices[1].as_ptr(), start_a);
        assert_eq!(slices[0].len(), 20);
        assert_eq!(slices[1].len(), 5);
        slices[0][19] = 1;
        slices[1][0] = 2;
    }
    assert_eq!(column_b[19], 1);
    assert_eq!(column_b[20], 9);
    assert_eq!(column_a[0], 2);
    assert_eq!(column_a[5], 7);
}
