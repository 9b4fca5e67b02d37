use archetype_storage::fnv1a::{
    fnv1a_hash_byte, fnv1a_hash_bytes, fnv1a_hash_u16, FNV_OFFSET_BASIS, FNV_PRIME,
};

#[test]
fn empty_input_hashes_to_the_offset_basis() {
    assert_eq!(fnv1a_hash_bytes(&[]), 0xcbf29ce484222325);
    assert_eq!(FNV_OFFSET_BASIS, 0xcbf29ce484222325);
    assert_eq!(FNV_PRIME, 0x100000001b3);
}

#[test]
fn known_vectors() {
    assert_eq!(fnv1a_hash_bytes(b"a"), 0xaf63dc4c8601ec8c);
    assert_eq!(fnv1a_hash_bytes(b"foobar"), 0x85944171f73967e8);
}

#[test]
fn one_byte_step() {
    let expected = (0xcbf29ce484222325u64 ^ 0x61).wrapping_mul(0x100000001b3);
    assert_eq!(fnv1a_hash_byte(FNV_OFFSET_BASIS, 0x61), expected);
    assert_eq!(expected, 0xaf63dc4c8601ec8c);
}

#[test]
fn u16_is_hashed_low_byte_first() {
    assert_eq!(
        fnv1a_hash_u16(FNV_OFFSET_BASIS, 0x0201),
        fnv1a_hash_bytes(&[0x01, 0x02])
    );
    assert_ne!(
        fnv1a_hash_u16(FNV_OFFSET_BASIS, 0x0201),
        fnv1a_hash_bytes(&[0x02, 0x01])
    );
    assert_eq!(fnv1a_hash_u16(FNV_OFFSET_BASIS, 258), 592596118541513868);
}
