use vstd::prelude::*;

verus! {

/// The value an FNV-1a fold of 64 bits starts from.
pub const FNV_OFFSET_BASIS: u64 = 0xcbf29ce484222325;

/// The multiplier of an FNV-1a fold of 64 bits.
pub const FNV_PRIME: u64 = 0x100000001b3;

/// One FNV-1a round: the byte is mixed in by exclusive or, then the state is
/// multiplied by the prime, modulo 2^64.
pub open spec fn fnv1a_step(hash: u64, byte: u8) -> u64 {
    (hash ^ (byte as u64)).wrapping_mul(FNV_PRIME)
}

/// Folds `bytes`, first to last, into `hash`.
pub open spec fn fnv1a_fold(hash: u64, bytes: Seq<u8>) -> u64
    decreases bytes.len(),
{
    if bytes.len() == 0 {
        hash
    } else {
        fnv1a_step(fnv1a_fold(hash, bytes.drop_last()), bytes.last())
    }
}

/// The two bytes of `id`, least significant first.
pub open spec fn le_bytes(id: u16) -> Seq<u8> {
    seq![(id & 0xff) as u8, (id >> 8) as u8]
}

/// Folds the little-endian bytes of each id, first id to last, into `hash`.
pub open spec fn fnv1a_fold_ids(hash: u64, ids: Seq<u16>) -> u64
    decreases ids.len(),
{
    if ids.len() == 0 {
        hash
    } else {
        fnv1a_fold(fnv1a_fold_ids(hash, ids.drop_last()), le_bytes(ids.last()))
    }
}

/// The FNV-1a hash of the little-endian bytes of `ids`.
pub open spec fn fnv1a_of_ids(ids: Seq<u16>) -> u64 {
    fnv1a_fold_ids(FNV_OFFSET_BASIS, ids)
}

/// Mixes one byte into a running FNV-1a state.
pub fn fnv1a_hash_byte(hash: u64, byte: u8) -> (next: u64)
    ensures
        next == fnv1a_step(hash, byte),
{
    (hash ^ (byte as u64)).wrapping_mul(FNV_PRIME)
}

/// Mixes the two bytes of `id`, least significant first, into a running FNV-1a state.
pub fn fnv1a_hash_u16(hash: u64, id: u16) -> (next: u64)
    ensures
        next == fnv1a_fold(hash, le_bytes(id)),
{
    let low: u8 = (id & 0xff) as u8;
    let high: u8 = (id >> 8) as u8;
    let first = fnv1a_hash_byte(hash, low);
    let second = fnv1a_hash_byte(first, high);
    proof {
        let bytes = le_bytes(id);
        assert(bytes.drop_last() =~= seq![low]);
        assert(bytes.drop_last().drop_last() =~= Seq::<u8>::empty());
        assert(fnv1a_fold(hash, bytes.drop_last().drop_last()) == hash);
        assert(fnv1a_fold(hash, bytes.drop_last()) == first);
    }
    second
}

/// The FNV-1a hash of a byte string.
pub fn fnv1a_hash_bytes(bytes: &[u8]) -> (hash: u64)
    ensures
        hash == fnv1a_fold(FNV_OFFSET_BASIS, bytes@),
{
    let mut hash: u64 = FNV_OFFSET_BASIS;
    let mut i: usize = 0;
    while i < bytes.len()
        invariant
            i <= bytes@.len(),
            hash == fnv1a_fold(FNV_OFFSET_BASIS, bytes@.subrange(0, i as int)),
        decreases bytes@.len() - i,
    {
        proof {
            let next = bytes@.subrange(0, i + 1);
            assert(next.drop_last() =~= bytes@.subrange(0, i as int));
        }
        hash = fnv1a_hash_byte(hash, bytes[i]);
        i += 1;
    }
    proof {
        assert(bytes@.subrange(0, i as int) =~= bytes@);
    }
    hash
}

} // verus!
