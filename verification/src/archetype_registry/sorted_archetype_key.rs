use crate::archetype_id::ArchetypeId;
use vstd::prelude::*;

verus! {

/// One entry of the registry's index: the identity of an archetype and
/// the place of the archetype in the registry.
#[derive(Clone, Copy, Debug, PartialEq, Eq, Structural, Hash)]
pub struct SortedArchetypeKey {
    pub id: ArchetypeId,
    pub archetype_index: u16,
}

/// The identities rise strictly from each entry to the next.
pub open spec fn ascending_keys(keys: Seq<SortedArchetypeKey>) -> bool {
    forall|a: int, b: int|
        0 <= a < b < keys.len() ==> (#[trigger] keys[a]).id@ < (#[trigger] keys[b]).id@
}

/// Looks for `id` among entries with ascending identities.
///
/// `Ok` gives the position of the entry that carries `id`; `Err` gives the
/// position at which an entry with `id` has to be inserted.
pub fn search_keys(keys: &Vec<SortedArchetypeKey>, id: u64) -> (found: Result<usize, usize>)
    requires
        ascending_keys(keys@),
    ensures
        found matches Ok(k) ==> k < keys@.len() && keys@[k as int].id@ == id,
        found matches Err(k) ==> k <= keys@.len() && (forall|j: int|
            0 <= j < k ==> (#[trigger] keys@[j]).id@ < id) && (forall|j: int|
            k <= j < keys@.len() ==> (#[trigger] keys@[j]).id@ > id),
{
    let mut low: usize = 0;
    let mut high: usize = keys.len();
    while low < high
        invariant
            low <= high <= keys@.len(),
            ascending_keys(keys@),
            forall|j: int| 0 <= j < low ==> (#[trigger] keys@[j]).id@ < id,
            forall|j: int| high <= j < keys@.len() ==> (#[trigger] keys@[j]).id@ > id,
        decreases high - low,
    {
        let mid: usize = low + (high - low) / 2;
        let here = keys[mid].id.into_u64();
        if here == id {
            return Ok(mid);
        } else if here < id {
            low = mid + 1;
        } else {
            high = mid;
        }
    }
    Err(low)
}

} // verus!
