//! Finding an entry by its key in a list of keyed entries.

use vstd::prelude::*;

verus! {

/// Index of the first entry with the key `id`.
pub open spec fn position<T>(entries: Seq<(u64, T)>, id: u64) -> Option<int>
    decreases entries.len(),
{
    if entries.len() == 0 {
        None
    } else if entries[0].0 == id {
        Some(0)
    } else {
        match position(entries.drop_first(), id) {
            Some(i) => Some(i + 1),
            None => None,
        }
    }
}

/// What `position` finds is the first entry with the key, and it finds
/// none only where no entry has the key.
pub proof fn lemma_position<T>(entries: Seq<(u64, T)>, id: u64)
    ensures
        match position(entries, id) {
            Some(i) => 0 <= i < entries.len() && entries[i].0 == id && forall|k: int|
                0 <= k < i ==> (#[trigger] entries[k]).0 != id,
            None => forall|k: int| 0 <= k < entries.len() ==> (#[trigger] entries[k]).0 != id,
        },
    decreases entries.len(),
{
    if entries.len() > 0 && entries[0].0 != id {
        let tail = entries.drop_first();
        lemma_position(tail, id);
        match position(tail, id) {
            Some(i) => {
                assert forall|k: int| 0 <= k < i + 1 implies (#[trigger] entries[k]).0 != id by {
                    if k > 0 {
                        assert(entries[k] == tail[k - 1]);
                    }
                }
            },
            None => {
                assert forall|k: int| 0 <= k < entries.len() implies (#[trigger] entries[k]).0
                    != id by {
                    if k > 0 {
                        assert(entries[k] == tail[k - 1]);
                    }
                }
            },
        }
    }
}

} // verus!
