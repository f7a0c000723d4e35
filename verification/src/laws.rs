//! Proved statements about the index as a whole.

use crate::hashindex::HashIndex;
use crate::hashing::low8;
use crate::hashing::IndexHasher;
use crate::hashing::IndexKey;
use crate::hashing::IndexValue;
use vstd::prelude::*;

verus! {

/// Partial-hash filter soundness: in a well-formed index every stored entry,
/// in either generation, carries exactly the low eight bits of its key's full
/// hash, so filtering candidates by partial hash can never skip the key.
pub proof fn lemma_partial_hash_filter<K: IndexKey, V: IndexValue, H: IndexHasher<K>>(
    idx: HashIndex<K, V, H>,
)
    requires
        idx.wf(),
    ensures
        forall|i: int, j: int|
            0 <= i < idx.array.num_cells() && 0 <= j < (
            #[trigger] idx.array.cells@[i]).entries@.len() ==> (
            #[trigger] idx.array.cells@[i].entries@[j]).partial_hash == low8(
                idx.hf()(idx.array.cells@[i].entries@[j].key),
            ),
        match idx.old_array {
            Some(o) => forall|i: int, j: int|
                0 <= i < o.num_cells() && 0 <= j < (#[trigger] o.cells@[i]).entries@.len() ==> (
                #[trigger] o.cells@[i].entries@[j]).partial_hash == low8(
                    idx.hf()(o.cells@[i].entries@[j].key),
                ),
            None => true,
        },
{
    assert forall|i: int, j: int|
        0 <= i < idx.array.num_cells() && 0 <= j < (
        #[trigger] idx.array.cells@[i]).entries@.len() implies (
    #[trigger] idx.array.cells@[i].entries@[j]).partial_hash == low8(
        idx.hf()(idx.array.cells@[i].entries@[j].key),
    ) by {
        assert(idx.array.cells@[i].wf(idx.hf(), i, idx.array.num_cells()));
    }
    match idx.old_array {
        Some(o) => {
            assert forall|i: int, j: int|
                0 <= i < o.num_cells() && 0 <= j < (#[trigger] o.cells@[i]).entries@.len() implies (
            #[trigger] o.cells@[i].entries@[j]).partial_hash == low8(
                idx.hf()(o.cells@[i].entries@[j].key),
            ) by {
                assert(o.cells@[i].wf(idx.hf(), i, o.num_cells()));
            }
        },
        None => (),
    }
}

/// Storage uniqueness: a key is stored at most once in a generation — in the
/// one cell its hash selects — and never in both generations at once.
pub proof fn lemma_storage_unique<K: IndexKey, V: IndexValue, H: IndexHasher<K>>(
    idx: HashIndex<K, V, H>,
)
    requires
        idx.wf(),
    ensures
        forall|i: int, j1: int, j2: int|
            0 <= i < idx.array.num_cells() && 0 <= j1 < j2 < (
            #[trigger] idx.array.cells@[i]).entries@.len() ==> (
            #[trigger] idx.array.cells@[i].entries@[j1]).key != (
            #[trigger] idx.array.cells@[i].entries@[j2]).key,
        forall|q: K| !(#[trigger] idx.in_current(q) && idx.in_old(q)),
{
    assert forall|i: int, j1: int, j2: int|
        0 <= i < idx.array.num_cells() && 0 <= j1 < j2 < (
        #[trigger] idx.array.cells@[i]).entries@.len() implies (
    #[trigger] idx.array.cells@[i].entries@[j1]).key != (
    #[trigger] idx.array.cells@[i].entries@[j2]).key by {
        assert(idx.array.cells@[i].wf(idx.hf(), i, idx.array.num_cells()));
    }
    assert forall|q: K| !(#[trigger] idx.in_current(q) && idx.in_old(q)) by {
        match idx.old_array {
            Some(o) => {},
            None => {
                assert(!idx.in_old(q));
            },
        }
    }
}

} // verus!
