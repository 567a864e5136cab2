//! Byte strings and lists of them, as the contracts see them.
//!
//! A read, a pattern or a label is a `Vec<u8>`, seen as a `Seq<u8>`. A list of
//! them is seen through `deep_view` as a `Seq<Seq<u8>>`.

use vstd::prelude::*;

verus! {

/// The deep view of a list of byte strings holds, row by row, the views of
/// its byte strings.
pub proof fn lemma_rows_of_bytes(list: Vec<Vec<u8>>)
    ensures
        list.deep_view().len() == list@.len(),
        forall|k: int| 0 <= k < list@.len() ==> #[trigger] list.deep_view()[k] == list@[k]@,
{
    assert forall|k: int| 0 <= k < list@.len() implies #[trigger] list.deep_view()[k]
        == list@[k]@ by {
        assert(list.deep_view()[k] =~= list@[k]@);
    }
}

/// The deep view of a list of index lists holds, row by row, the views of its
/// index lists.
pub proof fn lemma_rows_of_indices(list: Vec<Vec<usize>>)
    ensures
        list.deep_view().len() == list@.len(),
        forall|k: int| 0 <= k < list@.len() ==> #[trigger] list.deep_view()[k] == list@[k]@,
{
    assert forall|k: int| 0 <= k < list@.len() implies #[trigger] list.deep_view()[k]
        == list@[k]@ by {
        assert(list.deep_view()[k] =~= list@[k]@);
    }
}

/// Whether two byte strings hold the same bytes.
pub fn same_bytes(a: &Vec<u8>, b: &Vec<u8>) -> (same: bool)
    ensures
        same == (a@ == b@),
{
    if a.len() != b.len() {
        return false;
    }
    let mut k: usize = 0;
    while k < a.len()
        invariant
            k <= a.len(),
            a.len() == b.len(),
            forall|j: int| 0 <= j < k ==> a@[j] == b@[j],
        decreases a.len() - k,
    {
        if a[k] != b[k] {
            return false;
        }
        k += 1;
    }
    assert(a@ =~= b@);
    true
}

} // verus!
