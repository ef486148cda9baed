//! What every table's contract is stated over: a finite map from the views
//! of keys to values.
use vstd::prelude::*;

verus! {

/// A lookup that hands back a reference agrees with `expected`.
pub open spec fn refers_to<V>(r: Option<&V>, expected: Option<V>) -> bool {
    match r {
        Some(v) => expected == Some(*v),
        None => expected is None,
    }
}

/// A finite map of length zero is empty.
pub proof fn lemma_len_zero_empty<K, V>(m: Map<K, V>)
    requires
        m.dom().finite(),
        m.len() == 0,
    ensures
        m == Map::<K, V>::empty(),
{
    assert forall|k: K| !#[trigger] m.contains_key(k) by {
        if m.contains_key(k) {
            assert(m.dom().remove(k).len() + 1 == 0);
        }
    }
    assert(m =~= Map::empty());
}

} // verus!
