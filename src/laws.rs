//! Laws that hold of every single-threaded table in this crate: chaining,
//! open addressing and the two cuckoo tables. Each of their `insert`
//! ensures `final(self)@ == old(self)@.insert(key@, value)` and returns
//! `old(self)@.get(key@)`; `get` answers `self@.get(key@)`; `remove` leaves
//! `old(self)@.remove(key@)` and returns `old(self)@.get(key@)`; `clear`
//! leaves the empty map; `len` is `self@.len()`. The laws below are stated
//! over those maps.
use vstd::prelude::*;

verus! {

/// The map reached by inserting `values[i]` under `keys[i]`, in order,
/// starting from `m`.
pub open spec fn insert_all<K, V>(m: Map<K, V>, keys: Seq<K>, values: Seq<V>) -> Map<K, V>
    recommends
        keys.len() == values.len(),
    decreases keys.len(),
{
    if keys.len() == 0 {
        m
    } else {
        insert_all(m, keys.drop_last(), values.drop_last()).insert(keys.last(), values.last())
    }
}

proof fn lemma_insert_all_dom<K, V>(keys: Seq<K>, values: Seq<V>)
    requires
        keys.len() == values.len(),
    ensures
        insert_all(Map::<K, V>::empty(), keys, values).dom() == keys.to_set(),
    decreases keys.len(),
{
    if keys.len() > 0 {
        lemma_insert_all_dom(keys.drop_last(), values.drop_last());
        assert forall|k: K| #[trigger] keys.to_set().contains(k) <==> keys.drop_last().to_set().insert(
            keys.last(),
        ).contains(k) by {
            if keys.contains(k) && k != keys.last() {
                let i = choose|i: int| 0 <= i < keys.len() && keys[i] == k;
                assert(keys.drop_last()[i] == k);
            }
            if keys.drop_last().contains(k) {
                let i = choose|i: int| 0 <= i < keys.drop_last().len() && keys.drop_last()[i] == k;
                assert(keys[i] == k);
            }
            if k == keys.last() {
                assert(keys[keys.len() - 1] == k);
            }
        }
        assert(keys.to_set() =~= keys.drop_last().to_set().insert(keys.last()));
    } else {
        assert(keys.to_set() =~= Set::empty());
    }
}

/// Key uniqueness: after any sequence of inserts into an empty table, its
/// length is the number of distinct keys inserted, however often each was
/// inserted.
pub proof fn law_len_counts_distinct_keys<K, V>(keys: Seq<K>, values: Seq<V>)
    requires
        keys.len() == values.len(),
    ensures
        insert_all(Map::<K, V>::empty(), keys, values).len() == keys.to_set().len(),
{
    lemma_insert_all_dom(keys, values);
}

/// Insert then get: inserting an absent key returns nothing, and a lookup
/// right after returns the inserted value.
pub proof fn law_insert_get<K, V>(m: Map<K, V>, key: K, value: V)
    requires
        !m.contains_key(key),
    ensures
        m.get(key) is None,
        m.insert(key, value).get(key) == Some(value),
{
}

/// Overwrite: inserting a present key returns its old value, a lookup right
/// after returns the new one, and the length does not change.
pub proof fn law_overwrite<K, V>(m: Map<K, V>, key: K, value: V)
    requires
        m.dom().finite(),
        m.contains_key(key),
    ensures
        m.get(key) == Some(m[key]),
        m.insert(key, value).get(key) == Some(value),
        m.insert(key, value).len() == m.len(),
{
    assert(m.insert(key, value).dom() =~= m.dom());
}

/// Remove then get: removing an absent key returns nothing; removing a
/// present key returns its value, a lookup right after returns nothing, and
/// the length drops by one.
pub proof fn law_remove_get<K, V>(m: Map<K, V>, key: K)
    requires
        m.dom().finite(),
    ensures
        !m.contains_key(key) ==> m.get(key) is None && m.remove(key) == m,
        m.contains_key(key) ==> m.get(key) == Some(m[key]) && m.remove(key).len() + 1 == m.len(),
        m.remove(key).get(key) is None,
{
    if !m.contains_key(key) {
        assert(m.remove(key) =~= m);
    }
}

/// Content survives any number of rebuilds: after inserting distinct keys
/// into an empty table, every key is found with its value.
pub proof fn law_all_retrievable<K, V>(keys: Seq<K>, values: Seq<V>)
    requires
        keys.len() == values.len(),
        keys.no_duplicates(),
    ensures
        forall|i: int|
            0 <= i < keys.len() ==> #[trigger] insert_all(Map::<K, V>::empty(), keys, values).get(keys[i])
                == Some(values[i]),
    decreases keys.len(),
{
    if keys.len() > 0 {
        let n = keys.len() - 1;
        law_all_retrievable(keys.drop_last(), values.drop_last());
        assert forall|i: int| 0 <= i < keys.len() implies #[trigger] insert_all(
            Map::<K, V>::empty(),
            keys,
            values,
        ).get(keys[i]) == Some(values[i]) by {
            let prev = insert_all(Map::<K, V>::empty(), keys.drop_last(), values.drop_last());
            assert(insert_all(Map::<K, V>::empty(), keys, values) == prev.insert(keys[n], values[n]));
            if i < n {
                assert(keys.drop_last()[i] == keys[i]);
                assert(values.drop_last()[i] == values[i]);
                assert(prev.get(keys.drop_last()[i]) == Some(values.drop_last()[i]));
                assert(keys[i] != keys[n]);
            }
        }
    }
}

/// Clear: the cleared table has length zero and holds no key.
pub proof fn law_clear<K, V>(key: K)
    ensures
        Map::<K, V>::empty().len() == 0,
        Map::<K, V>::empty().get(key) is None,
{
    assert(Map::<K, V>::empty().dom() =~= Set::empty());
}

} // verus!
