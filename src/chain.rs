//! Chains of entries: the buckets of the chaining tables. A chain holds each
//! key at most once, and stands for the map `pairs_map` of its entries.
use crate::key::TableKey;
use crate::model::refers_to;
use crate::slots::{distinct_keys, lemma_pairs_map_finite, lemma_pairs_map_has, pairs_map};
use vstd::prelude::*;

verus! {

/// In a chain with distinct keys, each entry gives the value of its key.
pub proof fn lemma_pairs_map_entry<K: View, V>(ps: Seq<(K, V)>, j: int)
    requires
        distinct_keys(ps),
        0 <= j < ps.len(),
    ensures
        pairs_map(ps).contains_key(ps[j].0@),
        pairs_map(ps)[ps[j].0@] == ps[j].1,
    decreases ps.len(),
{
    if j < ps.len() - 1 {
        let t = ps.drop_last();
        assert(distinct_keys(t)) by {
            assert forall|a: int, b: int|
                0 <= a < t.len() && 0 <= b < t.len() && a != b implies (#[trigger] t[a]).0@ != (#[trigger] t[b]).0@ by {
                assert(t[a] == ps[a] && t[b] == ps[b]);
            }
        }
        assert(t[j] == ps[j]);
        lemma_pairs_map_entry(t, j);
        assert(ps[j].0@ != ps[ps.len() - 1].0@);
    }
}

/// Two chains with distinct keys stand for the same map when their maps
/// agree on every entry of both.
pub proof fn lemma_pairs_map_ext<K: View, V>(a: Seq<(K, V)>, m: Map<K::V, V>)
    requires
        distinct_keys(a),
        m.dom().finite(),
        forall|j: int| 0 <= j < a.len() ==> m.contains_key((#[trigger] a[j]).0@) && m[a[j].0@] == a[j].1,
        forall|k: K::V| #[trigger] m.contains_key(k) ==> exists|j: int| 0 <= j < a.len() && (#[trigger] a[j]).0@ == k,
    ensures
        pairs_map(a) == m,
{
    assert forall|k: K::V| #[trigger] pairs_map(a).contains_key(k) <==> m.contains_key(k) by {
        lemma_pairs_map_has(a, k);
    }
    assert forall|k: K::V| #[trigger] pairs_map(a).contains_key(k) implies pairs_map(a)[k] == m[k] by {
        lemma_pairs_map_has(a, k);
        let j = choose|j: int| 0 <= j < a.len() && (#[trigger] a[j]).0@ == k;
        lemma_pairs_map_entry(a, j);
    }
    assert(pairs_map(a) =~= m);
}

/// The position of `key` in `chain`, if it is there.
pub fn chain_find<K: TableKey, V>(chain: &Vec<(K, V)>, key: &K) -> (r: Option<usize>)
    ensures
        match r {
            Some(j) => j < chain@.len() && chain@[j as int].0@ == key@,
            None => !pairs_map(chain@).contains_key(key@),
        },
{
    let mut j: usize = 0;
    while j < chain.len()
        invariant
            j <= chain@.len(),
            forall|i: int| 0 <= i < j ==> (#[trigger] chain@[i]).0@ != key@,
        decreases chain@.len() - j,
    {
        if chain[j].0.same_key(key) {
            return Some(j);
        }
        j = j + 1;
    }
    proof {
        lemma_pairs_map_has(chain@, key@);
    }
    None
}

/// The value of `key` in `chain`, if it is there.
pub fn chain_get<'a, K: TableKey, V>(chain: &'a Vec<(K, V)>, key: &K) -> (r: Option<&'a V>)
    requires
        distinct_keys(chain@),
    ensures
        refers_to(r, pairs_map(chain@).get(key@)),
{
    match chain_find(chain, key) {
        Some(j) => {
            proof {
                lemma_pairs_map_entry(chain@, j as int);
            }
            Some(&chain[j].1)
        },
        None => None,
    }
}

/// Removes `key` from `chain`, moving the last entry into its place, and
/// returns its value.
pub fn chain_remove<K: TableKey, V>(chain: &mut Vec<(K, V)>, key: &K) -> (r: Option<V>)
    requires
        distinct_keys(old(chain)@),
    ensures
        distinct_keys(final(chain)@),
        pairs_map(final(chain)@) == pairs_map(old(chain)@).remove(key@),
        r == pairs_map(old(chain)@).get(key@),
{
    proof {
        lemma_pairs_map_finite(old(chain)@);
    }
    match chain_find(chain, key) {
        Some(j) => {
            let ghost c0 = chain@;
            proof {
                lemma_pairs_map_entry(c0, j as int);
            }
            let (_, v) = chain.swap_remove(j);
            let ghost c1 = chain@;
            proof {
                let n = c0.len() - 1;
                assert(c1 =~= c0.update(j as int, c0[n]).drop_last());
                assert forall|a: int, b: int|
                    0 <= a < c1.len() && 0 <= b < c1.len() && a != b implies (#[trigger] c1[a]).0@ != (#[trigger] c1[b]).0@ by {
                    let a0 = if a == j { n } else { a };
                    let b0 = if b == j { n } else { b };
                    assert(c1[a] == c0[a0] && c1[b] == c0[b0]);
                }
                let m = pairs_map(c0).remove(key@);
                assert forall|i: int| 0 <= i < c1.len() implies m.contains_key((#[trigger] c1[i]).0@)
                    && m[c1[i].0@] == c1[i].1 by {
                    let i0 = if i == j { n } else { i };
                    assert(c1[i] == c0[i0]);
                    lemma_pairs_map_entry(c0, i0);
                    assert(c0[i0].0@ != c0[j as int].0@);
                }
                assert forall|k: K::V| #[trigger] m.contains_key(k) implies exists|i: int|
                    0 <= i < c1.len() && (#[trigger] c1[i]).0@ == k by {
                    lemma_pairs_map_has(c0, k);
                    let i0 = choose|i: int| 0 <= i < c0.len() && (#[trigger] c0[i]).0@ == k;
                    if i0 == n {
                        assert(c1[j as int].0@ == k);
                    } else {
                        assert(c1[i0].0@ == k);
                    }
                }
                lemma_pairs_map_ext(c1, m);
            }
            Some(v)
        },
        None => {
            assert(pairs_map(chain@).remove(key@) =~= pairs_map(chain@));
            None
        },
    }
}

/// Stores `value` under `key` in `chain`, removing an earlier entry for the
/// key first, and returns the value that entry held.
pub fn chain_insert<K: TableKey, V>(chain: &mut Vec<(K, V)>, key: K, value: V) -> (r: Option<V>)
    requires
        distinct_keys(old(chain)@),
    ensures
        distinct_keys(final(chain)@),
        pairs_map(final(chain)@) == pairs_map(old(chain)@).insert(key@, value),
        r == pairs_map(old(chain)@).get(key@),
{
    let old_value = chain_remove(chain, &key);
    let ghost c1 = chain@;
    proof {
        lemma_pairs_map_has(c1, key@);
    }
    chain.push((key, value));
    proof {
        let c2 = chain@;
        assert(c2.drop_last() =~= c1);
        assert forall|a: int, b: int|
            0 <= a < c2.len() && 0 <= b < c2.len() && a != b implies (#[trigger] c2[a]).0@ != (#[trigger] c2[b]).0@ by {
            if a < c1.len() && b < c1.len() {
                assert(c2[a] == c1[a] && c2[b] == c1[b]);
            } else if a < c1.len() {
                assert(c2[a] == c1[a]);
            } else {
                assert(c2[b] == c1[b]);
            }
        }
        assert(pairs_map(c2) =~= pairs_map(c1).insert(key@, value));
    }
    old_value
}

/// Replacing the value of entry `j` keeps the keys distinct and replaces the
/// value of that entry's key.
pub proof fn lemma_value_replaced<K: View, V>(c0: Seq<(K, V)>, j: int, c: Seq<(K, V)>)
    requires
        distinct_keys(c0),
        0 <= j < c0.len(),
        c == c0.update(j, (c0[j].0, c[j].1)),
    ensures
        distinct_keys(c),
        pairs_map(c) == pairs_map(c0).insert(c0[j].0@, c[j].1),
{
    let key = c0[j].0@;
    assert forall|a: int, b: int|
        0 <= a < c.len() && 0 <= b < c.len() && a != b implies (#[trigger] c[a]).0@ != (#[trigger] c[b]).0@ by {
        assert(c[a].0 == c0[a].0 && c[b].0 == c0[b].0);
    }
    lemma_pairs_map_finite(c0);
    let m = pairs_map(c0).insert(key, c[j].1);
    assert forall|i: int| 0 <= i < c.len() implies m.contains_key((#[trigger] c[i]).0@) && m[c[i].0@]
        == c[i].1 by {
        lemma_pairs_map_entry(c0, i);
        if i != j {
            assert(c0[i].0@ != c0[j].0@);
        }
    }
    assert forall|k: K::V| #[trigger] m.contains_key(k) implies exists|i: int|
        0 <= i < c.len() && (#[trigger] c[i]).0@ == k by {
        if k == key {
            assert(c[j].0@ == k);
        } else {
            lemma_pairs_map_has(c0, k);
            let i0 = choose|i: int| 0 <= i < c0.len() && (#[trigger] c0[i]).0@ == k;
            assert(c[i0].0@ == k);
        }
    }
    lemma_pairs_map_ext(c, m);
}

/// A mutable reference to the value of entry `j`.
pub fn chain_value_mut<K, V>(chain: &mut Vec<(K, V)>, j: usize) -> (r: &mut V)
    requires
        j < old(chain)@.len(),
    ensures
        *r == old(chain)@[j as int].1,
        final(chain)@ == old(chain)@.update(j as int, (old(chain)@[j as int].0, *final(r))),
{
    let entry = &mut chain[j];
    &mut entry.1
}


/// A chain whose keys are distinct, as a value of its own: the buckets of
/// the concurrent tables, which sit behind locks.
pub struct Chain<K: TableKey, V> {
    entries: Vec<(K, V)>,
}

impl<K: TableKey, V> View for Chain<K, V> {
    type V = Map<K::V, V>;

    closed spec fn view(&self) -> Map<K::V, V> {
        pairs_map(self.entries@)
    }
}

impl<K: TableKey, V> Chain<K, V> {
    #[verifier::type_invariant]
    spec fn distinct(self) -> bool {
        distinct_keys(self.entries@)
    }

    pub fn new() -> (r: Self)
        ensures
            r@ == Map::<K::V, V>::empty(),
    {
        Chain { entries: Vec::new() }
    }

    /// The value of `key`, if it is there.
    pub fn get(&self, key: &K) -> (r: Option<&V>)
        ensures
            refers_to(r, self@.get(key@)),
    {
        proof {
            use_type_invariant(self);
        }
        chain_get(&self.entries, key)
    }

    /// Stores `value` under `key`, replacing and returning an earlier value.
    pub fn insert(&mut self, key: K, value: V) -> (r: Option<V>)
        ensures
            final(self)@ == old(self)@.insert(key@, value),
            r == old(self)@.get(key@),
    {
        let mut entries = self.take_entries();
        let r = chain_insert(&mut entries, key, value);
        *self = Chain { entries };
        r
    }

    /// Removes `key` and returns its value, if it was there.
    pub fn remove(&mut self, key: &K) -> (r: Option<V>)
        ensures
            final(self)@ == old(self)@.remove(key@),
            r == old(self)@.get(key@),
    {
        let mut entries = self.take_entries();
        let r = chain_remove(&mut entries, key);
        *self = Chain { entries };
        r
    }

    /// Takes out some entry, if there is one.
    pub fn pop(&mut self) -> (r: Option<(K, V)>)
        ensures
            match r {
                Some(e) => {
                    &&& !final(self)@.contains_key(e.0@)
                    &&& old(self)@ == final(self)@.insert(e.0@, e.1)
                    &&& final(self)@.len() < old(self)@.len()
                },
                None => old(self)@ == Map::<K::V, V>::empty() && final(self)@ == old(self)@,
            },
    {
        let mut entries = self.take_entries();
        let ghost c0 = entries@;
        let e = entries.pop();
        let ghost c1 = entries@;
        proof {
            if e is Some {
                assert(c0.drop_last() =~= c1);
                assert(distinct_keys(c1)) by {
                    assert forall|a: int, b: int|
                        0 <= a < c1.len() && 0 <= b < c1.len() && a != b implies (#[trigger] c1[a]).0@
                        != (#[trigger] c1[b]).0@ by {
                        assert(c1[a] == c0[a] && c1[b] == c0[b]);
                    }
                }
            }
        }
        *self = Chain { entries };
        match e {
            Some(e) => {
                proof {
                    lemma_pairs_map_finite(c1);
                    lemma_pairs_map_has(c1, e.0@);
                    if pairs_map(c1).contains_key(e.0@) {
                        let i = choose|i: int| 0 <= i < c1.len() && (#[trigger] c1[i]).0@ == e.0@;
                        assert(c0[i].0@ == c0[c0.len() - 1].0@);
                    }
                }
                Some(e)
            },
            None => None,
        }
    }

    /// The entries, leaving this chain empty.
    fn take_entries(&mut self) -> (r: Vec<(K, V)>)
        ensures
            distinct_keys(r@),
            pairs_map(r@) == old(self)@,
    {
        let mut other = Chain::new();
        std::mem::swap(self, &mut other);
        proof {
            use_type_invariant(&other);
        }
        let Chain { entries } = other;
        entries
    }

    /// Hands back the whole chain, leaving this one empty.
    pub fn take(&mut self) -> (r: Self)
        ensures
            r@ == old(self)@,
            final(self)@ == Map::<K::V, V>::empty(),
    {
        let mut other = Chain::new();
        std::mem::swap(self, &mut other);
        other
    }
}

} // verus!
