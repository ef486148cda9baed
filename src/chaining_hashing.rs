//! Separate chaining: each bucket holds a chain of the entries whose keys
//! hash to it, and the bucket array doubles once the fill factor reaches the
//! load factor.
use crate::chain::{
    chain_find, chain_get, chain_insert, chain_remove, chain_value_mut, lemma_pairs_map_entry,
    lemma_value_replaced,
};
use crate::key::{plain_hash_key, spec_plain_hash, TableKey};
use crate::load::{LoadFactor, Ratio};
use crate::model::{lemma_len_zero_empty, refers_to};
use crate::slots::{distinct_keys, lemma_pairs_map_has, pairs_map};
use vstd::prelude::*;

verus! {

/// Buckets allocated by the first insert into a table built without any.
pub const DEFAULT_BUCKETS: usize = 64;

/// The bucket of a key with view `k` among `n` buckets.
pub open spec fn bucket_index<K: TableKey>(k: K::V, n: int) -> int {
    (spec_plain_hash::<K>(k) as int) % n
}

/// The bucket of `key` among `n` buckets.
pub fn bucket_for<K: TableKey>(key: &K, n: usize) -> (r: usize)
    requires
        n > 0,
    ensures
        r == bucket_index::<K>(key@, n as int),
        r < n,
{
    let h = plain_hash_key(key);
    (h % (n as u64)) as usize
}

/// Bucket `b` of `n` holds distinct keys, each of which belongs there.
pub open spec fn chain_ok<K: TableKey, V>(c: Seq<(K, V)>, b: int, n: int) -> bool {
    &&& distinct_keys(c)
    &&& forall|k: K::V| #[trigger] pairs_map(c).contains_key(k) ==> bucket_index::<K>(k, n) == b
}

/// A map from keys to values that keeps the entries of each bucket in a chain.
pub struct HashMap<K: TableKey, V> {
    buckets: Vec<Vec<(K, V)>>,
    length: usize,
    load_factor: LoadFactor,
    keys: Ghost<Set<K::V>>,
}

impl<K: TableKey, V> View for HashMap<K, V> {
    type V = Map<K::V, V>;

    closed spec fn view(&self) -> Map<K::V, V> {
        Map::new(
            |k: K::V| self.keys@.contains(k),
            |k: K::V| pairs_map(self.buckets@[self.bucket_of_view(k)]@)[k],
        )
    }
}

impl<K: TableKey, V> HashMap<K, V> {
    spec fn bucket_of_view(&self, k: K::V) -> int {
        bucket_index::<K>(k, self.buckets@.len() as int)
    }

    /// The table's internal consistency.
    pub closed spec fn wf(&self) -> bool {
        &&& forall|b: int|
            0 <= b < self.buckets@.len() ==> chain_ok(
                (#[trigger] self.buckets@[b])@,
                b,
                self.buckets@.len() as int,
            )
        &&& forall|k: K::V| #[trigger]
            self.keys@.contains(k) <==> (self.buckets@.len() > 0 && pairs_map(
                self.buckets@[self.bucket_of_view(k)]@,
            ).contains_key(k))
        &&& self.keys@.finite()
        &&& self.length == self.keys@.len()
        &&& self.load_factor.valid()
    }

    pub closed spec fn spec_capacity(&self) -> nat {
        self.buckets@.len()
    }

    pub closed spec fn spec_load_factor(&self) -> LoadFactor {
        self.load_factor
    }

    proof fn lemma_wf(&self)
        requires
            self.wf(),
        ensures
            self@.dom().finite(),
            self@.dom() == self.keys@,
            self@.len() == self.length,
    {
        assert(self@.dom() =~= self.keys@);
    }

    /// A consistent table holds finitely many keys, and none when it has
    /// no slots.
    pub proof fn lemma_contents(&self)
        requires
            self.wf(),
        ensures
            self@.dom().finite(),
            self.spec_capacity() == 0 ==> self@ == Map::<K::V, V>::empty(),
    {
        self.lemma_wf();
        if self.spec_capacity() == 0 {
            if self.buckets@.len() == 0 {
                assert(self.keys@ =~= Set::empty());
            }
            lemma_len_zero_empty(self@);
        }
    }

    /// An empty table with the default load factor of 2/5 and no buckets.
    pub fn new() -> (r: Self)
        ensures
            r.wf(),
            r@ == Map::<K::V, V>::empty(),
            r.spec_capacity() == 0,
            r.spec_load_factor().num() == 2,
            r.spec_load_factor().den() == 5,
    {
        Self::with_exact_capacity(0, LoadFactor::new(2, 5))
    }

    /// An empty table with room for `capacity` entries: eight buckets for each.
    pub fn with_capacity(capacity: usize) -> (r: Self)
        requires
            capacity <= usize::MAX / 8,
        ensures
            r.wf(),
            r@ == Map::<K::V, V>::empty(),
            r.spec_capacity() == capacity * 8,
            r.spec_load_factor().num() == 2,
            r.spec_load_factor().den() == 5,
    {
        Self::with_exact_capacity(capacity * 8, LoadFactor::new(2, 5))
    }

    /// An empty table with no buckets and the given load factor.
    pub fn with_load_factor(load_factor: LoadFactor) -> (r: Self)
        requires
            load_factor.valid(),
        ensures
            r.wf(),
            r@ == Map::<K::V, V>::empty(),
            r.spec_capacity() == 0,
            r.spec_load_factor() == load_factor,
    {
        Self::with_exact_capacity(0, load_factor)
    }

    /// `n` empty chains.
    fn empty_buckets(n: usize) -> (r: Vec<Vec<(K, V)>>)
        ensures
            r@.len() == n,
            forall|b: int| 0 <= b < n ==> (#[trigger] r@[b])@.len() == 0,
    {
        let mut r: Vec<Vec<(K, V)>> = Vec::new();
        while r.len() < n
            invariant
                r@.len() <= n,
                forall|b: int| 0 <= b < r@.len() ==> (#[trigger] r@[b])@.len() == 0,
            decreases n - r@.len(),
        {
            r.push(Vec::new());
        }
        r
    }

    /// An empty table with exactly `capacity` buckets.
    pub fn with_exact_capacity(capacity: usize, load_factor: LoadFactor) -> (r: Self)
        requires
            load_factor.valid(),
        ensures
            r.wf(),
            r@ == Map::<K::V, V>::empty(),
            r.spec_capacity() == capacity,
            r.spec_load_factor() == load_factor,
    {
        let buckets = Self::empty_buckets(capacity);
        let r = HashMap { buckets, length: 0, load_factor, keys: Ghost(Set::empty()) };
        proof {
            r.lemma_empty_chains();
        }
        assert(r@ =~= Map::empty());
        r
    }

    /// Empty chains hold no keys.
    proof fn lemma_empty_chains(&self)
        requires
            forall|b: int| 0 <= b < self.buckets@.len() ==> (#[trigger] self.buckets@[b])@.len() == 0,
            self.keys@ == Set::<K::V>::empty(),
            self.length == 0,
            self.load_factor.valid(),
        ensures
            self.wf(),
    {
        assert forall|b: int| 0 <= b < self.buckets@.len() implies chain_ok(
            (#[trigger] self.buckets@[b])@,
            b,
            self.buckets@.len() as int,
        ) by {
            assert(pairs_map(self.buckets@[b]@) == Map::<K::V, V>::empty());
        }
        assert forall|k: K::V| #[trigger]
            self.keys@.contains(k) <==> (self.buckets@.len() > 0 && pairs_map(
                self.buckets@[self.bucket_of_view(k)]@,
            ).contains_key(k)) by {
            if self.buckets@.len() > 0 {
                let b = self.bucket_of_view(k);
                assert(pairs_map(self.buckets@[b]@) == Map::<K::V, V>::empty());
            }
        }
    }

    pub fn len(&self) -> (r: usize)
        requires
            self.wf(),
        ensures
            r == self@.len(),
            self@.dom().finite(),
    {
        proof {
            self.lemma_wf();
        }
        self.length
    }

    pub fn is_empty(&self) -> (r: bool)
        requires
            self.wf(),
        ensures
            r == (self@.len() == 0),
    {
        proof {
            self.lemma_wf();
        }
        self.length == 0
    }

    /// The number of buckets.
    pub fn capacity(&self) -> (r: usize)
        ensures
            r == self.spec_capacity(),
    {
        self.buckets.len()
    }

    /// Live entries per bucket; zero when there are no buckets.
    pub fn fill_factor(&self) -> (r: Ratio)
        requires
            self.wf(),
        ensures
            (r.numerator == 0) == (self@.len() == 0),
            self.spec_capacity() == 0 ==> r == (Ratio { numerator: 0, denominator: 1 }),
            self.spec_capacity() > 0 ==> r == (Ratio {
                numerator: self@.len() as usize,
                denominator: self.spec_capacity() as usize,
            }),
    {
        proof {
            self.lemma_contents();
            self.lemma_wf();
        }
        Ratio::of(self.length, self.buckets.len())
    }

    /// Removes every entry; the buckets stay allocated.
    pub fn clear(&mut self)
        requires
            old(self).wf(),
        ensures
            final(self).wf(),
            final(self)@ == Map::<K::V, V>::empty(),
            final(self).spec_capacity() == old(self).spec_capacity(),
            final(self).spec_load_factor() == old(self).spec_load_factor(),
    {
        self.buckets = Self::empty_buckets(self.buckets.len());
        self.length = 0;
        self.keys = Ghost(Set::empty());
        proof {
            self.lemma_empty_chains();
        }
        assert(self@ =~= Map::empty());
    }

    /// The value stored under `key`, if any. An empty table answers without
    /// hashing.
    pub fn get(&self, key: &K) -> (r: Option<&V>)
        requires
            self.wf(),
        ensures
            refers_to(r, self@.get(key@)),
    {
        proof {
            self.lemma_wf();
        }
        if self.length == 0 {
            proof {
                lemma_len_zero_empty(self@);
            }
            return None;
        }
        if self.buckets.len() == 0 {
            return None;
        }
        let b = self.bucket_of(key);
        chain_get(&self.buckets[b], key)
    }

    /// A mutable reference to the value stored under `key`, if any.
    pub fn get_mut(&mut self, key: &K) -> (r: Option<&mut V>)
        requires
            old(self).wf(),
        ensures
            match r {
                Some(v) => {
                    &&& old(self)@.get(key@) == Some(*v)
                    &&& final(self).wf()
                    &&& final(self)@ == old(self)@.insert(key@, *final(v))
                    &&& final(self).spec_capacity() == old(self).spec_capacity()
                    &&& final(self).spec_load_factor() == old(self).spec_load_factor()
                },
                None => !old(self)@.contains_key(key@) && *final(self) == *old(self),
            },
    {
        proof {
            self.lemma_wf();
        }
        if self.length == 0 {
            proof {
                lemma_len_zero_empty(self@);
            }
            return None;
        }
        if self.buckets.len() == 0 {
            return None;
        }
        let b = self.bucket_of(key);
        match chain_find(&self.buckets[b], key) {
            Some(j) => {
                let ghost before = *self;
                let ghost c0 = self.buckets@[b as int]@;
                let ghost n = self.buckets@.len() as int;
                proof {
                    lemma_pairs_map_entry(c0, j as int);
                    assert(self@.contains_key(key@) && self@[key@] == pairs_map(c0)[key@]);
                    assert forall|t: Self|
                        #![trigger t.wf()]
                        #![trigger t.view()]
                        t.buckets@ == before.buckets@.update(b as int, t.buckets@[b as int])
                            && t.buckets@[b as int]@ == c0.update(
                            j as int,
                            (c0[j as int].0, t.buckets@[b as int]@[j as int].1),
                        ) && t.keys == before.keys && t.length == before.length && t.load_factor
                            == before.load_factor implies t.wf() && t@ == before@.insert(
                        key@,
                        t.buckets@[b as int]@[j as int].1,
                    ) by {
                        let c = t.buckets@[b as int]@;
                        lemma_value_replaced(c0, j as int, c);
                        assert(pairs_map(c).dom() =~= pairs_map(c0).dom());
                        assert forall|b2: int| 0 <= b2 < t.buckets@.len() implies chain_ok(
                            (#[trigger] t.buckets@[b2])@,
                            b2,
                            n,
                        ) by {
                            if b2 != b {
                                assert(t.buckets@[b2] == before.buckets@[b2]);
                            } else {
                                assert forall|k: K::V| #[trigger] pairs_map(c).contains_key(k) implies bucket_index::<K>(k, n) == b2 by {
                                    assert(pairs_map(c0).contains_key(k));
                                }
                            }
                        }
                        assert forall|k: K::V| #[trigger]
                            t.keys@.contains(k) <==> (t.buckets@.len() > 0 && pairs_map(
                                t.buckets@[t.bucket_of_view(k)]@,
                            ).contains_key(k)) by {
                            if t.bucket_of_view(k) != b {
                                assert(t.buckets@[t.bucket_of_view(k)] == before.buckets@[before.bucket_of_view(
                                    k,
                                )]);
                            } else {
                                assert(pairs_map(c).dom().contains(k) == pairs_map(c0).dom().contains(k));
                            }
                        }
                        assert(t@ =~= before@.insert(key@, c[j as int].1)) by {
                            assert forall|k: K::V| t.keys@.contains(k) implies #[trigger] t@[k]
                                == before@.insert(key@, c[j as int].1)[k] by {
                                if t.bucket_of_view(k) != b {
                                    assert(t.buckets@[t.bucket_of_view(k)] == before.buckets@[before.bucket_of_view(
                                        k,
                                    )]);
                                }
                            }
                        }
                    }
                }
                let v = chain_value_mut(&mut self.buckets[b], j);
                Some(v)
            },
            None => {
                assert(!self@.contains_key(key@));
                None
            },
        }
    }

    /// Removes `key` and returns its value, if it was present.
    pub fn remove(&mut self, key: &K) -> (r: Option<V>)
        requires
            old(self).wf(),
        ensures
            final(self).wf(),
            r == old(self)@.get(key@),
            final(self)@ == old(self)@.remove(key@),
            final(self).spec_capacity() == old(self).spec_capacity(),
            final(self).spec_load_factor() == old(self).spec_load_factor(),
    {
        proof {
            self.lemma_wf();
        }
        if self.length == 0 {
            proof {
                lemma_len_zero_empty(self@);
            }
            assert(self@.remove(key@) =~= self@);
            return None;
        }
        if self.buckets.len() == 0 {
            assert(self@.remove(key@) =~= self@);
            return None;
        }
        let b = self.bucket_of(key);
        let ghost before = *self;
        let r = chain_remove(&mut self.buckets[b], key);
        if r.is_some() {
            self.length = self.length - 1;
        }
        self.keys = Ghost(self.keys@.remove(key@));
        proof {
            self.lemma_one_chain_changed(before, b as int);
            assert(self@ =~= before@.remove(key@)) by {
                assert forall|k: K::V| self.keys@.contains(k) implies #[trigger] self@[k] == before@[k] by {
                    if self.bucket_of_view(k) != b {
                        assert(self.buckets@[self.bucket_of_view(k)] == before.buckets@[before.bucket_of_view(
                            k,
                        )]);
                    }
                }
            }
        }
        r
    }

    /// Stores `value` under `key` in its chain; the chain drops an earlier
    /// entry for the key first.
    fn put(&mut self, key: K, value: V) -> (r: Option<V>)
        requires
            old(self).wf(),
            old(self).buckets@.len() > 0,
            old(self)@.contains_key(key@) || old(self)@.len() < usize::MAX,
        ensures
            final(self).wf(),
            r == old(self)@.get(key@),
            final(self)@ == old(self)@.insert(key@, value),
            final(self).buckets@.len() == old(self).buckets@.len(),
            final(self).load_factor == old(self).load_factor,
    {
        proof {
            self.lemma_wf();
        }
        let b = self.bucket_of(&key);
        let ghost before = *self;
        let ghost kv = key@;
        let ghost n = self.buckets@.len() as int;
        assert(pairs_map(self.buckets@[b as int]@).contains_key(kv) == self@.contains_key(kv));
        let r = chain_insert(&mut self.buckets[b], key, value);
        if r.is_none() {
            self.length = self.length + 1;
        }
        self.keys = Ghost(self.keys@.insert(kv));
        proof {
            assert forall|k: K::V| #[trigger]
                pairs_map(self.buckets@[b as int]@).contains_key(k) implies bucket_index::<K>(k, n) == b by {
                if k != kv {
                    assert(pairs_map(before.buckets@[b as int]@).contains_key(k));
                }
            }
            self.lemma_one_chain_changed(before, b as int);
            assert(self@ =~= before@.insert(kv, value)) by {
                assert forall|k: K::V| self.keys@.contains(k) implies #[trigger] self@[k] == before@.insert(
                    kv,
                    value,
                )[k] by {
                    if self.bucket_of_view(k) != b {
                        assert(self.buckets@[self.bucket_of_view(k)] == before.buckets@[before.bucket_of_view(
                            k,
                        )]);
                    }
                }
            }
        }
        r
    }

    /// Stores `value` under `key` and returns the value it replaces, if any.
    /// Allocates the default buckets on the first insert, and doubles the
    /// bucket array first when the fill factor has reached the load factor.
    pub fn insert(&mut self, key: K, value: V) -> (r: Option<V>)
        requires
            old(self).wf(),
            old(self)@.len() < usize::MAX,
            old(self).spec_capacity() <= usize::MAX / 4,
        ensures
            final(self).wf(),
            r == old(self)@.get(key@),
            final(self)@ == old(self)@.insert(key@, value),
            final(self).spec_load_factor() == old(self).spec_load_factor(),
            final(self).spec_capacity() == old(self).spec_load_factor().grown(
                old(self)@.len(),
                old(self).spec_capacity(),
                DEFAULT_BUCKETS as nat,
            ),
            old(self).spec_load_factor().within(old(self)@.len(), old(self).spec_capacity())
                && old(self).spec_load_factor().num() * (if old(self).spec_capacity() == 0 {
                DEFAULT_BUCKETS as nat
            } else {
                old(self).spec_capacity()
            }) >= old(self).spec_load_factor().den() ==> final(self).spec_load_factor().within(
                final(self)@.len(),
                final(self).spec_capacity(),
            ),
    {
        let ghost count0 = self@.len();
        let ghost cap0 = self.buckets@.len();
        proof {
            self.lemma_wf();
            if cap0 == 0 {
                assert(self.keys@ =~= Set::empty());
            }
        }
        if self.buckets.len() == 0 {
            proof {
                self.lemma_wf();
                assert(self.keys@ =~= Set::empty());
            }
            self.buckets = Self::empty_buckets(DEFAULT_BUCKETS);
            proof {
                self.lemma_empty_chains();
            }
        }
        let n = self.buckets.len();
        if self.load_factor.is_reached(self.length, n) {
            self.rehash(n * 2);
        }
        let r = self.put(key, value);
        proof {
            self.lemma_wf();
            assert(self@.dom() == old(self)@.dom().insert(key@));
            assert(self@.len() <= count0 + 1);
            if self.load_factor.within(count0, cap0) && self.load_factor.num() * (if cap0 == 0 {
                DEFAULT_BUCKETS as nat
            } else {
                cap0
            }) >= self.load_factor.den() {
                self.load_factor.lemma_stays_within(count0, cap0, DEFAULT_BUCKETS as nat, self@.len());
            }
        }
        r
    }

    /// Rebuilds the table with `new_capacity` buckets, moving every entry to
    /// the chain of its new bucket.
    fn rehash(&mut self, new_capacity: usize)
        requires
            old(self).wf(),
            new_capacity > 0,
        ensures
            final(self).wf(),
            final(self)@ == old(self)@,
            final(self).buckets@.len() == new_capacity,
            final(self).load_factor == old(self).load_factor,
    {
        proof {
            self.lemma_wf();
        }
        let ghost m0 = self@;
        let ghost keys0 = self.keys@;
        let ghost n0 = self.buckets@.len() as int;
        let ghost old0 = *self;
        let mut rest = Self::empty_buckets(new_capacity);
        std::mem::swap(&mut self.buckets, &mut rest);
        self.keys = Ghost(Set::empty());
        self.length = 0;
        proof {
            self.lemma_empty_chains();
        }
        let ghost ob = rest@;
        while rest.len() > 0
            invariant
                self.wf(),
                self.buckets@.len() == new_capacity,
                new_capacity > 0,
                self.load_factor == old(self).load_factor,
                old0.wf(),
                ob == old0.buckets@,
                n0 == ob.len(),
                m0 == old0@,
                keys0 == old0.keys@,
                rest@.len() <= n0,
                forall|b: int| 0 <= b < rest@.len() ==> #[trigger] rest@[b] == ob[b],
                forall|k: K::V| #[trigger]
                    self.keys@.contains(k) <==> keys0.contains(k) && bucket_index::<K>(k, n0) >= rest@.len(),
                forall|k: K::V| #[trigger] self.keys@.contains(k) ==> self@[k] == m0[k],
            decreases rest@.len(),
        {
            let mut chain = rest.pop().unwrap();
            let ghost r = rest@.len() as int;
            assert(chain == ob[r]);
            assert(chain_ok(ob[r]@, r, n0));
            while chain.len() > 0
                invariant
                    self.wf(),
                    self.buckets@.len() == new_capacity,
                    new_capacity > 0,
                    self.load_factor == old(self).load_factor,
                    old0.wf(),
                    ob == old0.buckets@,
                    n0 == ob.len(),
                    m0 == old0@,
                    keys0 == old0.keys@,
                    keys0.finite(),
                    keys0.len() == old0.length,
                    r == rest@.len(),
                    0 <= r < n0,
                    forall|b: int| 0 <= b < rest@.len() ==> #[trigger] rest@[b] == ob[b],
                    distinct_keys(chain@),
                    forall|k: K::V| #[trigger]
                        pairs_map(chain@).contains_key(k) ==> keys0.contains(k) && bucket_index::<K>(k, n0)
                            == r && pairs_map(chain@)[k] == m0[k],
                    forall|k: K::V| #[trigger]
                        self.keys@.contains(k) <==> keys0.contains(k) && (bucket_index::<K>(k, n0) > r || (
                        bucket_index::<K>(k, n0) == r && !pairs_map(chain@).contains_key(k))),
                    forall|k: K::V| #[trigger] self.keys@.contains(k) ==> self@[k] == m0[k],
                decreases chain@.len(),
            {
                let ghost c0 = chain@;
                let (k, v) = chain.pop().unwrap();
                proof {
                    assert(c0.drop_last() =~= chain@);
                    assert(pairs_map(c0) == pairs_map(chain@).insert(k@, v));
                    assert(distinct_keys(chain@)) by {
                        assert forall|a: int, b: int|
                            0 <= a < chain@.len() && 0 <= b < chain@.len() && a != b implies (#[trigger] chain@[a]).0@
                            != (#[trigger] chain@[b]).0@ by {
                            assert(chain@[a] == c0[a] && chain@[b] == c0[b]);
                        }
                    }
                    assert(!pairs_map(chain@).contains_key(k@)) by {
                        lemma_pairs_map_has(chain@, k@);
                        if pairs_map(chain@).contains_key(k@) {
                            let i = choose|i: int| 0 <= i < chain@.len() && (#[trigger] chain@[i]).0@ == k@;
                            assert(c0[i].0@ == c0[c0.len() - 1].0@);
                        }
                    }
                    assert(pairs_map(c0).contains_key(k@));
                    self.lemma_wf();
                    assert(!self@.contains_key(k@));
                    assert(self.keys@.subset_of(keys0.remove(k@)));
                    vstd::set_lib::lemma_len_subset(self.keys@, keys0.remove(k@));
                }
                let ghost kv = k@;
                let ghost keys1 = self.keys@;
                let ghost m1 = self@;
                self.put(k, v);
                proof {
                    self.lemma_wf();
                    assert(self.keys@ == keys1.insert(kv));
                    assert forall|k2: K::V| #[trigger] self.keys@.contains(k2) implies self@[k2] == m0[k2] by {
                        if k2 != kv {
                            assert(keys1.contains(k2));
                        }
                    }
                    assert forall|k2: K::V|
                        #[trigger] self.keys@.contains(k2) <==> keys0.contains(k2) && (bucket_index::<K>(k2, n0) > r || (
                        bucket_index::<K>(k2, n0) == r && !pairs_map(chain@).contains_key(k2))) by {
                        if k2 != kv {
                            assert(keys1.contains(k2) == self.keys@.contains(k2));
                        }
                    }
                    assert forall|k2: K::V| #[trigger]
                        pairs_map(chain@).contains_key(k2) implies keys0.contains(k2) && bucket_index::<K>(k2, n0)
                        == r && pairs_map(chain@)[k2] == m0[k2] by {
                        assert(pairs_map(c0).contains_key(k2));
                    }
                }
            }
            proof {
                assert forall|k: K::V| #[trigger]
                    self.keys@.contains(k) <==> keys0.contains(k) && bucket_index::<K>(k, n0) >= rest@.len() by {
                    if keys0.contains(k) && bucket_index::<K>(k, n0) == r {
                        assert(pairs_map(ob[r]@).contains_key(k));
                    }
                }
            }
        }
        proof {
            self.lemma_wf();
            assert forall|k: K::V| #[trigger] keys0.contains(k) implies bucket_index::<K>(k, n0) >= 0 by {
                assert(n0 > 0);
            }
            assert(self.keys@ =~= keys0);
            assert(self@ =~= m0);
        }
    }

    /// After one chain changed, the table is consistent if that chain is and
    /// the ghost key set agrees with it.
    proof fn lemma_one_chain_changed(&self, before: Self, b: int)
        requires
            before.wf(),
            0 <= b < before.buckets@.len(),
            self.buckets@.len() == before.buckets@.len(),
            forall|b2: int|
                0 <= b2 < self.buckets@.len() && b2 != b ==> self.buckets@[b2] == before.buckets@[b2],
            chain_ok(self.buckets@[b]@, b, self.buckets@.len() as int),
            forall|k: K::V|
                bucket_index::<K>(k, self.buckets@.len() as int) == b ==> (#[trigger] self.keys@.contains(k)
                    <==> pairs_map(self.buckets@[b]@).contains_key(k)),
            forall|k: K::V|
                bucket_index::<K>(k, self.buckets@.len() as int) != b ==> (#[trigger] self.keys@.contains(k)
                    <==> before.keys@.contains(k)),
            self.keys@.finite(),
            self.length == self.keys@.len(),
            self.load_factor.valid(),
        ensures
            self.wf(),
    {
        assert forall|b2: int| 0 <= b2 < self.buckets@.len() implies chain_ok(
            (#[trigger] self.buckets@[b2])@,
            b2,
            self.buckets@.len() as int,
        ) by {
            if b2 != b {
                assert(self.buckets@[b2] == before.buckets@[b2]);
            }
        }
        assert forall|k: K::V| #[trigger]
            self.keys@.contains(k) <==> (self.buckets@.len() > 0 && pairs_map(
                self.buckets@[self.bucket_of_view(k)]@,
            ).contains_key(k)) by {
            if self.bucket_of_view(k) != b {
                assert(self.buckets@[self.bucket_of_view(k)] == before.buckets@[before.bucket_of_view(k)]);
                assert(before.keys@.contains(k) == self.keys@.contains(k));
            }
        }
    }

    /// The bucket of `key`.
    fn bucket_of(&self, key: &K) -> (r: usize)
        requires
            self.buckets@.len() > 0,
        ensures
            r == self.bucket_of_view(key@),
            r < self.buckets@.len(),
    {
        bucket_for(key, self.buckets.len())
    }
}

impl<K: TableKey, V> Default for HashMap<K, V> {
    /// The same as `new`.
    fn default() -> (r: Self)
        ensures
            r.wf(),
            r@ == Map::<K::V, V>::empty(),
            r.spec_capacity() == 0,
    {
        Self::new()
    }
}

} // verus!
