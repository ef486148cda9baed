//! Separate chaining for concurrent callers: a structural lock guards the
//! bucket array, each bucket has a lock of its own, and the length is an
//! atomic counter read without locking. Operations that touch one bucket
//! hold the structural lock for reading; rehashing and clearing hold it
//! exclusively.
//!
//! Each operation's effect on its bucket is stated by the closure it runs
//! under the bucket's lock, which does exactly what the single-threaded
//! chain does (`Chain::insert`, `Chain::remove`, `Chain::get`); the lock
//! wrappers carry that closure's contract. The public functions promise
//! nothing of their results: the buckets sit behind locks that other
//! threads may take between two calls, and no state outside the locks
//! records what they hold.
use crate::chain::Chain;
use crate::chaining_hashing::{bucket_for, bucket_index};
use crate::key::TableKey;
use crate::load::{LoadFactor, Ratio};
use crate::locks::{new_lock, with_read, with_write};
use parking_lot::RwLock;
use std::sync::atomic::{AtomicUsize, Ordering};
use std::sync::Arc;
use vstd::prelude::*;

verus! {

/// Buckets allocated by the first insert into a table built without any.
pub const DEFAULT_BUCKETS: usize = 64;

/// `n` unlocked empty buckets.
pub(crate) fn locked_chains<K: TableKey, V>(n: usize) -> (r: Vec<RwLock<Chain<K, V>>>)
    ensures
        r@.len() == n,
{
    let mut r: Vec<RwLock<Chain<K, V>>> = Vec::new();
    while r.len() < n
        invariant
            r@.len() <= n,
        decreases n - r@.len(),
    {
        r.push(new_lock(Chain::new()));
    }
    r
}

/// The union of the maps of `chains`, earlier chains taking precedence.
pub open spec fn chains_map<K: TableKey, V>(chains: Seq<Chain<K, V>>) -> Map<K::V, V>
    decreases chains.len(),
{
    if chains.len() == 0 {
        Map::empty()
    } else {
        chains.last()@.union_prefer_right(chains_map(chains.drop_last()))
    }
}

/// Each chain of `chains` holds only keys whose bucket among `n` is that
/// chain's position.
pub open spec fn bucketed<K: TableKey, V>(chains: Seq<Chain<K, V>>, n: int) -> bool {
    forall|j: int, k: K::V|
        0 <= j < chains.len() && #[trigger] chains[j]@.contains_key(k) ==> bucket_index::<K>(k, n) == j
}

/// The keys of bucketed chains, each looked up in the chain of its bucket.
pub open spec fn bucket_map<K: TableKey, V>(chains: Seq<Chain<K, V>>, n: int) -> Map<K::V, V> {
    Map::new(
        |k: K::V|
            bucket_index::<K>(k, n) < chains.len() && chains[bucket_index::<K>(k, n)]@.contains_key(k),
        |k: K::V| chains[bucket_index::<K>(k, n)]@[k],
    )
}

/// For bucketed chains, the union of their maps is the bucket map.
proof fn lemma_bucketed_union<K: TableKey, V>(chains: Seq<Chain<K, V>>, n: int, upto: int)
    requires
        n > 0,
        chains.len() == n,
        bucketed(chains, n),
        0 <= upto <= n,
    ensures
        chains_map(chains.take(upto)) == bucket_map(chains.take(upto), n),
    decreases upto,
{
    let p = chains.take(upto);
    if upto > 0 {
        lemma_bucketed_union(chains, n, upto - 1);
        assert(p.drop_last() =~= chains.take(upto - 1));
        assert forall|k: K::V| #[trigger] chains_map(p).contains_key(k) <==> bucket_map(p, n).contains_key(
            k,
        ) by {
            if chains[upto - 1]@.contains_key(k) {
                assert(bucket_index::<K>(k, n) == upto - 1);
            }
        }
        assert forall|k: K::V| #[trigger] chains_map(p).contains_key(k) implies chains_map(p)[k]
            == bucket_map(p, n)[k] by {
            if chains[upto - 1]@.contains_key(k) {
                assert(bucket_index::<K>(k, n) == upto - 1);
            }
        }
        assert(chains_map(p) =~= bucket_map(p, n));
    } else {
        assert(bucket_map(p, n) =~= Map::empty());
    }
}

/// Moves every entry of `chains` into `n` new chains, each entry to the
/// chain of its bucket among `n`.
pub fn redistribute<K: TableKey, V>(chains: Vec<Chain<K, V>>, n: usize) -> (r: Vec<Chain<K, V>>)
    requires
        n > 0,
    ensures
        r@.len() == n,
        bucketed(r@, n as int),
        chains_map(r@) == chains_map(chains@),
{
    let ghost target = chains_map(chains@);
    let mut chains = chains;
    let mut r: Vec<Chain<K, V>> = Vec::new();
    while r.len() < n
        invariant
            r@.len() <= n,
            forall|j: int| 0 <= j < r@.len() ==> (#[trigger] r@[j])@ == Map::<K::V, V>::empty(),
        decreases n - r@.len(),
    {
        r.push(Chain::new());
    }
    assert(bucket_map(r@, n as int) =~= Map::empty());
    assert(target =~= bucket_map(r@, n as int).union_prefer_right(chains_map(chains@)));
    while chains.len() > 0
        invariant
            n > 0,
            r@.len() == n,
            bucketed(r@, n as int),
            target == bucket_map(r@, n as int).union_prefer_right(chains_map(chains@)),
        decreases chains@.len(),
    {
        let ghost before = chains@;
        let mut chain = chains.pop().unwrap();
        proof {
            assert(before.drop_last() =~= chains@);
            assert(target =~= bucket_map(r@, n as int).union_prefer_right(chain@).union_prefer_right(
                chains_map(chains@),
            ));
        }
        loop
            invariant
                n > 0,
                r@.len() == n,
                bucketed(r@, n as int),
                target == bucket_map(r@, n as int).union_prefer_right(chain@).union_prefer_right(
                    chains_map(chains@),
                ),
            ensures
                r@.len() == n,
                bucketed(r@, n as int),
                target == bucket_map(r@, n as int).union_prefer_right(chains_map(chains@)),
            decreases chain@.len(),
        {
            match chain.pop() {
                Some((k, v)) => {
                    let j = bucket_for(&k, n);
                    let ghost r0 = r@;
                    let ghost rest = chain@;
                    r[j].insert(k, v);
                    proof {
                        assert forall|i: int, k2: K::V|
                            0 <= i < r@.len() && #[trigger] r@[i]@.contains_key(k2) implies bucket_index::<K>(
                            k2,
                            n as int,
                        ) == i by {
                            if i != j {
                                assert(r@[i] == r0[i]);
                            } else if k2 != k@ {
                                assert(r0[i]@.contains_key(k2));
                            }
                        }
                        assert(bucket_map(r@, n as int) =~= bucket_map(r0, n as int).insert(k@, v)) by {
                            assert forall|k2: K::V| bucket_index::<K>(k2, n as int) != j implies r@[bucket_index::<K>(
                                k2,
                                n as int,
                            )] == r0[bucket_index::<K>(k2, n as int)] by {}
                        }
                        assert(target =~= bucket_map(r@, n as int).union_prefer_right(rest).union_prefer_right(
                            chains_map(chains@),
                        ));
                    }
                },
                None => {
                    proof {
                        assert(bucket_map(r@, n as int).union_prefer_right(chain@) =~= bucket_map(
                            r@,
                            n as int,
                        ));
                    }
                    break ;
                },
            }
        }
    }
    proof {
        assert(chains_map(chains@) =~= Map::empty());
        assert(r@.take(n as int) =~= r@);
        lemma_bucketed_union(r@, n as int, n as int);
        assert(target =~= bucket_map(r@, n as int));
    }
    r
}

/// A map from keys to shared values that many threads may use at once.
/// Nothing is promised of what a call returns, since other threads may
/// change the table at any time; each bucket holds each key at most once.
#[verifier::reject_recursive_types(K)]
#[verifier::reject_recursive_types(V)]
pub struct HashMap<K: TableKey, V> {
    buckets: RwLock<Vec<RwLock<Chain<K, Arc<V>>>>>,
    length: AtomicUsize,
    load_factor: LoadFactor,
}

impl<K: TableKey, V> HashMap<K, V> {
    pub closed spec fn spec_load_factor(&self) -> LoadFactor {
        self.load_factor
    }

    /// An empty table with the default load factor of 2/5 and no buckets.
    pub fn new() -> (r: Self)
        ensures
            r.spec_load_factor().num() == 2,
            r.spec_load_factor().den() == 5,
    {
        Self::with_exact_capacity(0, LoadFactor::new(2, 5))
    }

    /// An empty table with room for `capacity` entries: eight buckets for each.
    pub fn with_capacity(capacity: usize) -> (r: Self)
        requires
            capacity <= usize::MAX / 8,
        ensures
            r.spec_load_factor().num() == 2,
            r.spec_load_factor().den() == 5,
    {
        Self::with_exact_capacity(capacity * 8, LoadFactor::new(2, 5))
    }

    /// An empty table with no buckets and the given load factor.
    pub fn with_load_factor(load_factor: LoadFactor) -> (r: Self)
        requires
            load_factor.valid(),
        ensures
            r.spec_load_factor() == load_factor,
    {
        Self::with_exact_capacity(0, load_factor)
    }

    /// An empty table with exactly `capacity` buckets.
    pub fn with_exact_capacity(capacity: usize, load_factor: LoadFactor) -> (r: Self)
        requires
            load_factor.valid(),
        ensures
            r.spec_load_factor() == load_factor,
    {
        HashMap {
            buckets: new_lock(locked_chains(capacity)),
            length: AtomicUsize::new(0),
            load_factor,
        }
    }

    /// The number of entries, as last counted.
    pub fn len(&self) -> usize {
        self.length.load(Ordering::SeqCst)
    }

    /// Whether the counted number of entries is zero.
    pub fn is_empty(&self) -> bool {
        self.len() == 0
    }

    /// Entries per bucket; zero when there are no buckets.
    pub fn fill_factor(&self) -> (r: Ratio)
        ensures
            r.denominator > 0,
    {
        let (count, n) = with_read(
            &self.buckets,
            |buckets: &Vec<RwLock<Chain<K, Arc<V>>>>| (self.length.load(Ordering::SeqCst), buckets.len()),
        );
        Ratio::of(count, n)
    }

    /// Removes every entry, holding the structural lock exclusively.
    pub fn clear(&self) {
        with_write(
            &self.buckets,
            |buckets: &mut Vec<RwLock<Chain<K, Arc<V>>>>|
                {
                    self.length.store(0, Ordering::SeqCst);
                    let n = buckets.len();
                    *buckets = locked_chains(n);
                },
        )
    }

    /// Stores `value` under `key` and returns the value it replaced, if any.
    /// The old entry is removed and the new one added under one hold of the
    /// bucket's lock, so a key never appears twice.
    pub fn insert(&self, key: K, value: Arc<V>) -> Option<Arc<V>>
        requires
            self.spec_load_factor().valid(),
    {
        let missing = with_read(
            &self.buckets,
            |buckets: &Vec<RwLock<Chain<K, Arc<V>>>>| buckets.len() == 0,
        );
        if missing {
            with_write(
                &self.buckets,
                |buckets: &mut Vec<RwLock<Chain<K, Arc<V>>>>|
                    {
                        if buckets.len() == 0 {
                            *buckets = locked_chains(DEFAULT_BUCKETS);
                        }
                    },
            );
        }
        let fill = self.fill_factor();
        if self.load_factor.is_reached(fill.numerator, fill.denominator) {
            self.rehash();
        }
        let placed = with_read(
            &self.buckets,
            move |buckets: &Vec<RwLock<Chain<K, Arc<V>>>>| -> Result<Option<Arc<V>>, (K, Arc<V>)>
                {
                    if buckets.len() == 0 {
                        Err((key, value))
                    } else {
                        let i = bucket_for(&key, buckets.len());
                        let ghost k = key@;
                        let ghost v = value;
                        Ok(
                            with_write(
                                &buckets[i],
                                (move |chain: &mut Chain<K, Arc<V>>| -> (r: Option<Arc<V>>)
                                    ensures
                                        final(chain)@ == old(chain)@.insert(k, v),
                                        r == old(chain)@.get(k),
                                    { chain.insert(key, value) }),
                            ),
                        )
                    }
                },
        );
        let old_value = match placed {
            Ok(old_value) => old_value,
            Err((key, value)) => with_write(
                &self.buckets,
                move |buckets: &mut Vec<RwLock<Chain<K, Arc<V>>>>| -> Option<Arc<V>>
                    {
                        if buckets.len() == 0 {
                            *buckets = locked_chains(DEFAULT_BUCKETS);
                        }
                        let i = bucket_for(&key, buckets.len());
                        let ghost k = key@;
                        let ghost v = value;
                        with_write(
                            &buckets[i],
                            (move |chain: &mut Chain<K, Arc<V>>| -> (r: Option<Arc<V>>)
                                ensures
                                    final(chain)@ == old(chain)@.insert(k, v),
                                    r == old(chain)@.get(k),
                                { chain.insert(key, value) }),
                        )
                    },
            ),
        };
        if old_value.is_none() {
            self.length.fetch_add(1, Ordering::SeqCst);
        }
        old_value
    }

    /// Doubles the bucket array while holding the structural lock
    /// exclusively, unless another thread has already brought the fill
    /// factor under the load factor.
    fn rehash(&self)
        requires
            self.spec_load_factor().valid(),
    {
        with_write(
            &self.buckets,
            |buckets: &mut Vec<RwLock<Chain<K, Arc<V>>>>|
                {
                    let n = buckets.len();
                    let count = self.length.load(Ordering::SeqCst);
                    if n == 0 || n > usize::MAX / 2 || !self.load_factor.is_reached(count, n) {
                        return ;
                    }
                    let m = n * 2;
                    let mut old_chains: Vec<Chain<K, Arc<V>>> = Vec::new();
                    let mut b: usize = 0;
                    while b < n
                        invariant
                            n == buckets@.len(),
                        decreases n - b,
                    {
                        let chain = with_write(&buckets[b], |c: &mut Chain<K, Arc<V>>| c.take());
                        old_chains.push(chain);
                        b = b + 1;
                    }
                    let mut spread = redistribute(old_chains, m);
                    let mut fresh: Vec<RwLock<Chain<K, Arc<V>>>> = Vec::new();
                    let mut j: usize = 0;
                    while j < m
                        invariant
                            spread@.len() == m,
                        decreases m - j,
                    {
                        let mut chain = Chain::new();
                        std::mem::swap(&mut spread[j], &mut chain);
                        fresh.push(new_lock(chain));
                        j = j + 1;
                    }
                    *buckets = fresh;
                },
        )
    }

    /// The value stored under `key`, if any.
    pub fn get(&self, key: &K) -> Option<Arc<V>> {
        with_read(
            &self.buckets,
            |buckets: &Vec<RwLock<Chain<K, Arc<V>>>>| -> Option<Arc<V>>
                {
                    if buckets.len() == 0 {
                        return None;
                    }
                    let i = bucket_for(key, buckets.len());
                    with_read(
                        &buckets[i],
                        (|chain: &Chain<K, Arc<V>>| -> (r: Option<Arc<V>>)
                            ensures
                                r is Some == chain@.contains_key(key@),
                            {
                                match chain.get(key) {
                                    Some(v) => Some(v.clone()),
                                    None => None,
                                }
                            }),
                    )
                },
        )
    }

    /// Removes `key` and returns its value, if it was present.
    pub fn remove(&self, key: &K) -> Option<Arc<V>> {
        with_read(
            &self.buckets,
            |buckets: &Vec<RwLock<Chain<K, Arc<V>>>>| -> Option<Arc<V>>
                { Self::pre_locked_remove(buckets, &self.length, key) },
        )
    }

    /// Removes `key` from its bucket while the caller holds the structural
    /// lock, and counts the removal.
    fn pre_locked_remove(
        buckets: &Vec<RwLock<Chain<K, Arc<V>>>>,
        length: &AtomicUsize,
        key: &K,
    ) -> (r: Option<Arc<V>>)
        ensures
            buckets@.len() == 0 ==> r is None,
    {
        if buckets.len() == 0 {
            return None;
        }
        let i = bucket_for(key, buckets.len());
        let removed = with_write(
            &buckets[i],
            (|chain: &mut Chain<K, Arc<V>>| -> (r: Option<Arc<V>>)
                ensures
                    final(chain)@ == old(chain)@.remove(key@),
                    r == old(chain)@.get(key@),
                { chain.remove(key) }),
        );
        if removed.is_some() {
            length.fetch_sub(1, Ordering::SeqCst);
        }
        removed
    }
}

impl<K: TableKey, V> Default for HashMap<K, V> {
    /// The same as `new`.
    fn default() -> (r: Self)
        ensures
            r.spec_load_factor().num() == 2,
            r.spec_load_factor().den() == 5,
    {
        Self::new()
    }
}

} // verus!
