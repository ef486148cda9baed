//! Separate chaining for concurrent callers with a bucket array sized once:
//! there is no structural lock and no length counter, so an operation only
//! ever waits for the lock of its own bucket.
//!
//! Each operation's effect on its bucket is stated by the closure it runs
//! under the bucket's lock, which does exactly what the single-threaded
//! chain does (`Chain::insert`, `Chain::remove`, `Chain::get`); the lock
//! wrappers carry that closure's contract. The public functions promise
//! nothing of their results: the buckets sit behind locks that other
//! threads may take between two calls, and no state outside the locks
//! records what they hold.
use crate::chain::Chain;
use crate::chaining_hashing::bucket_for;
use crate::chaining_hashing_concurrent::locked_chains;
use crate::key::TableKey;
use crate::locks::{with_read, with_write};
use parking_lot::RwLock;
use std::sync::Arc;
use vstd::prelude::*;

verus! {

/// A map from keys to shared values with a fixed number of buckets, which
/// many threads may use at once. Nothing is promised of what a call
/// returns, since other threads may change the table at any time; each
/// bucket holds each key at most once.
#[verifier::reject_recursive_types(K)]
#[verifier::reject_recursive_types(V)]
pub struct HashMap<K: TableKey, V> {
    buckets: Vec<RwLock<Chain<K, Arc<V>>>>,
}

impl<K: TableKey, V> HashMap<K, V> {
    /// The table has at least one bucket.
    pub closed spec fn wf(&self) -> bool {
        self.buckets@.len() > 0
    }

    pub closed spec fn spec_capacity(&self) -> nat {
        self.buckets@.len()
    }

    /// A table for about `capacity` entries: eight buckets for each.
    pub fn with_capacity(capacity: usize) -> (r: Self)
        requires
            capacity > 0,
            capacity <= usize::MAX / 8,
        ensures
            r.wf(),
            r.spec_capacity() == capacity * 8,
    {
        Self::with_exact_capacity(capacity * 8)
    }

    /// A table with exactly `capacity` buckets.
    pub fn with_exact_capacity(capacity: usize) -> (r: Self)
        requires
            capacity > 0,
        ensures
            r.wf(),
            r.spec_capacity() == capacity,
    {
        HashMap { buckets: locked_chains(capacity) }
    }

    /// The number of buckets.
    pub fn capacity(&self) -> (r: usize)
        ensures
            r == self.spec_capacity(),
    {
        self.buckets.len()
    }

    /// Empties every bucket, one lock at a time.
    pub fn clear(&self) {
        let mut b: usize = 0;
        while b < self.buckets.len()
            decreases self.buckets@.len() - b,
        {
            with_write(
                &self.buckets[b],
                |chain: &mut Chain<K, Arc<V>>|
                    {
                        chain.take();
                    },
            );
            b = b + 1;
        }
    }

    /// Stores `value` under `key` and returns the value it replaced, if any.
    /// The old entry is removed and the new one added under one hold of the
    /// bucket's lock, so a key never appears twice.
    pub fn insert(&self, key: K, value: Arc<V>) -> Option<Arc<V>>
        requires
            self.wf(),
    {
        let i = bucket_for(&key, self.buckets.len());
        let ghost k = key@;
        let ghost v = value;
        with_write(
            &self.buckets[i],
            (move |chain: &mut Chain<K, Arc<V>>| -> (r: Option<Arc<V>>)
                ensures
                    final(chain)@ == old(chain)@.insert(k, v),
                    r == old(chain)@.get(k),
                { chain.insert(key, value) }),
        )
    }

    /// The value stored under `key`, if any.
    pub fn get(&self, key: &K) -> Option<Arc<V>>
        requires
            self.wf(),
    {
        let i = bucket_for(key, self.buckets.len());
        with_read(
            &self.buckets[i],
            (|chain: &Chain<K, Arc<V>>| -> (r: Option<Arc<V>>)
                ensures
                    r is Some == chain@.contains_key(key@),
                {
                    match chain.get(key) {
                        Some(v) => Some(v.clone()),
                        None => None,
                    }
                }),
        )
    }

    /// Removes `key` and returns its value, if it was present.
    pub fn remove(&self, key: &K) -> Option<Arc<V>>
        requires
            self.wf(),
    {
        let i = bucket_for(key, self.buckets.len());
        with_write(
            &self.buckets[i],
            (|chain: &mut Chain<K, Arc<V>>| -> (r: Option<Arc<V>>)
                ensures
                    final(chain)@ == old(chain)@.remove(key@),
                    r == old(chain)@.get(key@),
                { chain.remove(key) }),
        )
    }
}

} // verus!
