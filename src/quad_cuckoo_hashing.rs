//! Bucketized d-ary cuckoo hashing: `h` seeded hash functions each pick a
//! bucket of `bucket_size` slots in their own chunk of the bucket array, and
//! an overflow area takes the entries that bounded random evictions could not
//! settle even after reseeding.
use crate::key::{hash_key, spec_hash, TableKey};
use crate::load::{LoadFactor, Ratio};
use crate::model::{lemma_len_zero_empty, refers_to};
use crate::random::{random_below, random_seed};
use crate::slots::{
    contents, distinct_keys, drain_slots, empty_slots, indexed, lemma_contents_dom,
    lemma_count_bound, lemma_count_push, lemma_count_update, lemma_index_len,
    lemma_pairs_map_finite, lemma_pairs_map_has, lemma_push_empty, lemma_update, occupied_count,
    pairs_map, reindexed, value_mut, Slot,
};
use vstd::prelude::*;

verus! {

/// Slots allocated by the first insert into a table built without any,
/// rounded up to a whole number of buckets in each hash function's chunk.
pub const DEFAULT_SLOTS: usize = 64;

/// The default number of hash functions, and of slots per bucket.
pub const DEFAULT_WAYS: usize = 4;

/// Buckets in each chunk of the first allocation: enough for
/// `DEFAULT_SLOTS` slots across `hashers` chunks of buckets of `size`.
pub open spec fn first_chunk(hashers: int, size: int) -> int {
    (DEFAULT_SLOTS + hashers * size - 1) / (hashers * size)
}

/// The number of buckets that a table built without any allocates.
pub open spec fn first_buckets(hashers: int, size: int) -> int {
    hashers * first_chunk(hashers, size)
}

/// The number of slots that a table built without any allocates: 64 for
/// the default shape of four hash functions and buckets of four slots.
pub open spec fn first_capacity(hashers: int, size: int) -> int {
    first_buckets(hashers, size) * size
}

proof fn lemma_first_shape(hashers: int, size: int)
    requires
        hashers > 0,
        size > 0,
    ensures
        first_chunk(hashers, size) >= 1,
        first_buckets(hashers, size) >= hashers,
        first_capacity(hashers, size) >= DEFAULT_SLOTS,
        first_capacity(hashers, size) == first_chunk(hashers, size) * (hashers * size),
        hashers * size <= first_capacity(hashers, size),
        first_buckets(hashers, size) <= first_capacity(hashers, size),
        first_capacity(4, 4) == 64,
{
    let per = hashers * size;
    let q = first_chunk(hashers, size);
    assert(per >= 1) by (nonlinear_arith)
        requires
            hashers > 0,
            size > 0,
            per == hashers * size,
    ;
    assert(q >= 1) by (nonlinear_arith)
        requires
            per >= 1,
            q == (DEFAULT_SLOTS + per - 1) / per,
    ;
    assert(q * per >= DEFAULT_SLOTS) by (nonlinear_arith)
        requires
            per >= 1,
            q == (DEFAULT_SLOTS + per - 1) / per,
    ;
    assert(hashers * q >= hashers) by (nonlinear_arith)
        requires
            q >= 1,
            hashers > 0,
    ;
    assert((hashers * q) * size == q * per) by (nonlinear_arith)
        requires
            per == hashers * size,
    ;
    assert(hashers * q <= (hashers * q) * size) by (nonlinear_arith)
        requires
            hashers * q >= 1,
            size >= 1,
    ;
    assert(per <= q * per) by (nonlinear_arith)
        requires
            q >= 1,
            per >= 1,
    ;
    assert(DEFAULT_SLOTS + 4 * 4 - 1 == 79);
    assert(79int / 16int == 4);
    assert(first_chunk(4, 4) == 4);
    assert(first_capacity(4, 4) == 64);
}

proof fn lemma_bucket_in_chunk(t: int, r: int, chunk: int, hashers: int, buckets: int)
    requires
        0 <= t < hashers,
        0 <= r < chunk,
        chunk == buckets / hashers,
        hashers > 0,
        buckets >= 0,
    ensures
        0 <= t * chunk + r < buckets,
        t * chunk <= buckets,
{
    assert(t * chunk + r < (t + 1) * chunk) by (nonlinear_arith)
        requires
            0 <= r < chunk,
    ;
    assert((t + 1) * chunk <= hashers * chunk) by (nonlinear_arith)
        requires
            t + 1 <= hashers,
            chunk >= 0,
    ;
    assert(hashers * chunk <= buckets) by (nonlinear_arith)
        requires
            chunk == buckets / hashers,
            hashers > 0,
            buckets >= 0,
    ;
    assert(0 <= t * chunk) by (nonlinear_arith)
        requires
            t >= 0,
            chunk >= 0,
    ;
}

proof fn lemma_chunk_positive(buckets: int, hashers: int)
    requires
        buckets >= hashers > 0,
    ensures
        buckets / hashers >= 1,
{
    assert(buckets / hashers >= 1) by (nonlinear_arith)
        requires
            buckets >= hashers > 0,
    ;
}

proof fn lemma_slot_in_bucket(b: int, j: int, size: int, buckets: int)
    requires
        0 <= b < buckets,
        0 <= j < size,
    ensures
        0 <= b * size + j < buckets * size,
        b * size + j <= buckets * size - 1,
{
    assert(b * size + j < (b + 1) * size) by (nonlinear_arith)
        requires
            0 <= j < size,
    ;
    assert((b + 1) * size <= buckets * size) by (nonlinear_arith)
        requires
            b + 1 <= buckets,
            size >= 0,
    ;
    assert(0 <= b * size) by (nonlinear_arith)
        requires
            b >= 0,
            size >= 0,
    ;
}

/// The bucket that hash function `t` of those seeded by `seeds` picks for a
/// key with view `k`, among `buckets` buckets split into one chunk per
/// hash function.
pub open spec fn candidate_bucket<K: TableKey>(seeds: Seq<u64>, buckets: int, k: K::V, t: int) -> int {
    let chunk = buckets / seeds.len() as int;
    t * chunk + (spec_hash::<K>(k, seeds[t]) as int) % chunk
}

/// Slot `j` of that bucket, in buckets of `size` slots.
pub open spec fn candidate_slot<K: TableKey>(
    seeds: Seq<u64>,
    buckets: int,
    size: int,
    k: K::V,
    t: int,
    j: int,
) -> int {
    candidate_bucket::<K>(seeds, buckets, k, t) * size + j
}

/// Whether slot `p` may hold a key with view `k`: one of its candidate
/// slots, or one past the `capacity` slots of the buckets.
pub open spec fn allowed<K: TableKey>(
    seeds: Seq<u64>,
    buckets: int,
    size: int,
    capacity: int,
    k: K::V,
    p: int,
) -> bool {
    ||| p >= capacity
    ||| exists|t: int, j: int|
        0 <= t < seeds.len() && 0 <= j < size && p == #[trigger] candidate_slot::<K>(
            seeds,
            buckets,
            size,
            k,
            t,
            j,
        )
}

/// A map from keys to values in which each key may sit in any slot of `h`
/// candidate buckets, one per hash function.
pub struct HashMap<K: TableKey, V> {
    /// The buckets, `bucket_size` slots each, then the overflow area.
    slots: Vec<Slot<K, V>>,
    bucket_count: usize,
    bucket_size: usize,
    /// `bucket_count * bucket_size`.
    capacity: usize,
    /// One seed per hash function.
    seeds: Vec<u64>,
    length: usize,
    load_factor: LoadFactor,
    pos: Ghost<Map<K::V, int>>,
}

impl<K: TableKey, V> View for HashMap<K, V> {
    type V = Map<K::V, V>;

    closed spec fn view(&self) -> Map<K::V, V> {
        contents(self.slots@, self.pos@)
    }
}

impl<K: TableKey, V> HashMap<K, V> {
    spec fn hashers(&self) -> int {
        self.seeds@.len() as int
    }

    /// Buckets per hash function.
    spec fn chunk(&self) -> int {
        self.bucket_count as int / self.hashers()
    }

    /// The bucket that hash function `t` picks for a key with view `k`.
    spec fn candidate_bucket(&self, k: K::V, t: int) -> int {
        candidate_bucket::<K>(self.seeds@, self.bucket_count as int, k, t)
    }

    /// Slot `j` of the bucket that hash function `t` picks.
    spec fn candidate_slot(&self, k: K::V, t: int, j: int) -> int {
        candidate_slot::<K>(self.seeds@, self.bucket_count as int, self.bucket_size as int, k, t, j)
    }

    /// Whether slot `p` may hold a key with view `k`.
    spec fn allowed(&self, k: K::V, p: int) -> bool {
        allowed::<K>(
            self.seeds@,
            self.bucket_count as int,
            self.bucket_size as int,
            self.capacity as int,
            k,
            p,
        )
    }

    /// The table's internal consistency.
    pub closed spec fn wf(&self) -> bool {
        &&& indexed(self.slots@, self.pos@)
        &&& self.bucket_size > 0
        &&& self.hashers() > 0
        &&& self.capacity == self.bucket_count * self.bucket_size
        &&& self.capacity <= self.slots@.len()
        &&& self.bucket_count == 0 ==> self.slots@.len() == 0
        &&& self.bucket_count == 0 || self.bucket_count >= self.hashers()
        &&& first_capacity(self.hashers(), self.bucket_size as int) <= usize::MAX / 4
        &&& forall|k: K::V| #[trigger] self.pos@.contains_key(k) ==> self.allowed(k, self.pos@[k])
        &&& forall|i: int| 0 <= i < self.slots@.len() ==> !(#[trigger] self.slots@[i] is Tomb)
        &&& self.length == occupied_count(self.slots@)
        &&& self.load_factor.valid()
    }

    pub closed spec fn spec_capacity(&self) -> nat {
        self.capacity as nat
    }

    pub closed spec fn spec_bucket_count(&self) -> nat {
        self.bucket_count as nat
    }

    /// The seeds of the hash functions, one per chunk of buckets.
    pub closed spec fn spec_seeds(&self) -> Seq<u64> {
        self.seeds@
    }

    /// The slot that holds a key with view `k`: below `spec_capacity()` in
    /// a bucket, at or above it in the overflow area.
    pub closed spec fn spec_slot_of(&self, k: K::V) -> int {
        self.pos@[k]
    }

    /// The number of slots in a bucket.
    pub closed spec fn spec_bucket_size(&self) -> nat {
        self.bucket_size as nat
    }

    /// The number of hash functions, each addressing its own chunk of the
    /// bucket array.
    pub closed spec fn spec_hashers(&self) -> nat {
        self.seeds@.len()
    }

    /// The number of slots that the first insert into a table without any
    /// allocates.
    pub open spec fn spec_first_capacity(&self) -> nat {
        first_capacity(self.spec_hashers() as int, self.spec_bucket_size() as int) as nat
    }

    /// Every key sits in a slot of one of its candidate buckets or, when
    /// random evictions and one reseed could not settle it, in the overflow
    /// area past the buckets.
    pub open spec fn placed(&self) -> bool {
        forall|k: K::V| #[trigger]
            self@.contains_key(k) ==> allowed::<K>(
                self.spec_seeds(),
                self.spec_bucket_count() as int,
                self.spec_bucket_size() as int,
                self.spec_capacity() as int,
                k,
                self.spec_slot_of(k),
            )
    }

    pub closed spec fn spec_load_factor(&self) -> LoadFactor {
        self.load_factor
    }

    proof fn lemma_wf(&self)
        requires
            self.wf(),
        ensures
            self@.dom().finite(),
            self@.len() == self.length,
            self.length <= self.slots@.len(),
            self.pos@.dom().finite(),
    {
        lemma_contents_dom(self.slots@, self.pos@);
        lemma_index_len(self.slots@, self.pos@);
        lemma_count_bound(self.slots@);
    }

    /// A consistent table holds finitely many keys, and none when it has
    /// no slots.
    pub proof fn lemma_contents(&self)
        requires
            self.wf(),
        ensures
            self@.dom().finite(),
            self.spec_capacity() == 0 ==> self@ == Map::<K::V, V>::empty(),
            self.spec_bucket_count() * self.spec_bucket_size() == self.spec_capacity(),
            self.spec_seeds().len() == self.spec_hashers(),
            self.placed(),
    {
        self.lemma_wf();
        if self.spec_capacity() == 0 {
            if self.capacity == 0 {
                assert(self.bucket_count == 0) by (nonlinear_arith)
                    requires
                        self.capacity == self.bucket_count * self.bucket_size,
                        self.capacity == 0,
                        self.bucket_size > 0,
                ;
                assert(self.pos@.dom() =~= Set::empty());
            }
            lemma_len_zero_empty(self@);
        }
    }

    /// An empty table with four hash functions, buckets of four slots, the
    /// default load factor of 4/5 and no buckets.
    pub fn new() -> (r: Self)
        ensures
            r.wf(),
            r@ == Map::<K::V, V>::empty(),
            r.spec_capacity() == 0,
            r.spec_load_factor().num() == 4,
            r.spec_load_factor().den() == 5,
            r.spec_bucket_size() == DEFAULT_WAYS,
            r.spec_hashers() == DEFAULT_WAYS,
            r.spec_first_capacity() == DEFAULT_SLOTS,
    {
        proof {
            lemma_first_shape(DEFAULT_WAYS as int, DEFAULT_WAYS as int);
        }
        Self::with_exact_capacity(0, DEFAULT_WAYS, DEFAULT_WAYS, LoadFactor::new(4, 5))
    }

    /// An empty table with room for `capacity` entries: sixteen slots for each.
    pub fn with_capacity(capacity: usize) -> (r: Self)
        requires
            capacity <= usize::MAX / 64,
        ensures
            r.wf(),
            r@ == Map::<K::V, V>::empty(),
            r.spec_capacity() == capacity * 16,
            r.spec_load_factor().num() == 4,
            r.spec_load_factor().den() == 5,
            r.spec_bucket_size() == DEFAULT_WAYS,
            r.spec_hashers() == DEFAULT_WAYS,
            r.spec_first_capacity() == DEFAULT_SLOTS,
    {
        proof {
            lemma_first_shape(DEFAULT_WAYS as int, DEFAULT_WAYS as int);
        }
        Self::with_exact_capacity(capacity * 16, DEFAULT_WAYS, DEFAULT_WAYS, LoadFactor::new(4, 5))
    }

    /// An empty table with four hash functions, buckets of four slots, no
    /// buckets and the given load factor.
    pub fn with_load_factor(load_factor: LoadFactor) -> (r: Self)
        requires
            load_factor.valid(),
        ensures
            r.wf(),
            r@ == Map::<K::V, V>::empty(),
            r.spec_capacity() == 0,
            r.spec_load_factor() == load_factor,
            r.spec_bucket_size() == DEFAULT_WAYS,
            r.spec_hashers() == DEFAULT_WAYS,
            r.spec_first_capacity() == DEFAULT_SLOTS,
    {
        proof {
            lemma_first_shape(DEFAULT_WAYS as int, DEFAULT_WAYS as int);
        }
        Self::with_exact_capacity(0, DEFAULT_WAYS, DEFAULT_WAYS, load_factor)
    }

    /// Fresh seeds, one per hash function.
    fn fresh_seeds(hashers: usize) -> (r: Vec<u64>)
        ensures
            r@.len() == hashers,
    {
        let mut seeds: Vec<u64> = Vec::new();
        while seeds.len() < hashers
            invariant
                seeds@.len() <= hashers,
            decreases hashers - seeds@.len(),
        {
            seeds.push(random_seed());
        }
        seeds
    }

    /// An empty table with exactly `capacity` slots in buckets of
    /// `bucket_size`, addressed by `hasher_amount` hash functions.
    pub fn with_exact_capacity(
        capacity: usize,
        bucket_size: usize,
        hasher_amount: usize,
        load_factor: LoadFactor,
    ) -> (r: Self)
        requires
            load_factor.valid(),
            bucket_size > 0,
            hasher_amount > 0,
            capacity == 0 || capacity >= bucket_size * hasher_amount,
            capacity % bucket_size == 0,
            capacity % hasher_amount == 0,
            first_capacity(hasher_amount as int, bucket_size as int) <= usize::MAX / 4,
        ensures
            r.wf(),
            r@ == Map::<K::V, V>::empty(),
            r.spec_capacity() == capacity,
            r.spec_bucket_count() == capacity / bucket_size,
            r.spec_bucket_size() == bucket_size,
            r.spec_hashers() == hasher_amount,
            r.spec_load_factor() == load_factor,
    {
        let bucket_count = capacity / bucket_size;
        proof {
            vstd::arithmetic::div_mod::lemma_fundamental_div_mod(capacity as int, bucket_size as int);
            assert(capacity == bucket_count * bucket_size) by (nonlinear_arith)
                requires
                    capacity == bucket_size * (capacity / bucket_size) + capacity % bucket_size,
                    capacity % bucket_size == 0,
                    bucket_count == capacity / bucket_size,
            ;
            if capacity > 0 {
                assert(bucket_count >= hasher_amount) by (nonlinear_arith)
                    requires
                        capacity >= bucket_size * hasher_amount,
                        capacity == bucket_size * bucket_count,
                        bucket_size > 0,
                ;
            }
        }
        let slots = empty_slots(capacity);
        let seeds = Self::fresh_seeds(hasher_amount);
        let r = HashMap {
            slots,
            bucket_count,
            bucket_size,
            capacity,
            seeds,
            length: 0,
            load_factor,
            pos: Ghost(Map::empty()),
        };
        assert(r@ =~= Map::empty());
        r
    }

    pub fn len(&self) -> (r: usize)
        requires
            self.wf(),
        ensures
            r == self@.len(),
            self@.dom().finite(),
    {
        proof {
            self.lemma_wf();
        }
        self.length
    }

    pub fn is_empty(&self) -> (r: bool)
        requires
            self.wf(),
        ensures
            r == (self@.len() == 0),
    {
        proof {
            self.lemma_wf();
        }
        self.length == 0
    }

    /// The number of slots in buckets.
    pub fn capacity(&self) -> (r: usize)
        ensures
            r == self.spec_capacity(),
    {
        self.capacity
    }

    /// The number of buckets.
    pub fn bucket_count(&self) -> (r: usize)
        ensures
            r == self.spec_bucket_count(),
    {
        self.bucket_count
    }

    /// Live entries per slot; zero when there are no slots.
    pub fn fill_factor(&self) -> (r: Ratio)
        requires
            self.wf(),
        ensures
            (r.numerator == 0) == (self@.len() == 0),
            self.spec_capacity() == 0 ==> r == (Ratio { numerator: 0, denominator: 1 }),
            self.spec_capacity() > 0 ==> r == (Ratio {
                numerator: self@.len() as usize,
                denominator: self.spec_capacity() as usize,
            }),
    {
        proof {
            self.lemma_contents();
            self.lemma_wf();
        }
        Ratio::of(self.length, self.capacity)
    }

    /// Removes every entry; the buckets stay allocated.
    pub fn clear(&mut self)
        requires
            old(self).wf(),
        ensures
            final(self).wf(),
            final(self)@ == Map::<K::V, V>::empty(),
            final(self).spec_capacity() == old(self).spec_capacity(),
            final(self).spec_load_factor() == old(self).spec_load_factor(),
    {
        self.slots = empty_slots(self.capacity);
        self.length = 0;
        self.pos = Ghost(Map::empty());
        assert(self@ =~= Map::empty());
    }

    /// The bucket that hash function `t` picks for `key`.
    fn bucket_of(&self, key: &K, t: usize) -> (r: usize)
        requires
            self.wf(),
            self.bucket_count > 0,
            t < self.hashers(),
        ensures
            r == self.candidate_bucket(key@, t as int),
            r < self.bucket_count,
    {
        let chunk = self.bucket_count / self.seeds.len();
        proof {
            lemma_chunk_positive(self.bucket_count as int, self.hashers());
        }
        let h = hash_key(key, self.seeds[t]);
        let r = (h % (chunk as u64)) as usize;
        proof {
            lemma_bucket_in_chunk(
                t as int,
                r as int,
                chunk as int,
                self.hashers(),
                self.bucket_count as int,
            );
        }
        t * chunk + r
    }

    /// An empty candidate slot of `key`, if there is one.
    fn find_empty(&self, key: &K) -> (r: Option<usize>)
        requires
            self.wf(),
            self.bucket_count > 0,
        ensures
            match r {
                Some(i) => i < self.capacity && self.slots@[i as int] is Empty && self.allowed(
                    key@,
                    i as int,
                ),
                None => forall|t: int, j: int|
                    0 <= t < self.hashers() && 0 <= j < self.bucket_size ==> !(#[trigger] self.slots@[self.candidate_slot(
                        key@,
                        t,
                        j,
                    )] is Empty),
            },
    {
        let hashers = self.seeds.len();
        let mut t: usize = 0;
        while t < hashers
            invariant
                self.wf(),
                self.bucket_count > 0,
                hashers == self.hashers(),
                t <= hashers,
                forall|t2: int, j: int|
                    0 <= t2 < t && 0 <= j < self.bucket_size ==> !(#[trigger] self.slots@[self.candidate_slot(
                        key@,
                        t2,
                        j,
                    )] is Empty),
            decreases hashers - t,
        {
            let b = self.bucket_of(key, t);
            let mut j: usize = 0;
            while j < self.bucket_size
                invariant
                    self.wf(),
                    self.bucket_count > 0,
                    hashers == self.hashers(),
                    t < hashers,
                    b == self.candidate_bucket(key@, t as int),
                    b < self.bucket_count,
                    j <= self.bucket_size,
                    forall|t2: int, j2: int|
                        0 <= t2 < t && 0 <= j2 < self.bucket_size ==> !(#[trigger] self.slots@[self.candidate_slot(
                            key@,
                            t2,
                            j2,
                        )] is Empty),
                    forall|j2: int|
                        0 <= j2 < j ==> !(#[trigger] self.slots@[self.candidate_slot(key@, t as int, j2)] is Empty),
                decreases self.bucket_size - j,
            {
                proof {
                    lemma_slot_in_bucket(
                        b as int,
                        j as int,
                        self.bucket_size as int,
                        self.bucket_count as int,
                    );
                }
                let i = b * self.bucket_size + j;
                if matches!(self.slots[i], Slot::Empty) {
                    assert(self.candidate_slot(key@, t as int, j as int) == i);
                    return Some(i);
                }
                j = j + 1;
            }
            t = t + 1;
        }
        None
    }

    /// Puts an absent key into the empty slot `i`, one that it may occupy.
    fn put_at(&mut self, i: usize, key: K, value: V)
        requires
            old(self).wf(),
            i < old(self).slots@.len(),
            old(self).slots@[i as int] is Empty,
            !old(self).pos@.contains_key(key@),
            old(self).allowed(key@, i as int),
        ensures
            final(self).wf(),
            final(self)@ == old(self)@.insert(key@, value),
            final(self).slots@.len() == old(self).slots@.len(),
            final(self).bucket_count == old(self).bucket_count,
            final(self).bucket_size == old(self).bucket_size,
            final(self).capacity == old(self).capacity,
            final(self).seeds == old(self).seeds,
            final(self).load_factor == old(self).load_factor,
    {
        let slot_count = self.slots.len();
        let ghost s0 = self.slots@;
        let ghost p0 = self.pos@;
        let ghost kv = key@;
        let mut x = Slot::Occupied(key, value);
        let ghost xg = x;
        std::mem::swap(&mut self.slots[i], &mut x);
        proof {
            assert(self.slots@ == s0.update(i as int, xg));
            lemma_update(s0, p0, i as int, xg);
            lemma_count_update(s0, i as int, xg);
            lemma_count_bound(self.slots@);
            assert(self.length < slot_count);
        }
        self.pos = Ghost(reindexed(s0, p0, i as int, xg));
        self.length = self.length + 1;
        proof {
            assert(self.pos@ == p0.insert(kv, i as int));
            assert forall|k: K::V| #[trigger] self.pos@.contains_key(k) implies self.allowed(k, self.pos@[k]) by {
                if k != kv {
                    assert(p0.contains_key(k));
                }
            }
            assert(self@ =~= contents(s0, p0).insert(kv, value));
        }
    }

    /// Puts an absent key into the occupied slot `i`, one that it may
    /// occupy, and hands back the entry that held it.
    fn evict_at(&mut self, i: usize, key: K, value: V) -> (r: (K, V))
        requires
            old(self).wf(),
            i < old(self).slots@.len(),
            old(self).slots@[i as int] is Occupied,
            !old(self).pos@.contains_key(key@),
            old(self).allowed(key@, i as int),
        ensures
            final(self).wf(),
            !final(self).pos@.contains_key(r.0@),
            final(self)@.insert(r.0@, r.1) == old(self)@.insert(key@, value),
            final(self).slots@.len() == old(self).slots@.len(),
            final(self).bucket_count == old(self).bucket_count,
            final(self).bucket_size == old(self).bucket_size,
            final(self).capacity == old(self).capacity,
            final(self).seeds == old(self).seeds,
            final(self).load_factor == old(self).load_factor,
            final(self).length == old(self).length,
    {
        let ghost s0 = self.slots@;
        let ghost p0 = self.pos@;
        let ghost kv = key@;
        let ghost m0 = self@;
        let mut x = Slot::Occupied(key, value);
        let ghost xg = x;
        std::mem::swap(&mut self.slots[i], &mut x);
        let ghost ev = s0[i as int].key_view();
        proof {
            assert(self.slots@ == s0.update(i as int, xg));
            lemma_update(s0, p0, i as int, xg);
            lemma_count_update(s0, i as int, xg);
        }
        self.pos = Ghost(reindexed(s0, p0, i as int, xg));
        proof {
            assert(self.pos@ == p0.remove(ev).insert(kv, i as int));
            assert(p0.contains_key(ev));
            assert forall|k: K::V| #[trigger] self.pos@.contains_key(k) implies self.allowed(k, self.pos@[k]) by {
                if k != kv {
                    assert(p0.contains_key(k));
                }
            }
        }
        match x {
            Slot::Occupied(k, v) => {
                proof {
                    assert(k@ == ev);
                    assert(self@ == m0.remove(ev).insert(kv, value));
                    assert(self@.insert(k@, v) =~= m0.insert(kv, value));
                }
                (k, v)
            },
            _ => vstd::pervasive::unreached(),
        }
    }

    /// Places an absent key in an empty candidate slot, or else evicts the
    /// entry of a candidate slot chosen at random and goes on with that
    /// entry, for at most `len() + 1` rounds. Hands back the entry left
    /// without a slot when the rounds run out.
    fn settle(&mut self, key: K, value: V) -> (r: Option<(K, V)>)
        requires
            old(self).wf(),
            old(self).bucket_count > 0,
            !old(self).pos@.contains_key(key@),
        ensures
            final(self).wf(),
            final(self).slots@.len() == old(self).slots@.len(),
            final(self).bucket_count == old(self).bucket_count,
            final(self).bucket_size == old(self).bucket_size,
            final(self).capacity == old(self).capacity,
            final(self).seeds == old(self).seeds,
            final(self).load_factor == old(self).load_factor,
            match r {
                None => final(self)@ == old(self)@.insert(key@, value),
                Some(h) => !final(self).pos@.contains_key(h.0@) && final(self)@.insert(h.0@, h.1)
                    == old(self)@.insert(key@, value),
            },
    {
        let ghost target = self@.insert(key@, value);
        let mut k = key;
        let mut v = value;
        let mut rounds = self.length;
        proof {
            assert(self.seeds@.len() * self.bucket_size <= self.bucket_count * self.bucket_size)
                by (nonlinear_arith)
                requires
                    self.seeds@.len() <= self.bucket_count,
            ;
        }
        let ways = self.seeds.len() * self.bucket_size;
        proof {
            assert(ways > 0) by (nonlinear_arith)
                requires
                    ways == self.seeds@.len() * self.bucket_size,
                    self.seeds@.len() > 0,
                    self.bucket_size > 0,
            ;
        }
        loop
            invariant
                self.wf(),
                self.bucket_count > 0,
                ways == self.hashers() * self.bucket_size,
                ways > 0,
                self.slots@.len() == old(self).slots@.len(),
                self.bucket_count == old(self).bucket_count,
                self.bucket_size == old(self).bucket_size,
                self.capacity == old(self).capacity,
                self.seeds == old(self).seeds,
                self.load_factor == old(self).load_factor,
                !self.pos@.contains_key(k@),
                self@.insert(k@, v) == target,
                target == old(self)@.insert(key@, value),
            decreases rounds,
        {
            match self.find_empty(&k) {
                Some(i) => {
                    self.put_at(i, k, v);
                    return None;
                },
                None => {},
            }
            let c = random_below(ways);
            let t = c / self.bucket_size;
            let j = c % self.bucket_size;
            proof {
                assert(t < self.hashers()) by (nonlinear_arith)
                    requires
                        c < self.hashers() * self.bucket_size,
                        t == c / self.bucket_size,
                        self.bucket_size > 0,
                ;
            }
            let b = self.bucket_of(&k, t);
            proof {
                lemma_slot_in_bucket(
                    b as int,
                    j as int,
                    self.bucket_size as int,
                    self.bucket_count as int,
                );
            }
            let i = b * self.bucket_size + j;
            assert(self.candidate_slot(k@, t as int, j as int) == i);
            assert(!(self.slots@[i as int] is Empty));
            assert(!(self.slots@[i as int] is Tomb));
            let (k2, v2) = self.evict_at(i, k, v);
            k = k2;
            v = v2;
            if rounds == 0 {
                return Some((k, v));
            }
            rounds = rounds - 1;
        }
    }

    /// Appends an absent key to the overflow area.
    fn stash(&mut self, key: K, value: V)
        requires
            old(self).wf(),
            old(self).bucket_count > 0,
            !old(self).pos@.contains_key(key@),
        ensures
            final(self).wf(),
            final(self)@ == old(self)@.insert(key@, value),
            final(self).bucket_count == old(self).bucket_count,
            final(self).bucket_size == old(self).bucket_size,
            final(self).capacity == old(self).capacity,
            final(self).seeds == old(self).seeds,
            final(self).load_factor == old(self).load_factor,
    {
        proof {
            lemma_push_empty(self.slots@, self.pos@);
            lemma_count_push(self.slots@, Slot::<K, V>::Empty);
        }
        let i = self.slots.len();
        self.slots.push(Slot::Empty);
        assert(self.capacity <= i);
        self.put_at(i, key, value);
    }

    /// Rebuilds the table with `new_bucket_count` buckets of the same size
    /// and freshly drawn seeds.
    fn rebuild(&mut self, new_bucket_count: usize)
        requires
            old(self).wf(),
            new_bucket_count >= old(self).hashers(),
            new_bucket_count * old(self).bucket_size <= usize::MAX,
        ensures
            final(self).wf(),
            final(self)@ == old(self)@,
            final(self).bucket_count == new_bucket_count,
            final(self).bucket_size == old(self).bucket_size,
            final(self).capacity == new_bucket_count * old(self).bucket_size,
            final(self).seeds@.len() == old(self).seeds@.len(),
            final(self).load_factor == old(self).load_factor,
    {
        proof {
            self.lemma_wf();
        }
        let ghost m0 = self@;
        let ghost pos0 = self.pos@;
        let capacity = new_bucket_count * self.bucket_size;
        let mut old_slots = empty_slots(capacity);
        std::mem::swap(&mut self.slots, &mut old_slots);
        self.bucket_count = new_bucket_count;
        self.capacity = capacity;
        self.seeds = Self::fresh_seeds(self.seeds.len());
        self.pos = Ghost(Map::empty());
        self.length = 0;
        assert(self@ =~= Map::empty());
        let mut entries = drain_slots(&mut old_slots, Ghost(pos0));
        proof {
            lemma_pairs_map_finite(entries@);
        }
        while entries.len() > 0
            invariant
                self.wf(),
                self.bucket_count == new_bucket_count,
                new_bucket_count >= self.hashers() > 0,
                self.bucket_size == old(self).bucket_size,
                self.capacity == new_bucket_count * old(self).bucket_size,
                self.seeds@.len() == old(self).seeds@.len(),
                self.load_factor == old(self).load_factor,
                distinct_keys(entries@),
                pairs_map(entries@).dom().finite(),
                self@.dom().disjoint(pairs_map(entries@).dom()),
                self@.union_prefer_right(pairs_map(entries@)) == m0,
            decreases entries@.len(),
        {
            let ghost before = entries@;
            let (k, v) = entries.pop().unwrap();
            proof {
                assert(before.drop_last() =~= entries@);
                assert(pairs_map(before) == pairs_map(entries@).insert(k@, v));
                assert forall|j: int| 0 <= j < entries@.len() implies (#[trigger] entries@[j]).0@ != k@ by {
                    assert(before[j] == entries@[j]);
                    assert(before[before.len() - 1].0@ == k@);
                }
                lemma_pairs_map_has(entries@, k@);
                lemma_pairs_map_finite(entries@);
                lemma_contents_dom(self.slots@, self.pos@);
            }
            match self.settle(k, v) {
                None => {},
                Some((hk, hv)) => {
                    self.stash(hk, hv);
                },
            }
            proof {
                assert(self@.union_prefer_right(pairs_map(entries@)) =~= m0);
            }
        }
        assert(self@ =~= m0);
    }

    /// Replaces the value of the key held in slot `i`.
    fn replace_at(&mut self, i: usize, key: K, value: V) -> (r: V)
        requires
            old(self).wf(),
            old(self).pos@.contains_key(key@),
            old(self).pos@[key@] == i,
        ensures
            final(self).wf(),
            final(self)@ == old(self)@.insert(key@, value),
            old(self)@.get(key@) == Some(r),
            final(self).slots@.len() == old(self).slots@.len(),
            final(self).capacity == old(self).capacity,
            final(self).bucket_count == old(self).bucket_count,
            final(self).bucket_size == old(self).bucket_size,
            final(self).seeds == old(self).seeds,
            final(self).load_factor == old(self).load_factor,
    {
        let ghost s0 = self.slots@;
        let ghost p0 = self.pos@;
        let ghost m0 = self@;
        let mut x = Slot::Occupied(key, value);
        let ghost xg = x;
        std::mem::swap(&mut self.slots[i], &mut x);
        proof {
            assert(self.slots@ == s0.update(i as int, xg));
            lemma_update(s0, p0, i as int, xg);
            lemma_count_update(s0, i as int, xg);
            assert(reindexed(s0, p0, i as int, xg) =~= p0);
            assert(self@ =~= m0.insert(key@, value));
        }
        match x {
            Slot::Occupied(_, old_value) => old_value,
            _ => vstd::pervasive::unreached(),
        }
    }

    /// Stores `value` under `key` and returns the value it replaces, if any.
    /// An entry that a bounded run of evictions cannot settle, even after
    /// the hash functions are reseeded once, goes to the overflow area.
    /// Grows the table first when its fill factor has reached the load
    /// factor; reseeds the hash functions once when evictions run out.
    pub fn insert(&mut self, key: K, value: V) -> (r: Option<V>)
        requires
            old(self).wf(),
            old(self).spec_capacity() <= usize::MAX / 4,
        ensures
            final(self).wf(),
            r == old(self)@.get(key@),
            final(self)@ == old(self)@.insert(key@, value),
            final(self).spec_load_factor() == old(self).spec_load_factor(),
            final(self).spec_bucket_size() == old(self).spec_bucket_size(),
            final(self).spec_hashers() == old(self).spec_hashers(),
            final(self).spec_bucket_count() * final(self).spec_bucket_size() == final(self).spec_capacity(),
            final(self).spec_capacity() == old(self).spec_load_factor().grown(
                old(self)@.len(),
                old(self).spec_capacity(),
                old(self).spec_first_capacity(),
            ),
            old(self).spec_load_factor().within(old(self)@.len(), old(self).spec_capacity())
                && old(self).spec_load_factor().num() * (if old(self).spec_capacity() == 0 {
                old(self).spec_first_capacity()
            } else {
                old(self).spec_capacity()
            }) >= old(self).spec_load_factor().den() ==> final(self).spec_load_factor().within(
                final(self)@.len(),
                final(self).spec_capacity(),
            ),
            final(self).placed(),
    {
        let ghost count0 = self@.len();
        let ghost cap0 = self.capacity as nat;
        let ghost first = self.spec_first_capacity();
        proof {
            self.lemma_wf();
            if cap0 == 0 {
                assert(self.bucket_count == 0) by (nonlinear_arith)
                    requires
                        self.capacity == self.bucket_count * self.bucket_size,
                        self.capacity == 0,
                        self.bucket_size > 0,
                ;
                assert(self.pos@.dom() =~= Set::empty());
            } else {
                assert(self.bucket_count != 0);
            }
        }
        if self.bucket_count == 0 {
            let hashers = self.seeds.len();
            proof {
                lemma_first_shape(hashers as int, self.bucket_size as int);
            }
            let per = hashers * self.bucket_size;
            let buckets = hashers * ((DEFAULT_SLOTS + per - 1) / per);
            proof {
                assert(buckets * self.bucket_size == first_capacity(hashers as int, self.bucket_size as int));
            }
            self.rebuild(buckets);
            proof {
                self.lemma_wf();
            }
        }
        if self.load_factor.is_reached(self.length, self.capacity) {
            let c = self.bucket_count;
            proof {
                assert(self.capacity <= usize::MAX / 4);
                assert(c * 2 * self.bucket_size <= usize::MAX) by (nonlinear_arith)
                    requires
                        c * self.bucket_size <= usize::MAX / 4,
                ;
                assert(c <= self.capacity) by (nonlinear_arith)
                    requires
                        self.capacity == c * self.bucket_size,
                        self.bucket_size > 0,
                ;
            }
            let ghost before = self.capacity;
            self.rebuild(c * 2);
            proof {
                assert(self.capacity == 2 * before) by (nonlinear_arith)
                    requires
                        self.capacity == (c * 2) * self.bucket_size,
                        before == c * self.bucket_size,
                ;
            }
        }
        assert(self.capacity == self.load_factor.grown(count0, cap0, first));
        let ghost cap1 = self.capacity;
        let r = match self.locate(&key) {
            Some(i) => Some(self.replace_at(i, key, value)),
            None => {
                match self.settle(key, value) {
                    None => {},
                    Some((k, v)) => {
                        let c = self.bucket_count;
                        proof {
                            lemma_contents_dom(self.slots@, self.pos@);
                        }
                        self.rebuild(c);
                        proof {
                            lemma_contents_dom(self.slots@, self.pos@);
                        }
                        match self.settle(k, v) {
                            None => {},
                            Some((k2, v2)) => {
                                self.stash(k2, v2);
                            },
                        }
                    },
                }
                None
            },
        };
        proof {
            self.lemma_wf();
            assert(self@.dom() == old(self)@.dom().insert(key@));
            assert(self.capacity == cap1);
            if self.load_factor.within(count0, cap0) && self.load_factor.num() * (if cap0 == 0 {
                first
            } else {
                cap0
            }) >= self.load_factor.den() {
                self.load_factor.lemma_stays_within(count0, cap0, first, self@.len());
            }
        }
        proof {
            self.lemma_contents();
        }
        r
    }

    /// The value stored under `key`, if any: it looks in the key's candidate
    /// slots, then in the overflow area, which is empty unless an insert
    /// could not settle an entry even after reseeding.
    pub fn get(&self, key: &K) -> (r: Option<&V>)
        requires
            self.wf(),
        ensures
            refers_to(r, self@.get(key@)),
    {
        proof {
            self.lemma_wf();
        }
        if self.length == 0 {
            proof {
                lemma_len_zero_empty(self@);
            }
            return None;
        }
        match self.locate(key) {
            Some(i) => match &self.slots[i] {
                Slot::Occupied(_, v) => Some(v),
                _ => None,
            },
            None => None,
        }
    }

    /// Removes `key` and returns its value, if it was present. Like `get`, it
    /// looks in the key's candidate slots, then in the overflow area.
    pub fn remove(&mut self, key: &K) -> (r: Option<V>)
        requires
            old(self).wf(),
        ensures
            final(self).wf(),
            r == old(self)@.get(key@),
            final(self)@ == old(self)@.remove(key@),
            final(self).spec_capacity() == old(self).spec_capacity(),
            final(self).spec_load_factor() == old(self).spec_load_factor(),
    {
        proof {
            self.lemma_wf();
        }
        if self.length == 0 {
            proof {
                lemma_len_zero_empty(self@);
            }
            assert(self@.remove(key@) =~= self@);
            return None;
        }
        match self.locate(key) {
            Some(i) => {
                let ghost s0 = self.slots@;
                let ghost p0 = self.pos@;
                let mut x = Slot::Empty;
                std::mem::swap(&mut self.slots[i], &mut x);
                proof {
                    assert(self.slots@ == s0.update(i as int, Slot::Empty));
                    lemma_update(s0, p0, i as int, Slot::Empty);
                    lemma_count_update(s0, i as int, Slot::Empty);
                }
                self.pos = Ghost(reindexed(s0, p0, i as int, Slot::Empty));
                self.length = self.length - 1;
                proof {
                    assert(self.pos@ == p0.remove(key@));
                    assert forall|k: K::V| #[trigger] self.pos@.contains_key(k) implies self.allowed(k, self.pos@[k]) by {
                        assert(p0.contains_key(k));
                    }
                    assert(self@ =~= contents(s0, p0).remove(key@));
                }
                match x {
                    Slot::Occupied(_, v) => Some(v),
                    _ => None,
                }
            },
            None => {
                assert(self@.remove(key@) =~= self@);
                None
            },
        }
    }

    /// A mutable reference to the value stored under `key`, if any.
    pub fn get_mut(&mut self, key: &K) -> (r: Option<&mut V>)
        requires
            old(self).wf(),
        ensures
            match r {
                Some(v) => {
                    &&& old(self)@.get(key@) == Some(*v)
                    &&& final(self).wf()
                    &&& final(self)@ == old(self)@.insert(key@, *final(v))
                    &&& final(self).spec_capacity() == old(self).spec_capacity()
                    &&& final(self).spec_load_factor() == old(self).spec_load_factor()
                },
                None => !old(self)@.contains_key(key@) && *final(self) == *old(self),
            },
    {
        proof {
            self.lemma_wf();
        }
        if self.length == 0 {
            proof {
                lemma_len_zero_empty(self@);
            }
            return None;
        }
        match self.locate(key) {
            Some(i) => {
                let ghost before = *self;
                let ghost k0 = self.slots@[i as int]->Occupied_0;
                proof {
                    assert forall|b: Self|
                        #![trigger b.wf()]
                        #![trigger b.view()]
                        b.slots@ == before.slots@.update(
                            i as int,
                            Slot::Occupied(k0, b.slots@[i as int]->Occupied_1),
                        ) && b.pos == before.pos && b.length == before.length && b.capacity
                            == before.capacity && b.seeds == before.seeds && b.bucket_count
                            == before.bucket_count && b.bucket_size == before.bucket_size
                            && b.load_factor == before.load_factor implies b.wf() && b@ == before@.insert(
                        k0@,
                        b.slots@[i as int]->Occupied_1,
                    ) by {
                        let x = Slot::Occupied(k0, b.slots@[i as int]->Occupied_1);
                        lemma_update(before.slots@, before.pos@, i as int, x);
                        lemma_count_update(before.slots@, i as int, x);
                        assert(reindexed(before.slots@, before.pos@, i as int, x) =~= before.pos@);
                        assert(b@ =~= before@.insert(k0@, b.slots@[i as int]->Occupied_1));
                    }
                }
                let v = value_mut(&mut self.slots[i]);
                Some(v)
            },
            None => None,
        }
    }

    /// The slot that holds `key`: one of its candidate slots or one in the
    /// overflow area.
    fn locate(&self, key: &K) -> (r: Option<usize>)
        requires
            self.wf(),
            self.bucket_count > 0,
        ensures
            match r {
                Some(i) => self.pos@.contains_key(key@) && self.pos@[key@] == i,
                None => !self.pos@.contains_key(key@),
            },
    {
        let hashers = self.seeds.len();
        let mut t: usize = 0;
        while t < hashers
            invariant
                self.wf(),
                self.bucket_count > 0,
                hashers == self.hashers(),
                t <= hashers,
                forall|t2: int, j: int|
                    0 <= t2 < t && 0 <= j < self.bucket_size ==> !(#[trigger] self.slots@[self.candidate_slot(
                        key@,
                        t2,
                        j,
                    )]).holds(key@),
            decreases hashers - t,
        {
            let b = self.bucket_of(key, t);
            let mut j: usize = 0;
            while j < self.bucket_size
                invariant
                    self.wf(),
                    self.bucket_count > 0,
                    hashers == self.hashers(),
                    t < hashers,
                    b == self.candidate_bucket(key@, t as int),
                    b < self.bucket_count,
                    j <= self.bucket_size,
                    forall|t2: int, j2: int|
                        0 <= t2 < t && 0 <= j2 < self.bucket_size ==> !(#[trigger] self.slots@[self.candidate_slot(
                            key@,
                            t2,
                            j2,
                        )]).holds(key@),
                    forall|j2: int|
                        0 <= j2 < j ==> !(#[trigger] self.slots@[self.candidate_slot(key@, t as int, j2)]).holds(
                            key@,
                        ),
                decreases self.bucket_size - j,
            {
                proof {
                    lemma_slot_in_bucket(
                        b as int,
                        j as int,
                        self.bucket_size as int,
                        self.bucket_count as int,
                    );
                }
                let i = b * self.bucket_size + j;
                if self.slots[i].holds_key(key) {
                    return Some(i);
                }
                j = j + 1;
            }
            t = t + 1;
        }
        let mut i = self.capacity;
        while i < self.slots.len()
            invariant
                self.wf(),
                self.capacity <= i <= self.slots@.len(),
                forall|t2: int, j: int|
                    0 <= t2 < self.hashers() && 0 <= j < self.bucket_size ==> !(#[trigger] self.slots@[self.candidate_slot(
                        key@,
                        t2,
                        j,
                    )]).holds(key@),
                forall|j: int| self.capacity <= j < i ==> !(#[trigger] self.slots@[j]).holds(key@),
            decreases self.slots@.len() - i,
        {
            if self.slots[i].holds_key(key) {
                return Some(i);
            }
            i = i + 1;
        }
        proof {
            if self.pos@.contains_key(key@) {
                let p = self.pos@[key@];
                assert(self.slots@[p].holds(key@));
                assert(self.allowed(key@, p));
                if p < self.capacity {
                    let (t, j) = choose|t: int, j: int|
                        0 <= t < self.seeds@.len() && 0 <= j < self.bucket_size && p
                            == #[trigger] candidate_slot::<K>(
                            self.seeds@,
                            self.bucket_count as int,
                            self.bucket_size as int,
                            key@,
                            t,
                            j,
                        );
                    assert(!self.slots@[self.candidate_slot(key@, t, j)].holds(key@));
                }
            }
        }
        None
    }
}

impl<K: TableKey, V> Default for HashMap<K, V> {
    /// The same as `new`.
    fn default() -> (r: Self)
        ensures
            r.wf(),
            r@ == Map::<K::V, V>::empty(),
            r.spec_capacity() == 0,
    {
        Self::new()
    }
}

} // verus!
