//! Two-choice cuckoo hashing: every key lives in its slot of table A or its
//! slot of table B, with an overflow area for entries that a bounded run of
//! evictions could not settle even after the hash functions were reseeded.
use crate::key::{hash_key, spec_hash, TableKey};
use crate::load::{LoadFactor, Ratio};
use crate::model::{lemma_len_zero_empty, refers_to};
use crate::random::random_seed;
use crate::slots::{
    contents, distinct_keys, drain_slots, empty_slots, indexed, lemma_contents_dom,
    lemma_count_bound, lemma_count_push, lemma_count_update, lemma_index_len,
    lemma_pairs_map_finite, lemma_pairs_map_has, lemma_push_empty, lemma_update, occupied_count,
    pairs_map, reindexed, value_mut, Slot,
};
use vstd::prelude::*;

verus! {

/// Slots allocated by the first insert into a table built without any.
pub const DEFAULT_SLOTS: usize = 64;

/// The slot of a key with view `k` in table A, which spans `0..capacity / 2`.
pub open spec fn index_a<K: TableKey>(k: K::V, seed: u64, capacity: int) -> int {
    (spec_hash::<K>(k, seed) as int) % (capacity / 2)
}

/// The slot of a key with view `k` in table B, which spans
/// `capacity / 2..capacity`.
pub open spec fn index_b<K: TableKey>(k: K::V, seed: u64, capacity: int) -> int {
    capacity / 2 + (spec_hash::<K>(k, seed) as int) % (capacity - capacity / 2)
}

/// A map from keys to values in which each key has one candidate slot in
/// each of two tables, each table addressed by its own seeded hash function.
pub struct HashMap<K: TableKey, V> {
    /// Table A, then table B, then the overflow area.
    slots: Vec<Slot<K, V>>,
    /// The number of slots of tables A and B together.
    capacity: usize,
    length: usize,
    seed_a: u64,
    seed_b: u64,
    load_factor: LoadFactor,
    pos: Ghost<Map<K::V, int>>,
}

impl<K: TableKey, V> View for HashMap<K, V> {
    type V = Map<K::V, V>;

    closed spec fn view(&self) -> Map<K::V, V> {
        contents(self.slots@, self.pos@)
    }
}

impl<K: TableKey, V> HashMap<K, V> {
    /// Whether slot `p` may hold a key with view `k`.
    spec fn allowed(&self, k: K::V, p: int) -> bool {
        ||| p == index_a::<K>(k, self.seed_a, self.capacity as int)
        ||| p == index_b::<K>(k, self.seed_b, self.capacity as int)
        ||| p >= self.capacity
    }

    /// The table's internal consistency.
    pub closed spec fn wf(&self) -> bool {
        &&& indexed(self.slots@, self.pos@)
        &&& self.capacity <= self.slots@.len()
        &&& self.capacity == 0 ==> self.slots@.len() == 0
        &&& self.capacity == 0 || self.capacity >= 2
        &&& forall|k: K::V| #[trigger] self.pos@.contains_key(k) ==> self.allowed(k, self.pos@[k])
        &&& forall|i: int| 0 <= i < self.slots@.len() ==> !(#[trigger] self.slots@[i] is Tomb)
        &&& self.length == occupied_count(self.slots@)
        &&& self.load_factor.valid()
    }

    pub closed spec fn spec_capacity(&self) -> nat {
        self.capacity as nat
    }

    /// The seeds of the hash functions of tables A and B.
    pub closed spec fn spec_seeds(&self) -> (u64, u64) {
        (self.seed_a, self.seed_b)
    }

    /// The slot that holds a key with view `k`: below `spec_capacity()` in
    /// table A or B, at or above it in the overflow area.
    pub closed spec fn spec_slot_of(&self, k: K::V) -> int {
        self.pos@[k]
    }

    /// Every key sits in its slot of table A, its slot of table B, or, when
    /// evictions and one reseed could not settle it, in the overflow area
    /// past both tables.
    pub open spec fn placed(&self) -> bool {
        forall|k: K::V| #[trigger] self@.contains_key(k) ==> {
            ||| self.spec_slot_of(k) == index_a::<K>(k, self.spec_seeds().0, self.spec_capacity() as int)
            ||| self.spec_slot_of(k) == index_b::<K>(k, self.spec_seeds().1, self.spec_capacity() as int)
            ||| self.spec_slot_of(k) >= self.spec_capacity()
        }
    }

    pub closed spec fn spec_load_factor(&self) -> LoadFactor {
        self.load_factor
    }

    proof fn lemma_wf(&self)
        requires
            self.wf(),
        ensures
            self@.dom().finite(),
            self@.len() == self.length,
            self.length <= self.slots@.len(),
            self.pos@.dom().finite(),
    {
        lemma_contents_dom(self.slots@, self.pos@);
        lemma_index_len(self.slots@, self.pos@);
        lemma_count_bound(self.slots@);
    }

    /// A consistent table holds finitely many keys, and none when it has
    /// no slots.
    pub proof fn lemma_contents(&self)
        requires
            self.wf(),
        ensures
            self@.dom().finite(),
            self.spec_capacity() == 0 ==> self@ == Map::<K::V, V>::empty(),
            self.placed(),
    {
        self.lemma_wf();
        if self.spec_capacity() == 0 {
            if self.capacity == 0 {
                assert(self.pos@.dom() =~= Set::empty());
            }
            lemma_len_zero_empty(self@);
        }
    }

    /// An empty table with the default load factor of 2/5 and no slots.
    pub fn new() -> (r: Self)
        ensures
            r.wf(),
            r@ == Map::<K::V, V>::empty(),
            r.spec_capacity() == 0,
            r.spec_load_factor().num() == 2,
            r.spec_load_factor().den() == 5,
    {
        Self::with_exact_capacity(0, LoadFactor::new(2, 5))
    }

    /// An empty table with room for `capacity` entries: sixteen slots for each.
    pub fn with_capacity(capacity: usize) -> (r: Self)
        requires
            capacity <= usize::MAX / 16,
        ensures
            r.wf(),
            r@ == Map::<K::V, V>::empty(),
            r.spec_capacity() == capacity * 16,
            r.spec_load_factor().num() == 2,
            r.spec_load_factor().den() == 5,
    {
        Self::with_exact_capacity(capacity * 16, LoadFactor::new(2, 5))
    }

    /// An empty table with no slots and the given load factor.
    pub fn with_load_factor(load_factor: LoadFactor) -> (r: Self)
        requires
            load_factor.valid(),
        ensures
            r.wf(),
            r@ == Map::<K::V, V>::empty(),
            r.spec_capacity() == 0,
            r.spec_load_factor() == load_factor,
    {
        Self::with_exact_capacity(0, load_factor)
    }

    /// An empty table with exactly `capacity` slots, split between tables A
    /// and B, and freshly drawn seeds.
    pub fn with_exact_capacity(capacity: usize, load_factor: LoadFactor) -> (r: Self)
        requires
            load_factor.valid(),
            capacity != 1,
        ensures
            r.wf(),
            r@ == Map::<K::V, V>::empty(),
            r.spec_capacity() == capacity,
            r.spec_load_factor() == load_factor,
    {
        let slots = empty_slots(capacity);
        let r = HashMap {
            slots,
            capacity,
            length: 0,
            seed_a: random_seed(),
            seed_b: random_seed(),
            load_factor,
            pos: Ghost(Map::empty()),
        };
        assert(r@ =~= Map::empty());
        r
    }

    pub fn len(&self) -> (r: usize)
        requires
            self.wf(),
        ensures
            r == self@.len(),
            self@.dom().finite(),
    {
        proof {
            self.lemma_wf();
        }
        self.length
    }

    pub fn is_empty(&self) -> (r: bool)
        requires
            self.wf(),
        ensures
            r == (self@.len() == 0),
    {
        proof {
            self.lemma_wf();
        }
        self.length == 0
    }

    /// The number of slots of tables A and B together.
    pub fn capacity(&self) -> (r: usize)
        ensures
            r == self.spec_capacity(),
    {
        self.capacity
    }

    /// Live entries per slot; zero when there are no slots.
    pub fn fill_factor(&self) -> (r: Ratio)
        requires
            self.wf(),
        ensures
            (r.numerator == 0) == (self@.len() == 0),
            self.spec_capacity() == 0 ==> r == (Ratio { numerator: 0, denominator: 1 }),
            self.spec_capacity() > 0 ==> r == (Ratio {
                numerator: self@.len() as usize,
                denominator: self.spec_capacity() as usize,
            }),
    {
        proof {
            self.lemma_contents();
            self.lemma_wf();
        }
        Ratio::of(self.length, self.capacity)
    }

    /// Removes every entry; the slots of tables A and B stay allocated.
    pub fn clear(&mut self)
        requires
            old(self).wf(),
        ensures
            final(self).wf(),
            final(self)@ == Map::<K::V, V>::empty(),
            final(self).spec_capacity() == old(self).spec_capacity(),
            final(self).spec_load_factor() == old(self).spec_load_factor(),
    {
        self.slots = empty_slots(self.capacity);
        self.length = 0;
        self.pos = Ghost(Map::empty());
        assert(self@ =~= Map::empty());
    }

    /// The slot of `key` in table A.
    fn slot_a(&self, key: &K) -> (r: usize)
        requires
            self.wf(),
            self.capacity > 0,
        ensures
            r == index_a::<K>(key@, self.seed_a, self.capacity as int),
            r < self.capacity / 2,
    {
        let h = hash_key(key, self.seed_a);
        (h % ((self.capacity / 2) as u64)) as usize
    }

    /// The slot of `key` in table B.
    fn slot_b(&self, key: &K) -> (r: usize)
        requires
            self.wf(),
            self.capacity > 0,
        ensures
            r == index_b::<K>(key@, self.seed_b, self.capacity as int),
            self.capacity / 2 <= r < self.capacity,
    {
        let h = hash_key(key, self.seed_b);
        self.capacity / 2 + (h % ((self.capacity - self.capacity / 2) as u64)) as usize
    }

    /// The slot that holds `key`: its slot in A, its slot in B, or one in
    /// the overflow area.
    fn locate(&self, key: &K) -> (r: Option<usize>)
        requires
            self.wf(),
            self.capacity > 0,
        ensures
            match r {
                Some(i) => self.pos@.contains_key(key@) && self.pos@[key@] == i,
                None => !self.pos@.contains_key(key@),
            },
    {
        let a = self.slot_a(key);
        if self.slots[a].holds_key(key) {
            return Some(a);
        }
        let b = self.slot_b(key);
        if self.slots[b].holds_key(key) {
            return Some(b);
        }
        let mut i = self.capacity;
        while i < self.slots.len()
            invariant
                self.wf(),
                self.capacity <= i <= self.slots@.len(),
                !self.slots@[a as int].holds(key@),
                !self.slots@[b as int].holds(key@),
                a == index_a::<K>(key@, self.seed_a, self.capacity as int),
                b == index_b::<K>(key@, self.seed_b, self.capacity as int),
                forall|j: int| self.capacity <= j < i ==> !(#[trigger] self.slots@[j]).holds(key@),
            decreases self.slots@.len() - i,
        {
            if self.slots[i].holds_key(key) {
                return Some(i);
            }
            i = i + 1;
        }
        proof {
            if self.pos@.contains_key(key@) {
                assert(self.slots@[self.pos@[key@]].holds(key@));
            }
        }
        None
    }

    /// Puts an absent key into the empty slot `i`, one that it may occupy.
    fn put_at(&mut self, i: usize, key: K, value: V)
        requires
            old(self).wf(),
            i < old(self).slots@.len(),
            old(self).slots@[i as int] is Empty,
            !old(self).pos@.contains_key(key@),
            old(self).allowed(key@, i as int),
        ensures
            final(self).wf(),
            final(self)@ == old(self)@.insert(key@, value),
            final(self).slots@.len() == old(self).slots@.len(),
            final(self).capacity == old(self).capacity,
            final(self).seed_a == old(self).seed_a,
            final(self).seed_b == old(self).seed_b,
            final(self).load_factor == old(self).load_factor,
    {
        let slot_count = self.slots.len();
        let ghost s0 = self.slots@;
        let ghost p0 = self.pos@;
        let ghost kv = key@;
        let mut x = Slot::Occupied(key, value);
        let ghost xg = x;
        std::mem::swap(&mut self.slots[i], &mut x);
        proof {
            assert(self.slots@ == s0.update(i as int, xg));
            lemma_update(s0, p0, i as int, xg);
            lemma_count_update(s0, i as int, xg);
            lemma_count_bound(self.slots@);
            assert(self.length < slot_count);
        }
        self.pos = Ghost(reindexed(s0, p0, i as int, xg));
        self.length = self.length + 1;
        proof {
            assert(self.pos@ == p0.insert(kv, i as int));
            assert forall|k: K::V| #[trigger] self.pos@.contains_key(k) implies self.allowed(k, self.pos@[k]) by {
                if k != kv {
                    assert(p0.contains_key(k));
                }
            }
            assert(self@ =~= contents(s0, p0).insert(kv, value));
        }
    }

    /// Puts an absent key into slot `i`, one of its two candidates, and
    /// hands back the entry that held it.
    fn evict_at(&mut self, i: usize, key: K, value: V) -> (r: (K, V))
        requires
            old(self).wf(),
            i < old(self).capacity,
            old(self).slots@[i as int] is Occupied,
            !old(self).pos@.contains_key(key@),
            old(self).allowed(key@, i as int),
        ensures
            final(self).wf(),
            !final(self).pos@.contains_key(r.0@),
            final(self)@.insert(r.0@, r.1) == old(self)@.insert(key@, value),
            final(self).slots@.len() == old(self).slots@.len(),
            final(self).capacity == old(self).capacity,
            final(self).seed_a == old(self).seed_a,
            final(self).seed_b == old(self).seed_b,
            final(self).load_factor == old(self).load_factor,
            final(self).length == old(self).length,
    {
        let ghost s0 = self.slots@;
        let ghost p0 = self.pos@;
        let ghost kv = key@;
        let ghost m0 = self@;
        let mut x = Slot::Occupied(key, value);
        let ghost xg = x;
        std::mem::swap(&mut self.slots[i], &mut x);
        let ghost ev = s0[i as int].key_view();
        proof {
            assert(self.slots@ == s0.update(i as int, xg));
            lemma_update(s0, p0, i as int, xg);
            lemma_count_update(s0, i as int, xg);
        }
        self.pos = Ghost(reindexed(s0, p0, i as int, xg));
        proof {
            assert(self.pos@ == p0.remove(ev).insert(kv, i as int));
            assert(p0.contains_key(ev));
            assert(ev != kv);
            assert forall|k: K::V| #[trigger] self.pos@.contains_key(k) implies self.allowed(k, self.pos@[k]) by {
                if k != kv {
                    assert(p0.contains_key(k));
                }
            }
        }
        match x {
            Slot::Occupied(k, v) => {
                proof {
                    assert(k@ == ev);
                    assert(self@ == m0.remove(ev).insert(kv, value));
                    assert(self@.insert(k@, v) =~= m0.insert(kv, value));
                }
                (k, v)
            },
            _ => vstd::pervasive::unreached(),
        }
    }

    /// Places an absent key in one of its candidate slots, evicting
    /// occupants in turn for at most `len() + 1` rounds. Hands back the
    /// entry left without a slot when the rounds run out.
    fn settle(&mut self, key: K, value: V) -> (r: Option<(K, V)>)
        requires
            old(self).wf(),
            old(self).capacity > 0,
            !old(self).pos@.contains_key(key@),
        ensures
            final(self).wf(),
            final(self).slots@.len() == old(self).slots@.len(),
            final(self).capacity == old(self).capacity,
            final(self).seed_a == old(self).seed_a,
            final(self).seed_b == old(self).seed_b,
            final(self).load_factor == old(self).load_factor,
            match r {
                None => final(self)@ == old(self)@.insert(key@, value),
                Some(h) => !final(self).pos@.contains_key(h.0@) && final(self)@.insert(h.0@, h.1)
                    == old(self)@.insert(key@, value),
            },
    {
        let a = self.slot_a(&key);
        if matches!(self.slots[a], Slot::Empty) {
            self.put_at(a, key, value);
            return None;
        }
        let b = self.slot_b(&key);
        if matches!(self.slots[b], Slot::Empty) {
            self.put_at(b, key, value);
            return None;
        }
        let ghost target = self@.insert(key@, value);
        let (mut k, mut v) = self.evict_at(a, key, value);
        let mut fill_a = false;
        let mut rounds = self.length;
        loop
            invariant
                self.wf(),
                self.capacity > 0,
                self.slots@.len() == old(self).slots@.len(),
                self.capacity == old(self).capacity,
                self.seed_a == old(self).seed_a,
                self.seed_b == old(self).seed_b,
                self.load_factor == old(self).load_factor,
                !self.pos@.contains_key(k@),
                self@.insert(k@, v) == target,
                target == old(self)@.insert(key@, value),
            decreases rounds,
        {
            let ia = self.slot_a(&k);
            if matches!(self.slots[ia], Slot::Empty) {
                self.put_at(ia, k, v);
                return None;
            }
            let ib = self.slot_b(&k);
            if matches!(self.slots[ib], Slot::Empty) {
                self.put_at(ib, k, v);
                return None;
            }
            let (k2, v2) = if fill_a {
                fill_a = false;
                self.evict_at(ia, k, v)
            } else {
                fill_a = true;
                self.evict_at(ib, k, v)
            };
            k = k2;
            v = v2;
            if rounds == 0 {
                return Some((k, v));
            }
            rounds = rounds - 1;
        }
    }

    /// Appends an absent key to the overflow area.
    fn stash(&mut self, key: K, value: V)
        requires
            old(self).wf(),
            old(self).capacity > 0,
            !old(self).pos@.contains_key(key@),
        ensures
            final(self).wf(),
            final(self)@ == old(self)@.insert(key@, value),
            final(self).capacity == old(self).capacity,
            final(self).seed_a == old(self).seed_a,
            final(self).seed_b == old(self).seed_b,
            final(self).load_factor == old(self).load_factor,
            final(self).slots@.len() == old(self).slots@.len() + 1,
    {
        proof {
            lemma_push_empty(self.slots@, self.pos@);
            lemma_count_push(self.slots@, Slot::<K, V>::Empty);
        }
        let i = self.slots.len();
        self.slots.push(Slot::Empty);
        assert(self.capacity <= i);
        self.put_at(i, key, value);
    }

    /// Replaces the value of the key held in slot `i`.
    fn replace_at(&mut self, i: usize, key: K, value: V) -> (r: V)
        requires
            old(self).wf(),
            old(self).pos@.contains_key(key@),
            old(self).pos@[key@] == i,
        ensures
            final(self).wf(),
            final(self)@ == old(self)@.insert(key@, value),
            old(self)@.get(key@) == Some(r),
            final(self).slots@.len() == old(self).slots@.len(),
            final(self).capacity == old(self).capacity,
            final(self).load_factor == old(self).load_factor,
    {
        let ghost s0 = self.slots@;
        let ghost p0 = self.pos@;
        let ghost m0 = self@;
        let mut x = Slot::Occupied(key, value);
        let ghost xg = x;
        std::mem::swap(&mut self.slots[i], &mut x);
        proof {
            assert(self.slots@ == s0.update(i as int, xg));
            lemma_update(s0, p0, i as int, xg);
            lemma_count_update(s0, i as int, xg);
            assert(reindexed(s0, p0, i as int, xg) =~= p0);
            assert(self@ =~= m0.insert(key@, value));
        }
        match x {
            Slot::Occupied(_, old_value) => old_value,
            _ => vstd::pervasive::unreached(),
        }
    }

    /// Stores `value` under `key` and returns the value it replaces, if any.
    /// An entry that a bounded run of evictions cannot settle, even after
    /// the hash functions are reseeded once, goes to the overflow area.
    /// Grows the table first when its fill factor has reached the load
    /// factor; reseeds the hash functions once when evictions run out.
    pub fn insert(&mut self, key: K, value: V) -> (r: Option<V>)
        requires
            old(self).wf(),
            old(self).spec_capacity() <= usize::MAX / 4,
        ensures
            final(self).wf(),
            r == old(self)@.get(key@),
            final(self)@ == old(self)@.insert(key@, value),
            final(self).spec_load_factor() == old(self).spec_load_factor(),
            final(self).spec_capacity() == old(self).spec_load_factor().grown(
                old(self)@.len(),
                old(self).spec_capacity(),
                DEFAULT_SLOTS as nat,
            ),
            old(self).spec_load_factor().within(old(self)@.len(), old(self).spec_capacity())
                && old(self).spec_load_factor().num() * (if old(self).spec_capacity() == 0 {
                DEFAULT_SLOTS as nat
            } else {
                old(self).spec_capacity()
            }) >= old(self).spec_load_factor().den() ==> final(self).spec_load_factor().within(
                final(self)@.len(),
                final(self).spec_capacity(),
            ),
            final(self).placed(),
    {
        let ghost count0 = self@.len();
        let ghost cap0 = self.capacity as nat;
        proof {
            self.lemma_wf();
            if cap0 == 0 {
                assert(self.pos@.dom() =~= Set::empty());
            }
        }
        if self.capacity == 0 {
            assert(self.pos@.dom() =~= Set::empty());
            self.slots = empty_slots(DEFAULT_SLOTS);
            self.capacity = DEFAULT_SLOTS;
            self.length = 0;
            self.pos = Ghost(Map::empty());
            assert(self@ =~= Map::empty());
        }
        if self.load_factor.is_reached(self.length, self.capacity) {
            let c = self.capacity;
            self.rebuild(c * 2);
        }
        let r = match self.locate(&key) {
            Some(i) => Some(self.replace_at(i, key, value)),
            None => {
                match self.settle(key, value) {
                    None => {},
                    Some((k, v)) => {
                        let c = self.capacity;
                        proof {
                            lemma_contents_dom(self.slots@, self.pos@);
                        }
                        self.rebuild(c);
                        proof {
                            lemma_contents_dom(self.slots@, self.pos@);
                        }
                        match self.settle(k, v) {
                            None => {},
                            Some((k2, v2)) => {
                                self.stash(k2, v2);
                            },
                        }
                    },
                }
                None
            },
        };
        proof {
            self.lemma_wf();
            assert(self@.dom() == old(self)@.dom().insert(key@));
            if self.load_factor.within(count0, cap0) && self.load_factor.num() * (if cap0 == 0 {
                DEFAULT_SLOTS as nat
            } else {
                cap0
            }) >= self.load_factor.den() {
                self.load_factor.lemma_stays_within(count0, cap0, DEFAULT_SLOTS as nat, self@.len());
            }
        }
        proof {
            self.lemma_contents();
        }
        r
    }

    /// The value stored under `key`, if any: it looks in the key's candidate
    /// slots, then in the overflow area, which is empty unless an insert
    /// could not settle an entry even after reseeding.
    pub fn get(&self, key: &K) -> (r: Option<&V>)
        requires
            self.wf(),
        ensures
            refers_to(r, self@.get(key@)),
    {
        proof {
            self.lemma_wf();
        }
        if self.length == 0 {
            proof {
                lemma_len_zero_empty(self@);
            }
            return None;
        }
        match self.locate(key) {
            Some(i) => match &self.slots[i] {
                Slot::Occupied(_, v) => Some(v),
                _ => None,
            },
            None => None,
        }
    }

    /// Removes `key` and returns its value, if it was present. Like `get`, it
    /// looks in the key's candidate slots, then in the overflow area.
    pub fn remove(&mut self, key: &K) -> (r: Option<V>)
        requires
            old(self).wf(),
        ensures
            final(self).wf(),
            r == old(self)@.get(key@),
            final(self)@ == old(self)@.remove(key@),
            final(self).spec_capacity() == old(self).spec_capacity(),
            final(self).spec_load_factor() == old(self).spec_load_factor(),
    {
        proof {
            self.lemma_wf();
        }
        if self.length == 0 {
            proof {
                lemma_len_zero_empty(self@);
            }
            assert(self@.remove(key@) =~= self@);
            return None;
        }
        match self.locate(key) {
            Some(i) => {
                let ghost s0 = self.slots@;
                let ghost p0 = self.pos@;
                let mut x = Slot::Empty;
                std::mem::swap(&mut self.slots[i], &mut x);
                proof {
                    assert(self.slots@ == s0.update(i as int, Slot::Empty));
                    lemma_update(s0, p0, i as int, Slot::Empty);
                    lemma_count_update(s0, i as int, Slot::Empty);
                }
                self.pos = Ghost(reindexed(s0, p0, i as int, Slot::Empty));
                self.length = self.length - 1;
                proof {
                    assert(self.pos@ == p0.remove(key@));
                    assert forall|k: K::V| #[trigger] self.pos@.contains_key(k) implies self.allowed(k, self.pos@[k]) by {
                        assert(p0.contains_key(k));
                    }
                    assert(self@ =~= contents(s0, p0).remove(key@));
                }
                match x {
                    Slot::Occupied(_, v) => Some(v),
                    _ => None,
                }
            },
            None => {
                assert(self@.remove(key@) =~= self@);
                None
            },
        }
    }

    /// A mutable reference to the value stored under `key`, if any.
    pub fn get_mut(&mut self, key: &K) -> (r: Option<&mut V>)
        requires
            old(self).wf(),
        ensures
            match r {
                Some(v) => {
                    &&& old(self)@.get(key@) == Some(*v)
                    &&& final(self).wf()
                    &&& final(self)@ == old(self)@.insert(key@, *final(v))
                    &&& final(self).spec_capacity() == old(self).spec_capacity()
                    &&& final(self).spec_load_factor() == old(self).spec_load_factor()
                },
                None => !old(self)@.contains_key(key@) && *final(self) == *old(self),
            },
    {
        proof {
            self.lemma_wf();
        }
        if self.length == 0 {
            proof {
                lemma_len_zero_empty(self@);
            }
            return None;
        }
        match self.locate(key) {
            Some(i) => {
                let ghost before = *self;
                let ghost k0 = self.slots@[i as int]->Occupied_0;
                proof {
                    assert forall|b: Self|
                        #![trigger b.wf()]
                        #![trigger b.view()]
                        b.slots@ == before.slots@.update(
                            i as int,
                            Slot::Occupied(k0, b.slots@[i as int]->Occupied_1),
                        ) && b.pos == before.pos && b.length == before.length && b.capacity
                            == before.capacity && b.seed_a == before.seed_a && b.seed_b == before.seed_b
                            && b.load_factor == before.load_factor implies b.wf() && b@ == before@.insert(
                        k0@,
                        b.slots@[i as int]->Occupied_1,
                    ) by {
                        let x = Slot::Occupied(k0, b.slots@[i as int]->Occupied_1);
                        lemma_update(before.slots@, before.pos@, i as int, x);
                        lemma_count_update(before.slots@, i as int, x);
                        assert(reindexed(before.slots@, before.pos@, i as int, x) =~= before.pos@);
                        assert(b@ =~= before@.insert(k0@, b.slots@[i as int]->Occupied_1));
                    }
                }
                let v = value_mut(&mut self.slots[i]);
                Some(v)
            },
            None => None,
        }
    }

    /// Rebuilds the table with `new_capacity` slots in tables A and B and
    /// freshly drawn seeds.
    fn rebuild(&mut self, new_capacity: usize)
        requires
            old(self).wf(),
            new_capacity >= 2,
        ensures
            final(self).wf(),
            final(self)@ == old(self)@,
            final(self).capacity == new_capacity,
            final(self).load_factor == old(self).load_factor,
    {
        proof {
            self.lemma_wf();
        }
        let ghost m0 = self@;
        let ghost pos0 = self.pos@;
        let mut old_slots = empty_slots(new_capacity);
        std::mem::swap(&mut self.slots, &mut old_slots);
        self.capacity = new_capacity;
        self.seed_a = random_seed();
        self.seed_b = random_seed();
        self.pos = Ghost(Map::empty());
        self.length = 0;
        assert(self@ =~= Map::empty());
        let mut entries = drain_slots(&mut old_slots, Ghost(pos0));
        proof {
            lemma_pairs_map_finite(entries@);
        }
        while entries.len() > 0
            invariant
                self.wf(),
                new_capacity >= 2,
                self.capacity == new_capacity,
                self.load_factor == old(self).load_factor,
                distinct_keys(entries@),
                pairs_map(entries@).dom().finite(),
                self@.dom().disjoint(pairs_map(entries@).dom()),
                self@.union_prefer_right(pairs_map(entries@)) == m0,
            decreases entries@.len(),
        {
            let ghost before = entries@;
            let (k, v) = entries.pop().unwrap();
            proof {
                assert(before.drop_last() =~= entries@);
                assert(pairs_map(before) == pairs_map(entries@).insert(k@, v));
                assert forall|j: int| 0 <= j < entries@.len() implies (#[trigger] entries@[j]).0@ != k@ by {
                    assert(before[j] == entries@[j]);
                    assert(before[before.len() - 1].0@ == k@);
                }
                lemma_pairs_map_has(entries@, k@);
                lemma_pairs_map_finite(entries@);
                lemma_contents_dom(self.slots@, self.pos@);
            }
            match self.settle(k, v) {
                None => {},
                Some((hk, hv)) => {
                    self.stash(hk, hv);
                },
            }
            proof {
                assert(self@.union_prefer_right(pairs_map(entries@)) =~= m0);
            }
        }
        assert(self@ =~= m0);
    }
}

impl<K: TableKey, V> Default for HashMap<K, V> {
    /// The same as `new`.
    fn default() -> (r: Self)
        ensures
            r.wf(),
            r@ == Map::<K::V, V>::empty(),
            r.spec_capacity() == 0,
    {
        Self::new()
    }
}

} // verus!
