//! Linear probing with tombstones.
use crate::key::{plain_hash_key, spec_plain_hash, TableKey};
use crate::load::{LoadFactor, Ratio};
use crate::model::{lemma_len_zero_empty, refers_to};
use crate::slots::{
    lemma_pairs_map_finite, lemma_pairs_map_has,
    distinct_keys,
    contents, drain_slots, empty_slots, indexed, lemma_contents_dom, lemma_count_bound,
    lemma_all_occupied, lemma_count_update, lemma_index_len, lemma_update, occupied_count, pairs_map, reindexed,
    recontents, tomb_count, value_mut, Slot,
};
use vstd::prelude::*;

verus! {

/// Slots allocated by the first insert into a table built without any.
pub const DEFAULT_SLOTS: usize = 64;

/// The slot at distance `d` from `home`, wrapping around `n` slots.
pub open spec fn probe(home: int, d: int, n: int) -> int {
    if home + d < n {
        home + d
    } else {
        home + d - n
    }
}

/// How far slot `p` lies from `home` in probe order over `n` slots.
pub open spec fn dist(home: int, p: int, n: int) -> int {
    if p >= home {
        p - home
    } else {
        p + n - home
    }
}

/// The slot where the probe for a key with view `k` starts.
pub open spec fn home<K: TableKey>(k: K::V, n: int) -> int {
    (spec_plain_hash::<K>(k) as int) % n
}

/// Every slot between a key's home and the slot that holds it is non-empty,
/// so a probe that stops at the first empty slot cannot miss the key.
pub open spec fn probe_runs<K: TableKey, V>(s: Seq<Slot<K, V>>, pos: Map<K::V, int>) -> bool {
    forall|k: K::V, d: int|
        #![trigger pos.contains_key(k), s[probe(home::<K>(k, s.len() as int), d, s.len() as int)]]
        pos.contains_key(k) && 0 <= d < dist(home::<K>(k, s.len() as int), pos[k], s.len() as int)
            ==> !(s[probe(home::<K>(k, s.len() as int), d, s.len() as int)] is Empty)
}

/// Where a probe for a key ended.
pub enum Probe {
    /// The key is in this slot.
    Found(usize),
    /// The key is absent; this is the first tomb or empty slot on its path.
    Vacant(usize),
    /// The key is absent and every slot holds an entry.
    Full,
}

/// A map from keys to values that resolves collisions by linear probing and
/// marks removed entries with tombstones.
pub struct HashMap<K: TableKey, V> {
    slots: Vec<Slot<K, V>>,
    length: usize,
    tomb_count: usize,
    load_factor: LoadFactor,
    pos: Ghost<Map<K::V, int>>,
}

impl<K: TableKey, V> View for HashMap<K, V> {
    type V = Map<K::V, V>;

    closed spec fn view(&self) -> Map<K::V, V> {
        contents(self.slots@, self.pos@)
    }
}

impl<K: TableKey, V> HashMap<K, V> {
    /// The table's internal consistency.
    pub closed spec fn wf(&self) -> bool {
        &&& indexed(self.slots@, self.pos@)
        &&& probe_runs(self.slots@, self.pos@)
        &&& self.length == occupied_count(self.slots@)
        &&& self.tomb_count == tomb_count(self.slots@)
        &&& self.load_factor.valid()
    }

    pub closed spec fn spec_capacity(&self) -> nat {
        self.slots@.len()
    }

    pub closed spec fn spec_tombs(&self) -> nat {
        self.tomb_count as nat
    }

    /// Live entries and tombstones together: the slots that are not empty.
    pub open spec fn spec_occupancy(&self) -> nat {
        self@.len() + self.spec_tombs()
    }

    pub closed spec fn spec_load_factor(&self) -> LoadFactor {
        self.load_factor
    }

    proof fn lemma_wf(&self)
        requires
            self.wf(),
        ensures
            self@.dom().finite(),
            self@.len() == self.length,
            self.length + self.tomb_count <= self.slots@.len(),
            self.length + self.tomb_count < self.slots@.len() ==> exists|i: int|
                0 <= i < self.slots@.len() && (#[trigger] self.slots@[i]) is Empty,
    {
        lemma_contents_dom(self.slots@, self.pos@);
        lemma_index_len(self.slots@, self.pos@);
        lemma_count_bound(self.slots@);
    }

    /// A consistent table holds finitely many keys, and none when it has
    /// no slots.
    pub proof fn lemma_contents(&self)
        requires
            self.wf(),
        ensures
            self@.dom().finite(),
            self.spec_capacity() == 0 ==> self@ == Map::<K::V, V>::empty(),
            self@.len() + self.spec_tombs() <= self.spec_capacity(),
    {
        self.lemma_wf();
        if self.spec_capacity() == 0 {
            if self.slots@.len() == 0 {
                assert(self.pos@.dom() =~= Set::empty());
            }
            lemma_len_zero_empty(self@);
        }
    }

    /// An empty table with the default load factor of 2/5 and no slots.
    pub fn new() -> (r: Self)
        ensures
            r.wf(),
            r@ == Map::<K::V, V>::empty(),
            r.spec_capacity() == 0,
            r.spec_load_factor().num() == 2,
            r.spec_load_factor().den() == 5,
    {
        Self::with_exact_capacity(0, LoadFactor::new(2, 5))
    }

    /// An empty table with room for `capacity` entries: eight slots for each.
    pub fn with_capacity(capacity: usize) -> (r: Self)
        requires
            capacity <= usize::MAX / 8,
        ensures
            r.wf(),
            r@ == Map::<K::V, V>::empty(),
            r.spec_capacity() == capacity * 8,
            r.spec_load_factor().num() == 2,
            r.spec_load_factor().den() == 5,
    {
        Self::with_exact_capacity(capacity * 8, LoadFactor::new(2, 5))
    }

    /// An empty table with no slots and the given load factor.
    pub fn with_load_factor(load_factor: LoadFactor) -> (r: Self)
        requires
            load_factor.valid(),
        ensures
            r.wf(),
            r@ == Map::<K::V, V>::empty(),
            r.spec_capacity() == 0,
            r.spec_load_factor() == load_factor,
    {
        Self::with_exact_capacity(0, load_factor)
    }

    /// An empty table with exactly `capacity` slots.
    pub fn with_exact_capacity(capacity: usize, load_factor: LoadFactor) -> (r: Self)
        requires
            load_factor.valid(),
        ensures
            r.wf(),
            r@ == Map::<K::V, V>::empty(),
            r.spec_capacity() == capacity,
            r.spec_tombs() == 0,
            r.spec_load_factor() == load_factor,
    {
        let slots = empty_slots(capacity);
        let r = HashMap { slots, length: 0, tomb_count: 0, load_factor, pos: Ghost(Map::empty()) };
        assert(r@ =~= Map::empty());
        r
    }

    pub fn len(&self) -> (r: usize)
        requires
            self.wf(),
        ensures
            r == self@.len(),
            self@.dom().finite(),
    {
        proof {
            self.lemma_wf();
        }
        self.length
    }

    pub fn is_empty(&self) -> (r: bool)
        requires
            self.wf(),
        ensures
            r == (self@.len() == 0),
    {
        proof {
            self.lemma_wf();
        }
        self.length == 0
    }

    /// The number of slots.
    pub fn capacity(&self) -> (r: usize)
        ensures
            r == self.spec_capacity(),
    {
        self.slots.len()
    }

    /// The number of tombstones left by removals since the last rebuild.
    pub fn tomb_count(&self) -> (r: usize)
        ensures
            r == self.spec_tombs(),
    {
        self.tomb_count
    }

    /// Live entries per slot; zero when there are no slots.
    pub fn fill_factor(&self) -> (r: Ratio)
        requires
            self.wf(),
        ensures
            (r.numerator == 0) == (self@.len() == 0),
            self.spec_capacity() == 0 ==> r == (Ratio { numerator: 0, denominator: 1 }),
            self.spec_capacity() > 0 ==> r == (Ratio {
                numerator: self@.len() as usize,
                denominator: self.spec_capacity() as usize,
            }),
    {
        proof {
            self.lemma_contents();
            self.lemma_wf();
        }
        Ratio::of(self.length, self.slots.len())
    }

    /// Removes every entry and tombstone; the slots stay allocated.
    pub fn clear(&mut self)
        requires
            old(self).wf(),
        ensures
            final(self).wf(),
            final(self)@ == Map::<K::V, V>::empty(),
            final(self).spec_capacity() == old(self).spec_capacity(),
            final(self).spec_tombs() == 0,
            final(self).spec_load_factor() == old(self).spec_load_factor(),
    {
        let n = self.slots.len();
        self.slots = empty_slots(n);
        self.length = 0;
        self.tomb_count = 0;
        self.pos = Ghost(Map::empty());
        assert(self@ =~= Map::empty());
    }

    /// The slot where the probe for `key` starts.
    fn home_of(&self, key: &K) -> (r: usize)
        requires
            self.slots@.len() > 0,
        ensures
            r == home::<K>(key@, self.slots@.len() as int),
            r < self.slots@.len(),
    {
        let h = plain_hash_key(key);
        (h % (self.slots.len() as u64)) as usize
    }

    /// What a probe for a key with view `k` reports.
    spec fn probed(&self, k: K::V, r: Probe) -> bool {
        let n = self.slots@.len() as int;
        match r {
            Probe::Found(i) => self.pos@.contains_key(k) && self.pos@[k] == i,
            Probe::Vacant(i) => {
                &&& !self.pos@.contains_key(k)
                &&& i < n
                &&& !(self.slots@[i as int] is Occupied)
                &&& forall|d: int|
                    0 <= d < dist(home::<K>(k, n), i as int, n) ==> !(#[trigger] self.slots@[probe(
                        home::<K>(k, n),
                        d,
                        n,
                    )] is Empty)
            },
            Probe::Full => {
                &&& !self.pos@.contains_key(k)
                &&& forall|i: int| 0 <= i < n ==> (#[trigger] self.slots@[i]) is Occupied
            },
        }
    }

    /// Probes for `key` from its home slot, stopping at the key or at the
    /// first empty slot.
    fn find(&self, key: &K) -> (r: Probe)
        requires
            self.wf(),
            self.slots@.len() > 0,
        ensures
            self.probed(key@, r),
    {
        let n = self.slots.len();
        let h = self.home_of(key);
        let ghost hh = h as int;
        let mut d: usize = 0;
        let mut vacant: Option<usize> = None;
        while d < n
            invariant
                self.wf(),
                n == self.slots@.len(),
                n > 0,
                h < n,
                hh == h,
                hh == home::<K>(key@, n as int),
                d <= n,
                forall|e: int| 0 <= e < d ==> !(#[trigger] self.slots@[probe(hh, e, n as int)]).holds(key@),
                forall|e: int| 0 <= e < d ==> !(#[trigger] self.slots@[probe(hh, e, n as int)] is Empty),
                match vacant {
                    Some(i) => {
                        &&& i < n
                        &&& self.slots@[i as int] is Tomb
                        &&& dist(hh, i as int, n as int) < d
                        &&& forall|e: int| 0 <= e < dist(hh, i as int, n as int)
                            ==> (#[trigger] self.slots@[probe(hh, e, n as int)]) is Occupied
                    },
                    None => forall|e: int| 0 <= e < d ==> (#[trigger] self.slots@[probe(hh, e, n as int)]) is Occupied,
                },
            decreases n - d,
        {
            let i = if d < n - h {
                h + d
            } else {
                d - (n - h)
            };
            assert(i == probe(hh, d as int, n as int));
            assert(dist(hh, i as int, n as int) == d);
            match &self.slots[i] {
                Slot::Empty => {
                    proof {
                        self.lemma_absent_at_empty(key@, d as int);
                    }
                    match vacant {
                        Some(t) => {
                            return Probe::Vacant(t);
                        },
                        None => {
                            return Probe::Vacant(i);
                        },
                    }
                },
                Slot::Tomb => {
                    if vacant.is_none() {
                        vacant = Some(i);
                    }
                },
                Slot::Occupied(k, _) => {
                    if k.same_key(key) {
                        return Probe::Found(i);
                    }
                },
            }
            d = d + 1;
        }
        proof {
            self.lemma_absent_after_cycle(key@);
        }
        match vacant {
            Some(t) => Probe::Vacant(t),
            None => {
                assert forall|i: int| 0 <= i < n implies (#[trigger] self.slots@[i]) is Occupied by {
                    assert(i == probe(hh, dist(hh, i, n as int), n as int));
                }
                Probe::Full
            },
        }
    }

    /// Fills the vacant slot `i` on the probe path of `key`.
    fn place_at(&mut self, i: usize, key: K, value: V)
        requires
            old(self).wf(),
            i < old(self).slots@.len(),
            !(old(self).slots@[i as int] is Occupied),
            !old(self).pos@.contains_key(key@),
            forall|d: int|
                0 <= d < dist(
                    home::<K>(key@, old(self).slots@.len() as int),
                    i as int,
                    old(self).slots@.len() as int,
                ) ==> !(#[trigger] old(self).slots@[probe(
                    home::<K>(key@, old(self).slots@.len() as int),
                    d,
                    old(self).slots@.len() as int,
                )] is Empty),
        ensures
            final(self).wf(),
            final(self)@ == old(self)@.insert(key@, value),
            final(self).slots@.len() == old(self).slots@.len(),
            final(self).load_factor == old(self).load_factor,
            final(self).length == old(self).length + 1,
            final(self).tomb_count + (if old(self).slots@[i as int] is Tomb {
                1int
            } else {
                0int
            }) == old(self).tomb_count,
    {
        let slot_count = self.slots.len();
        let was_tomb = matches!(self.slots[i], Slot::Tomb);
        let ghost s0 = self.slots@;
        let ghost p0 = self.pos@;
        let ghost kv = key@;
        let ghost n = s0.len() as int;
        let mut x = Slot::Occupied(key, value);
        let ghost xg = x;
        std::mem::swap(&mut self.slots[i], &mut x);
        proof {
            assert(self.slots@ == s0.update(i as int, xg));
            lemma_update(s0, p0, i as int, xg);
            lemma_count_update(s0, i as int, xg);
            lemma_count_bound(self.slots@);
            assert(self.length < slot_count);
        }
        self.pos = Ghost(reindexed(s0, p0, i as int, xg));
        self.length = self.length + 1;
        if was_tomb {
            self.tomb_count = self.tomb_count - 1;
        }
        proof {
            let s1 = self.slots@;
            let p1 = self.pos@;
            assert(p1 == p0.insert(kv, i as int));
            assert forall|k: K::V, d: int|
                p1.contains_key(k) && 0 <= d < dist(home::<K>(k, n), p1[k], n) implies !(#[trigger] s1[probe(
                home::<K>(k, n),
                d,
                n,
            )] is Empty) && #[trigger] p1.contains_key(k) by {
                if k != kv {
                    assert(p0.contains_key(k));
                    assert(!(s0[probe(home::<K>(k, n), d, n)] is Empty));
                } else {
                    assert(!(s0[probe(home::<K>(k, n), d, n)] is Empty));
                }
            }
            assert(self@ == recontents(contents(s0, p0), s0[i as int], xg));
            assert(self@ =~= contents(s0, p0).insert(kv, value));
        }
    }

    /// Adds an absent key, which the table has room for.
    fn insert_fresh(&mut self, key: K, value: V)
        requires
            old(self).wf(),
            !old(self)@.contains_key(key@),
            old(self).length < old(self).slots@.len(),
        ensures
            final(self).wf(),
            final(self)@ == old(self)@.insert(key@, value),
            final(self).slots@.len() == old(self).slots@.len(),
            final(self).load_factor == old(self).load_factor,
            final(self).tomb_count <= old(self).tomb_count,
            final(self).length == old(self).length + 1,
    {
        match self.find(&key) {
            Probe::Vacant(i) => {
                self.place_at(i, key, value);
            },
            Probe::Found(_) => {
                assert(false);
            },
            Probe::Full => {
                proof {
                    lemma_all_occupied(self.slots@);
                }
                assert(false);
            },
        }
    }

    /// Rebuilds the table with `new_capacity` slots and no tombstones.
    fn resize(&mut self, new_capacity: usize)
        requires
            old(self).wf(),
            new_capacity > old(self).length,
        ensures
            final(self).wf(),
            final(self)@ == old(self)@,
            final(self).slots@.len() == new_capacity,
            final(self).tomb_count == 0,
            final(self).length == old(self).length,
            final(self).load_factor == old(self).load_factor,
    {
        proof {
            self.lemma_wf();
        }
        let ghost m0 = self@;
        let ghost pos0 = self.pos@;
        let mut old_slots = empty_slots(new_capacity);
        std::mem::swap(&mut self.slots, &mut old_slots);
        self.pos = Ghost(Map::empty());
        self.length = 0;
        self.tomb_count = 0;
        assert(self@ =~= Map::empty());
        let mut entries = drain_slots(&mut old_slots, Ghost(pos0));
        proof {
            lemma_pairs_map_finite(entries@);
        }
        while entries.len() > 0
            invariant
                self.wf(),
                self.slots@.len() == new_capacity,
                self.tomb_count == 0,
                self.load_factor == old(self).load_factor,
                m0.dom().finite(),
                m0.len() < new_capacity,
                distinct_keys(entries@),
                pairs_map(entries@).dom().finite(),
                self@.dom().disjoint(pairs_map(entries@).dom()),
                self@.union_prefer_right(pairs_map(entries@)) == m0,
            decreases entries@.len(),
        {
            let ghost before = entries@;
            let (k, v) = entries.pop().unwrap();
            proof {
                assert(before.drop_last() =~= entries@);
                assert(pairs_map(before) == pairs_map(entries@).insert(k@, v));
                assert forall|j: int| 0 <= j < entries@.len() implies (#[trigger] entries@[j]).0@ != k@ by {
                    assert(before[j] == entries@[j]);
                    assert(before[before.len() - 1].0@ == k@);
                }
                lemma_pairs_map_has(entries@, k@);
                lemma_pairs_map_finite(entries@);
                self.lemma_wf();
                assert(m0.contains_key(k@));
                assert(self@.dom().subset_of(m0.dom().remove(k@)));
                vstd::set_lib::lemma_len_subset(self@.dom(), m0.dom().remove(k@));
            }
            self.insert_fresh(k, v);
            proof {
                assert(self@.union_prefer_right(pairs_map(entries@)) =~= m0);
            }
        }
        assert(self@ =~= m0);
        proof {
            self.lemma_wf();
        }
    }

    /// The value stored under `key`, if any.
    pub fn get(&self, key: &K) -> (r: Option<&V>)
        requires
            self.wf(),
        ensures
            refers_to(r, self@.get(key@)),
    {
        proof {
            self.lemma_wf();
        }
        if self.length == 0 {
            proof {
                lemma_len_zero_empty(self@);
            }
            return None;
        }
        match self.find(key) {
            Probe::Found(i) => match &self.slots[i] {
                Slot::Occupied(_, v) => Some(v),
                _ => None,
            },
            _ => None,
        }
    }

    /// Removes `key`, leaving a tombstone in its slot, and returns its value.
    pub fn remove(&mut self, key: &K) -> (r: Option<V>)
        requires
            old(self).wf(),
        ensures
            final(self).wf(),
            r == old(self)@.get(key@),
            final(self)@ == old(self)@.remove(key@),
            final(self).spec_capacity() == old(self).spec_capacity(),
            final(self).spec_load_factor() == old(self).spec_load_factor(),
            r is Some ==> final(self).spec_tombs() == old(self).spec_tombs() + 1,
            r is None ==> final(self).spec_tombs() == old(self).spec_tombs(),
    {
        proof {
            self.lemma_wf();
        }
        if self.length == 0 {
            proof {
                lemma_len_zero_empty(self@);
            }
            assert(self@.remove(key@) =~= self@);
            return None;
        }
        match self.find(key) {
            Probe::Found(i) => {
                let slot_count = self.slots.len();
                let ghost s0 = self.slots@;
                let ghost p0 = self.pos@;
                let ghost n = s0.len() as int;
                let mut x = Slot::Tomb;
                std::mem::swap(&mut self.slots[i], &mut x);
                proof {
                    assert(self.slots@ == s0.update(i as int, Slot::Tomb));
                    lemma_update(s0, p0, i as int, Slot::Tomb);
                    lemma_count_update(s0, i as int, Slot::Tomb);
                    lemma_count_bound(self.slots@);
                    assert(self.tomb_count < slot_count);
                }
                self.pos = Ghost(reindexed(s0, p0, i as int, Slot::Tomb));
                self.length = self.length - 1;
                self.tomb_count = self.tomb_count + 1;
                proof {
                    let s1 = self.slots@;
                    let p1 = self.pos@;
                    assert(p1 == p0.remove(key@));
                    assert forall|k: K::V, d: int|
                        p1.contains_key(k) && 0 <= d < dist(home::<K>(k, n), p1[k], n) implies !(#[trigger] s1[probe(
                        home::<K>(k, n),
                        d,
                        n,
                    )] is Empty) && #[trigger] p1.contains_key(k) by {
                        assert(p0.contains_key(k));
                        assert(!(s0[probe(home::<K>(k, n), d, n)] is Empty));
                    }
                    assert(self@ =~= contents(s0, p0).remove(key@));
                }
                match x {
                    Slot::Occupied(_, v) => Some(v),
                    _ => None,
                }
            },
            _ => {
                assert(self@.remove(key@) =~= self@);
                None
            },
        }
    }

    /// Stores `value` under `key` and returns the value it replaces, if any.
    /// Grows the table first when live entries and tombstones have reached
    /// the load factor.
    pub fn insert(&mut self, key: K, value: V) -> (r: Option<V>)
        requires
            old(self).wf(),
            old(self).spec_capacity() <= usize::MAX / 4,
        ensures
            final(self).wf(),
            r == old(self)@.get(key@),
            final(self)@ == old(self)@.insert(key@, value),
            final(self).spec_load_factor() == old(self).spec_load_factor(),
            final(self).spec_capacity() == old(self).spec_load_factor().grown(
                old(self).spec_occupancy(),
                old(self).spec_capacity(),
                DEFAULT_SLOTS as nat,
            ) || (old(self).spec_load_factor().num() > old(self).spec_load_factor().den()
                && final(self).spec_capacity() == 2 * old(self).spec_load_factor().grown(
                old(self).spec_occupancy(),
                old(self).spec_capacity(),
                DEFAULT_SLOTS as nat,
            )),
            old(self).spec_load_factor().within(old(self).spec_occupancy(), old(self).spec_capacity())
                && old(self).spec_load_factor().num() * (if old(self).spec_capacity() == 0 {
                DEFAULT_SLOTS as nat
            } else {
                old(self).spec_capacity()
            }) >= old(self).spec_load_factor().den() ==> final(self).spec_load_factor().within(
                final(self).spec_occupancy(),
                final(self).spec_capacity(),
            ),
            final(self).spec_capacity() != old(self).spec_capacity() ==> final(self).spec_tombs() == 0,
    {
        let ghost count0 = self.spec_occupancy();
        let ghost cap0 = self.slots@.len();
        proof {
            self.lemma_wf();
        }
        if self.slots.len() == 0 {
            assert(self.pos@.dom() =~= Set::empty());
            self.slots = empty_slots(DEFAULT_SLOTS);
            self.length = 0;
            self.tomb_count = 0;
            self.pos = Ghost(Map::empty());
            proof {
                self.lemma_wf();
            }
        }
        let n = self.slots.len();
        let ghost len0 = self.length;
        if self.load_factor.is_reached(self.length + self.tomb_count, n) {
            self.resize(n * 2);
        }
        proof {
            self.lemma_wf();
        }
        let ghost c1 = self.slots@.len();
        let ghost count1 = self.spec_occupancy();
        let ghost mut full = false;
        let r = match self.find(&key) {
            Probe::Found(i) => {
                let ghost s0 = self.slots@;
                let ghost p0 = self.pos@;
                let ghost m0 = self@;
                let mut x = Slot::Occupied(key, value);
                let ghost xg = x;
                std::mem::swap(&mut self.slots[i], &mut x);
                proof {
                    assert(self.slots@ == s0.update(i as int, xg));
                    lemma_update(s0, p0, i as int, xg);
                    lemma_count_update(s0, i as int, xg);
                    assert(reindexed(s0, p0, i as int, xg) =~= p0);
                    let n = s0.len() as int;
                    assert forall|k: K::V, d: int|
                        p0.contains_key(k) && 0 <= d < dist(home::<K>(k, n), p0[k], n) implies !(#[trigger] self.slots@[probe(
                        home::<K>(k, n),
                        d,
                        n,
                    )] is Empty) && #[trigger] p0.contains_key(k) by {
                        assert(!(s0[probe(home::<K>(k, n), d, n)] is Empty));
                    }
                    assert(self@ =~= m0.insert(key@, value));
                }
                match x {
                    Slot::Occupied(_, old_value) => Some(old_value),
                    _ => None,
                }
            },
            Probe::Vacant(i) => {
                self.place_at(i, key, value);
                None
            },
            Probe::Full => {
                proof {
                    lemma_all_occupied(self.slots@);
                }
                let n_full = self.slots.len();
                assert(self.length == n_full);
                proof {
                    lemma_count_bound(self.slots@);
                    full = true;
                }
                self.resize(n_full * 2);
                proof {
                    self.lemma_wf();
                }
                self.insert_fresh(key, value);
                None
            },
        };
        proof {
            self.lemma_wf();
            let lf = self.load_factor;
            let c = if cap0 == 0 {
                DEFAULT_SLOTS as nat
            } else {
                cap0
            };
            if !full {
                assert(self.spec_occupancy() <= count1 + 1);
                assert(count1 <= count0);
                if lf.within(count0, cap0) && lf.num() * c >= lf.den() {
                    lf.lemma_stays_within(count0, cap0, DEFAULT_SLOTS as nat, self.spec_occupancy());
                }
            } else {
                assert(count1 == c1);
                assert(c1 == c);
                assert(count1 == count0);
                assert(!lf.reached(count0, c));
                let n = lf.num();
                let d = lf.den();
                assert((c + 1) * d < n * (2 * c) + d) by (nonlinear_arith)
                    requires
                        c * d < n * c,
                ;
                assert(n > d) by (nonlinear_arith)
                    requires
                        c * d < n * c,
                ;
                assert(self.spec_occupancy() == c + 1);
                assert(self.slots@.len() == 2 * c);
            }
        }
        r
    }

    /// A mutable reference to the value stored under `key`, if any.
    pub fn get_mut(&mut self, key: &K) -> (r: Option<&mut V>)
        requires
            old(self).wf(),
        ensures
            match r {
                Some(v) => {
                    &&& old(self)@.get(key@) == Some(*v)
                    &&& final(self).wf()
                    &&& final(self)@ == old(self)@.insert(key@, *final(v))
                    &&& final(self).spec_capacity() == old(self).spec_capacity()
                    &&& final(self).spec_tombs() == old(self).spec_tombs()
                    &&& final(self).spec_load_factor() == old(self).spec_load_factor()
                },
                None => !old(self)@.contains_key(key@) && *final(self) == *old(self),
            },
    {
        proof {
            self.lemma_wf();
        }
        if self.length == 0 {
            proof {
                lemma_len_zero_empty(self@);
            }
            return None;
        }
        match self.find(key) {
            Probe::Found(i) => {
                let ghost before = *self;
                let ghost k0 = self.slots@[i as int]->Occupied_0;
                proof {
                    assert forall|b: Self|
                        #![trigger b.wf()]
                        #![trigger b.view()]
                        b.slots@ == before.slots@.update(
                            i as int,
                            Slot::Occupied(k0, b.slots@[i as int]->Occupied_1),
                        ) && b.pos == before.pos && b.length == before.length && b.tomb_count
                            == before.tomb_count && b.load_factor == before.load_factor implies b.wf()
                        && b@ == before@.insert(k0@, b.slots@[i as int]->Occupied_1) by {
                        Self::lemma_value_replaced(before, b, i as int, k0, b.slots@[i as int]->Occupied_1);
                    }
                }
                let v = value_mut(&mut self.slots[i]);
                Some(v)
            },
            _ => None,
        }
    }

    /// Replacing the value in an occupied slot keeps the table consistent and
    /// replaces the value of that slot's key.
    proof fn lemma_value_replaced(a: Self, b: Self, i: int, k: K, v: V)
        requires
            a.wf(),
            0 <= i < a.slots@.len(),
            a.slots@[i] is Occupied,
            a.slots@[i]->Occupied_0 == k,
            b.slots@ == a.slots@.update(i, Slot::Occupied(k, v)),
            b.pos == a.pos,
            b.length == a.length,
            b.tomb_count == a.tomb_count,
            b.load_factor == a.load_factor,
        ensures
            b.wf(),
            b@ == a@.insert(k@, v),
    {
        let x = Slot::Occupied(k, v);
        lemma_update(a.slots@, a.pos@, i, x);
        lemma_count_update(a.slots@, i, x);
        assert(reindexed(a.slots@, a.pos@, i, x) =~= a.pos@);
        let n = a.slots@.len() as int;
        assert forall|k2: K::V, d: int|
            a.pos@.contains_key(k2) && 0 <= d < dist(home::<K>(k2, n), a.pos@[k2], n) implies !(#[trigger] b.slots@[probe(
            home::<K>(k2, n),
            d,
            n,
        )] is Empty) && #[trigger] a.pos@.contains_key(k2) by {
            assert(!(a.slots@[probe(home::<K>(k2, n), d, n)] is Empty));
        }
        assert(b@ =~= a@.insert(k@, v));
    }

    /// A key is absent when the probe from its home reaches an empty slot
    /// before finding it.
    proof fn lemma_absent_at_empty(&self, k: K::V, d: int)
        requires
            self.wf(),
            self.slots@.len() > 0,
            0 <= d < self.slots@.len(),
            self.slots@[probe(home::<K>(k, self.slots@.len() as int), d, self.slots@.len() as int)] is Empty,
            forall|e: int| 0 <= e < d ==> !(#[trigger] self.slots@[probe(
                home::<K>(k, self.slots@.len() as int),
                e,
                self.slots@.len() as int,
            )]).holds(k),
        ensures
            !self.pos@.contains_key(k),
    {
        let n = self.slots@.len() as int;
        let hh = home::<K>(k, n);
        if self.pos@.contains_key(k) {
            let p = self.pos@[k];
            let dk = dist(hh, p, n);
            assert(probe(hh, dk, n) == p);
            if dk < d {
                assert(self.slots@[probe(hh, dk, n)].holds(k));
            } else if dk > d {
                assert(!(self.slots@[probe(hh, d, n)] is Empty));
            } else {
                assert(self.slots@[p].holds(k));
            }
        }
    }

    /// A key is absent when a full cycle of probing did not find it.
    proof fn lemma_absent_after_cycle(&self, k: K::V)
        requires
            self.wf(),
            self.slots@.len() > 0,
            forall|e: int| 0 <= e < self.slots@.len() ==> !(#[trigger] self.slots@[probe(
                home::<K>(k, self.slots@.len() as int),
                e,
                self.slots@.len() as int,
            )]).holds(k),
        ensures
            !self.pos@.contains_key(k),
    {
        let n = self.slots@.len() as int;
        let hh = home::<K>(k, n);
        if self.pos@.contains_key(k) {
            let p = self.pos@[k];
            assert(probe(hh, dist(hh, p, n), n) == p);
            assert(self.slots@[p].holds(k));
        }
    }
}

impl<K: TableKey, V> Default for HashMap<K, V> {
    /// The same as `new`.
    fn default() -> (r: Self)
        ensures
            r.wf(),
            r@ == Map::<K::V, V>::empty(),
            r.spec_capacity() == 0,
    {
        Self::new()
    }
}

} // verus!
