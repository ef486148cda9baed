//! Slot arrays shared by the open-addressing and cuckoo tables: each live
//! key sits in exactly one slot, and a ghost index maps each key's view to
//! that slot.
use crate::key::TableKey;
use vstd::prelude::*;

verus! {

/// One slot of a table.
pub enum Slot<K, V> {
    /// Never written since the table was built or cleared.
    Empty,
    /// Held an entry that was removed.
    Tomb,
    /// Holds a live entry.
    Occupied(K, V),
}

impl<K: View, V> Slot<K, V> {
    pub open spec fn holds(self, k: K::V) -> bool {
        self matches Slot::Occupied(key, _) && key@ == k
    }

    pub open spec fn key_view(self) -> K::V
        recommends
            self is Occupied,
    {
        self->Occupied_0@
    }

    pub open spec fn value(self) -> V
        recommends
            self is Occupied,
    {
        self->Occupied_1
    }
}

/// The value held by an occupied slot, for writing.
pub fn value_mut<K, V>(slot: &mut Slot<K, V>) -> (r: &mut V)
    requires
        *old(slot) is Occupied,
    ensures
        *r == (*old(slot))->Occupied_1,
        *final(slot) == Slot::Occupied((*old(slot))->Occupied_0, *final(r)),
{
    match slot {
        Slot::Occupied(_, v) => v,
        _ => vstd::pervasive::unreached(),
    }
}

impl<K: TableKey, V> Slot<K, V> {
    /// Whether the slot holds `key`.
    pub fn holds_key(&self, key: &K) -> (r: bool)
        ensures
            r == self.holds(key@),
    {
        match self {
            Slot::Occupied(k, _) => k.same_key(key),
            _ => false,
        }
    }
}

/// `pos` maps the view of each key in `s` to the one slot that holds it.
pub open spec fn indexed<K: View, V>(s: Seq<Slot<K, V>>, pos: Map<K::V, int>) -> bool {
    &&& pos.dom().finite()
    &&& forall|k: K::V| #[trigger]
        pos.contains_key(k) ==> 0 <= pos[k] < s.len() && s[pos[k]].holds(k)
    &&& forall|i: int|
        0 <= i < s.len() && (#[trigger] s[i]) is Occupied ==> pos.contains_key(s[i].key_view())
            && pos[s[i].key_view()] == i
}

/// The key-value pairs held by the slots.
pub open spec fn contents<K: View, V>(s: Seq<Slot<K, V>>, pos: Map<K::V, int>) -> Map<K::V, V> {
    Map::new(|k: K::V| pos.contains_key(k), |k: K::V| s[pos[k]].value())
}

/// The index after slot `i` has been overwritten with `x`.
pub open spec fn reindexed<K: View, V>(
    s: Seq<Slot<K, V>>,
    pos: Map<K::V, int>,
    i: int,
    x: Slot<K, V>,
) -> Map<K::V, int> {
    let p = if s[i] is Occupied {
        pos.remove(s[i].key_view())
    } else {
        pos
    };
    if x is Occupied {
        p.insert(x.key_view(), i)
    } else {
        p
    }
}

/// The contents after slot `i` has been overwritten with `x`.
pub open spec fn recontents<K: View, V>(
    m: Map<K::V, V>,
    old_slot: Slot<K, V>,
    x: Slot<K, V>,
) -> Map<K::V, V> {
    let p = if old_slot is Occupied {
        m.remove(old_slot.key_view())
    } else {
        m
    };
    if x is Occupied {
        p.insert(x.key_view(), x.value())
    } else {
        p
    }
}

pub proof fn lemma_contents_dom<K: View, V>(s: Seq<Slot<K, V>>, pos: Map<K::V, int>)
    requires
        indexed(s, pos),
    ensures
        contents(s, pos).dom() == pos.dom(),
        contents(s, pos).len() == pos.len(),
{
    assert(contents(s, pos).dom() =~= pos.dom());
}

/// Overwriting one slot keeps the index exact, provided the new entry's key
/// is not held by another slot.
pub proof fn lemma_update<K: View, V>(
    s: Seq<Slot<K, V>>,
    pos: Map<K::V, int>,
    i: int,
    x: Slot<K, V>,
)
    requires
        indexed(s, pos),
        0 <= i < s.len(),
        x is Occupied ==> !pos.contains_key(x.key_view()) || pos[x.key_view()] == i,
    ensures
        indexed(s.update(i, x), reindexed(s, pos, i, x)),
        contents(s.update(i, x), reindexed(s, pos, i, x)) == recontents(contents(s, pos), s[i], x),
{
    let s2 = s.update(i, x);
    let p2 = reindexed(s, pos, i, x);
    assert forall|k: K::V| #[trigger] p2.contains_key(k) implies 0 <= p2[k] < s2.len()
        && s2[p2[k]].holds(k) by {
        if x is Occupied && k == x.key_view() {
        } else {
            assert(pos.contains_key(k));
        }
    }
    assert forall|j: int| 0 <= j < s2.len() && (#[trigger] s2[j]) is Occupied implies p2.contains_key(
        s2[j].key_view(),
    ) && p2[s2[j].key_view()] == j by {
        if j != i {
            assert(s[j] is Occupied);
            assert(pos.contains_key(s[j].key_view()));
        }
    }
    assert(contents(s2, p2) =~= recontents(contents(s, pos), s[i], x));
}

/// Appending an empty slot changes neither the index nor the contents.
pub proof fn lemma_push_empty<K: View, V>(s: Seq<Slot<K, V>>, pos: Map<K::V, int>)
    requires
        indexed(s, pos),
    ensures
        indexed(s.push(Slot::Empty), pos),
        contents(s.push(Slot::Empty), pos) == contents(s, pos),
{
    let s2 = s.push(Slot::Empty);
    assert forall|j: int| 0 <= j < s2.len() && (#[trigger] s2[j]) is Occupied implies pos.contains_key(
        s2[j].key_view(),
    ) && pos[s2[j].key_view()] == j by {
        assert(s[j] is Occupied);
    }
    assert forall|k: K::V| #[trigger] pos.contains_key(k) implies 0 <= pos[k] < s2.len()
        && s2[pos[k]].holds(k) by {
        assert(s[pos[k]] == s2[pos[k]]);
    }
    assert(contents(s2, pos) =~= contents(s, pos));
}

pub open spec fn occupied_count<K, V>(s: Seq<Slot<K, V>>) -> nat
    decreases s.len(),
{
    if s.len() == 0 {
        0
    } else {
        occupied_count(s.drop_last()) + if s.last() is Occupied {
            1nat
        } else {
            0nat
        }
    }
}

pub open spec fn tomb_count<K, V>(s: Seq<Slot<K, V>>) -> nat
    decreases s.len(),
{
    if s.len() == 0 {
        0
    } else {
        tomb_count(s.drop_last()) + if s.last() is Tomb {
            1nat
        } else {
            0nat
        }
    }
}

pub proof fn lemma_count_update<K, V>(s: Seq<Slot<K, V>>, i: int, x: Slot<K, V>)
    requires
        0 <= i < s.len(),
    ensures
        occupied_count(s.update(i, x)) + (if s[i] is Occupied {
            1int
        } else {
            0int
        }) == occupied_count(s) + (if x is Occupied {
            1int
        } else {
            0int
        }),
        tomb_count(s.update(i, x)) + (if s[i] is Tomb {
            1int
        } else {
            0int
        }) == tomb_count(s) + (if x is Tomb {
            1int
        } else {
            0int
        }),
    decreases s.len(),
{
    let s2 = s.update(i, x);
    if i < s.len() - 1 {
        assert(s2.drop_last() =~= s.drop_last().update(i, x));
        lemma_count_update(s.drop_last(), i, x);
    } else {
        assert(s2.drop_last() =~= s.drop_last());
    }
}

pub proof fn lemma_count_push<K, V>(s: Seq<Slot<K, V>>, x: Slot<K, V>)
    ensures
        occupied_count(s.push(x)) == occupied_count(s) + (if x is Occupied {
            1nat
        } else {
            0nat
        }),
        tomb_count(s.push(x)) == tomb_count(s) + (if x is Tomb {
            1nat
        } else {
            0nat
        }),
{
    assert(s.push(x).drop_last() =~= s);
}

pub proof fn lemma_count_bound<K, V>(s: Seq<Slot<K, V>>)
    ensures
        occupied_count(s) + tomb_count(s) <= s.len(),
        occupied_count(s) + tomb_count(s) < s.len() ==> exists|i: int|
            0 <= i < s.len() && (#[trigger] s[i]) is Empty,
    decreases s.len(),
{
    if s.len() > 0 {
        lemma_count_bound(s.drop_last());
        if occupied_count(s) + tomb_count(s) < s.len() {
            if !(s.last() is Empty) {
                let i = choose|i: int| 0 <= i < s.drop_last().len() && (#[trigger] s.drop_last()[i]) is Empty;
                assert(s[i] is Empty);
            } else {
                assert(s[s.len() - 1] is Empty);
            }
        }
    }
}

pub proof fn lemma_all_occupied<K, V>(s: Seq<Slot<K, V>>)
    requires
        forall|i: int| 0 <= i < s.len() ==> (#[trigger] s[i]) is Occupied,
    ensures
        occupied_count(s) == s.len(),
    decreases s.len(),
{
    if s.len() > 0 {
        assert forall|i: int| 0 <= i < s.drop_last().len() implies (#[trigger] s.drop_last()[i]) is Occupied by {
            assert(s[i] is Occupied);
        }
        lemma_all_occupied(s.drop_last());
        assert(s[s.len() - 1] is Occupied);
    }
}

/// The index counts the occupied slots exactly.
pub proof fn lemma_index_len<K: View, V>(s: Seq<Slot<K, V>>, pos: Map<K::V, int>)
    requires
        indexed(s, pos),
    ensures
        pos.len() == occupied_count(s),
    decreases s.len(),
{
    if s.len() == 0 {
        assert(pos.dom() =~= Set::empty());
    } else {
        let n = s.len() - 1;
        let t = s.drop_last();
        if s[n] is Occupied {
            let k = s[n].key_view();
            let p = pos.remove(k);
            assert(indexed(t, p)) by {
                assert forall|j: int| 0 <= j < t.len() && (#[trigger] t[j]) is Occupied implies p.contains_key(
                    t[j].key_view(),
                ) && p[t[j].key_view()] == j by {
                    assert(s[j] is Occupied);
                }
                assert forall|k2: K::V| #[trigger] p.contains_key(k2) implies 0 <= p[k2] < t.len()
                    && t[p[k2]].holds(k2) by {
                    assert(pos.contains_key(k2));
                }
            }
            lemma_index_len(t, p);
        } else {
            assert(indexed(t, pos)) by {
                assert forall|j: int| 0 <= j < t.len() && (#[trigger] t[j]) is Occupied implies pos.contains_key(
                    t[j].key_view(),
                ) && pos[t[j].key_view()] == j by {
                    assert(s[j] is Occupied);
                }
                assert forall|k2: K::V| #[trigger] pos.contains_key(k2) implies 0 <= pos[k2] < t.len()
                    && t[pos[k2]].holds(k2) by {
                    assert(s[pos[k2]].holds(k2));
                }
            }
            lemma_index_len(t, pos);
        }
    }
}

/// A vector of `n` empty slots.
pub fn empty_slots<K: View, V>(n: usize) -> (r: Vec<Slot<K, V>>)
    ensures
        r@.len() == n,
        forall|i: int| 0 <= i < n ==> (#[trigger] r@[i]) is Empty,
        indexed(r@, Map::empty()),
        occupied_count(r@) == 0,
        tomb_count(r@) == 0,
{
    let mut r: Vec<Slot<K, V>> = Vec::new();
    while r.len() < n
        invariant
            r@.len() <= n,
            forall|i: int| 0 <= i < r@.len() ==> (#[trigger] r@[i]) is Empty,
            occupied_count(r@) == 0,
            tomb_count(r@) == 0,
        decreases n - r@.len(),
    {
        proof {
            lemma_count_push(r@, Slot::Empty);
        }
        r.push(Slot::Empty);
    }
    r
}

/// The map given by a list of key-value pairs, later pairs taking precedence.
pub open spec fn pairs_map<K: View, V>(ps: Seq<(K, V)>) -> Map<K::V, V>
    decreases ps.len(),
{
    if ps.len() == 0 {
        Map::empty()
    } else {
        pairs_map(ps.drop_last()).insert(ps.last().0@, ps.last().1)
    }
}

/// No two pairs have the same key.
pub open spec fn distinct_keys<K: View, V>(ps: Seq<(K, V)>) -> bool {
    forall|i: int, j: int|
        0 <= i < ps.len() && 0 <= j < ps.len() && i != j ==> (#[trigger] ps[i]).0@ != (#[trigger] ps[j]).0@
}

pub proof fn lemma_pairs_map_has<K: View, V>(ps: Seq<(K, V)>, k: K::V)
    ensures
        pairs_map(ps).contains_key(k) <==> exists|i: int| 0 <= i < ps.len() && (#[trigger] ps[i]).0@ == k,
    decreases ps.len(),
{
    if ps.len() > 0 {
        lemma_pairs_map_has(ps.drop_last(), k);
        if pairs_map(ps.drop_last()).contains_key(k) {
            let i = choose|i: int| 0 <= i < ps.drop_last().len() && (#[trigger] ps.drop_last()[i]).0@ == k;
            assert(ps[i].0@ == k);
        }
        if exists|i: int| 0 <= i < ps.len() && (#[trigger] ps[i]).0@ == k {
            let i = choose|i: int| 0 <= i < ps.len() && (#[trigger] ps[i]).0@ == k;
            if i < ps.len() - 1 {
                assert(ps.drop_last()[i].0@ == k);
            }
        }
    }
}

pub proof fn lemma_pairs_map_finite<K: View, V>(ps: Seq<(K, V)>)
    ensures
        pairs_map(ps).dom().finite(),
    decreases ps.len(),
{
    if ps.len() > 0 {
        lemma_pairs_map_finite(ps.drop_last());
    }
}

/// Takes every entry out of `slots`, leaving it empty.
pub fn drain_slots<K: View, V>(slots: &mut Vec<Slot<K, V>>, Ghost(pos): Ghost<Map<K::V, int>>) -> (r: Vec<(K, V)>)
    requires
        indexed(old(slots)@, pos),
    ensures
        final(slots)@.len() == 0,
        distinct_keys(r@),
        pairs_map(r@) == contents(old(slots)@, pos),
{
    let ghost s0 = slots@;
    let mut out: Vec<(K, V)> = Vec::new();
    while slots.len() > 0
        invariant
            indexed(s0, pos),
            slots@ == s0.take(slots@.len() as int),
            slots@.len() <= s0.len(),
            distinct_keys(out@),
            forall|k: K::V| #[trigger]
                pairs_map(out@).contains_key(k) <==> pos.contains_key(k) && pos[k] >= slots@.len(),
            forall|k: K::V| #[trigger]
                pairs_map(out@).contains_key(k) ==> pairs_map(out@)[k] == s0[pos[k]].value(),
        decreases slots@.len(),
    {
        let ghost n = slots@.len() as int;
        let slot = slots.pop().unwrap();
        assert(slot == s0[n - 1]);
        match slot {
            Slot::Occupied(k, v) => {
                proof {
                    assert(s0[n - 1] is Occupied);
                    assert(pos.contains_key(k@));
                    assert forall|j: int| 0 <= j < out@.len() implies (#[trigger] out@[j]).0@ != k@ by {
                        lemma_pairs_map_has(out@, out@[j].0@);
                    }
                }
                let ghost old_out = out@;
                out.push((k, v));
                proof {
                    assert(out@.drop_last() =~= old_out);
                    assert(pairs_map(out@) == pairs_map(old_out).insert(k@, s0[n - 1].value()));
                    assert(pos[k@] == n - 1);
                    assert forall|k2: K::V| #[trigger]
                        pairs_map(out@).contains_key(k2) <==> pos.contains_key(k2) && pos[k2] >= n - 1 by {
                        if pos.contains_key(k2) && pos[k2] == n - 1 {
                            assert(s0[n - 1].holds(k2));
                        }
                    }
                }
            },
            _ => {
                proof {
                    assert forall|k2: K::V| #[trigger]
                        pairs_map(out@).contains_key(k2) <==> pos.contains_key(k2) && pos[k2] >= n - 1 by {
                        if pos.contains_key(k2) && pos[k2] == n - 1 {
                            assert(s0[n - 1].holds(k2));
                        }
                    }
                }
            },
        }
        assert(slots@ =~= s0.take(slots@.len() as int));
    }
    assert(pairs_map(out@) =~= contents(s0, pos));
    out
}

} // verus!
