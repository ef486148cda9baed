//! Keys of the tables: a deterministic byte encoding to hash, and an
//! equality test that agrees with the key's view.
use std::collections::hash_map::DefaultHasher;
use std::hash::Hasher;
use vstd::bytes::*;
use vstd::prelude::*;
use vstd::std_specs::hash::DefaultHasherAdditionalSpecFns;
use vstd::utf8::*;

verus! {

/// The byte written after a string's bytes, as `str`'s `Hash` impl does, so
/// that the writes of two strings never run together.
pub const STR_END: u8 = 0xff;

/// What a table needs of its key type: the writes to feed a hasher, which
/// depend on the key's view alone, and an equality test that is equality of
/// views. This crate implements it for the integer types and strings; an
/// implementation for another key type must meet these contracts, which the
/// tables rely on.
pub trait TableKey: View + Sized {
    /// The writes fed to a hasher for a key whose view is `k`.
    spec fn spec_key_writes(k: Self::V) -> Seq<Seq<u8>>;

    /// Feeds the key's writes to `state`.
    fn write_key(&self, state: &mut DefaultHasher)
        ensures
            final(state)@ == old(state)@ + Self::spec_key_writes(self@),
    ;

    /// Whether two keys are the same key.
    fn same_key(&self, other: &Self) -> (r: bool)
        ensures
            r == (self@ == other@),
    ;
}

/// The hash of a key with view `k` under the unseeded hash function.
pub open spec fn spec_plain_hash<K: TableKey>(k: K::V) -> u64 {
    DefaultHasher::spec_finish(K::spec_key_writes(k))
}

/// The hash of a key with view `k` under the hash function selected by `seed`.
pub open spec fn spec_hash<K: TableKey>(k: K::V, seed: u64) -> u64 {
    DefaultHasher::spec_finish(seq![spec_u64_to_le_bytes(seed)] + K::spec_key_writes(k))
}

/// Hashes `key` with the unseeded hash function.
pub fn plain_hash_key<K: TableKey>(key: &K) -> (r: u64)
    ensures
        r == spec_plain_hash::<K>(key@),
{
    let mut state = DefaultHasher::new();
    key.write_key(&mut state);
    assert(state@ =~= K::spec_key_writes(key@));
    state.finish()
}

/// Hashes `key` with the hash function selected by `seed`.
pub fn hash_key<K: TableKey>(key: &K, seed: u64) -> (r: u64)
    ensures
        r == spec_hash::<K>(key@, seed),
{
    let mut state = DefaultHasher::new();
    let seed_bytes = u64_to_le_bytes(seed);
    state.write(seed_bytes.as_slice());
    key.write_key(&mut state);
    assert(state@ =~= seq![spec_u64_to_le_bytes(seed)] + K::spec_key_writes(key@));
    state.finish()
}

impl TableKey for u32 {
    open spec fn spec_key_writes(k: u32) -> Seq<Seq<u8>> {
        seq![spec_u32_to_le_bytes(k)]
    }

    fn write_key(&self, state: &mut DefaultHasher) {
        let bytes = u32_to_le_bytes(*self);
        state.write(bytes.as_slice());
    }

    fn same_key(&self, other: &Self) -> (r: bool) {
        *self == *other
    }
}

impl TableKey for i32 {
    open spec fn spec_key_writes(k: i32) -> Seq<Seq<u8>> {
        seq![spec_u32_to_le_bytes(k as u32)]
    }

    fn write_key(&self, state: &mut DefaultHasher) {
        let bytes = u32_to_le_bytes(*self as u32);
        state.write(bytes.as_slice());
    }

    fn same_key(&self, other: &Self) -> (r: bool) {
        *self == *other
    }
}

impl TableKey for u64 {
    open spec fn spec_key_writes(k: u64) -> Seq<Seq<u8>> {
        seq![spec_u64_to_le_bytes(k)]
    }

    fn write_key(&self, state: &mut DefaultHasher) {
        let bytes = u64_to_le_bytes(*self);
        state.write(bytes.as_slice());
    }

    fn same_key(&self, other: &Self) -> (r: bool) {
        *self == *other
    }
}

impl TableKey for i64 {
    open spec fn spec_key_writes(k: i64) -> Seq<Seq<u8>> {
        seq![spec_u64_to_le_bytes(k as u64)]
    }

    fn write_key(&self, state: &mut DefaultHasher) {
        let bytes = u64_to_le_bytes(*self as u64);
        state.write(bytes.as_slice());
    }

    fn same_key(&self, other: &Self) -> (r: bool) {
        *self == *other
    }
}

impl TableKey for usize {
    open spec fn spec_key_writes(k: usize) -> Seq<Seq<u8>> {
        seq![spec_u64_to_le_bytes(k as u64)]
    }

    fn write_key(&self, state: &mut DefaultHasher) {
        let bytes = u64_to_le_bytes(*self as u64);
        state.write(bytes.as_slice());
    }

    fn same_key(&self, other: &Self) -> (r: bool) {
        *self == *other
    }
}

impl TableKey for u128 {
    open spec fn spec_key_writes(k: u128) -> Seq<Seq<u8>> {
        seq![spec_u128_to_le_bytes(k)]
    }

    fn write_key(&self, state: &mut DefaultHasher) {
        let bytes = u128_to_le_bytes(*self);
        state.write(bytes.as_slice());
    }

    fn same_key(&self, other: &Self) -> (r: bool) {
        *self == *other
    }
}

impl TableKey for String {
    open spec fn spec_key_writes(k: Seq<char>) -> Seq<Seq<u8>> {
        seq![encode_utf8(k), seq![STR_END]]
    }

    fn write_key(&self, state: &mut DefaultHasher) {
        let ghost s0 = state@;
        state.write(self.as_str().as_bytes());
        let end: Vec<u8> = vec![STR_END];
        assert(end@ =~= seq![STR_END]);
        state.write(end.as_slice());
        assert(state@ =~= s0 + Self::spec_key_writes(self@));
    }

    fn same_key(&self, other: &Self) -> (r: bool) {
        *self == *other
    }
}

impl<'a> TableKey for &'a str {
    open spec fn spec_key_writes(k: Seq<char>) -> Seq<Seq<u8>> {
        seq![encode_utf8(k), seq![STR_END]]
    }

    fn write_key(&self, state: &mut DefaultHasher) {
        let ghost s0 = state@;
        state.write(self.as_bytes());
        let end: Vec<u8> = vec![STR_END];
        assert(end@ =~= seq![STR_END]);
        state.write(end.as_slice());
        assert(state@ =~= s0 + Self::spec_key_writes(self@));
    }

    fn same_key(&self, other: &Self) -> (r: bool) {
        let a = self.as_bytes();
        let b = other.as_bytes();
        assert(a@ == encode_utf8(self@));
        assert(b@ == encode_utf8(other@));
        proof {
            encode_utf8_decode_utf8(self@);
            encode_utf8_decode_utf8(other@);
        }
        if a.len() != b.len() {
            assert(a@.len() != b@.len());
            assert(a@ != b@);
            return false;
        }
        let mut i: usize = 0;
        while i < a.len()
            invariant
                a.len() == b.len(),
                a@ == encode_utf8(self@),
                b@ == encode_utf8(other@),
                0 <= i <= a.len(),
                forall|j: int| 0 <= j < i ==> a@[j] == b@[j],
            decreases a.len() - i,
        {
            if a[i] != b[i] {
                assert(a@[i as int] != b@[i as int]);
                assert(a@ != b@);
                return false;
            }
            i = i + 1;
        }
        assert(a@ =~= b@);
        true
    }
}

} // verus!
