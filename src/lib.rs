//! Associative-array engines built from first principles: separate chaining,
//! linear probing with tombstones, two-choice cuckoo hashing, bucketized
//! d-ary cuckoo hashing, and two lock-striped chaining tables for concurrent
//! callers. The single-threaded tables model their contents as a `Map` from
//! key views to values, and every operation's contract is stated over it.
pub mod chain;
pub mod chaining_hashing;
pub mod chaining_hashing_concurrent;
pub mod chaining_hashing_concurrent_optimized;
pub mod cuckoo_hashing;
pub mod key;
pub mod laws;
pub mod load;
mod locks;
pub mod model;
pub mod open_hashing;
pub mod quad_cuckoo_hashing;
mod random;
pub mod slots;
