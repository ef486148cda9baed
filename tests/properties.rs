use hashtables::chaining_hashing;
use hashtables::chaining_hashing_concurrent;
use hashtables::chaining_hashing_concurrent_optimized;
use hashtables::cuckoo_hashing;
use hashtables::load::{LoadFactor, Ratio};
use hashtables::open_hashing;
use hashtables::quad_cuckoo_hashing;
use std::sync::Arc;

fn ratio(r: Ratio) -> f64 {
    r.numerator as f64 / r.denominator as f64
}

const N: i32 = 100_000;

#[test]
fn chaining_hundred_thousand_keys() {
    let mut table = chaining_hashing::HashMap::with_load_factor(LoadFactor::new(1, 2));
    for i in 0..N {
        assert_eq!(table.insert(i, i), None);
    }
    assert_eq!(table.len(), N as usize);
    for i in 0..N {
        assert_eq!(table.get(&i), Some(&i));
    }
}

#[test]
fn open_hundred_thousand_keys() {
    let mut table = open_hashing::HashMap::with_load_factor(LoadFactor::new(1, 2));
    for i in 0..N {
        assert_eq!(table.insert(i, i), None);
    }
    assert_eq!(table.len(), N as usize);
    for i in 0..N {
        assert_eq!(table.get(&i), Some(&i));
    }
}

#[test]
fn cuckoo_hundred_thousand_keys() {
    let mut table = cuckoo_hashing::HashMap::with_load_factor(LoadFactor::new(1, 2));
    for i in 0..N {
        assert_eq!(table.insert(i, i), None);
    }
    assert_eq!(table.len(), N as usize);
    for i in 0..N {
        assert_eq!(table.get(&i), Some(&i));
    }
}

#[test]
fn quad_cuckoo_hundred_thousand_keys() {
    let mut table = quad_cuckoo_hashing::HashMap::with_load_factor(LoadFactor::new(1, 2));
    for i in 0..N {
        assert_eq!(table.insert(i, i), None);
    }
    assert_eq!(table.len(), N as usize);
    for i in 0..N {
        assert_eq!(table.get(&i), Some(&i));
    }
}

#[test]
fn concurrent_hundred_thousand_keys() {
    let table = chaining_hashing_concurrent::HashMap::with_load_factor(LoadFactor::new(1, 2));
    for i in 0..N {
        assert_eq!(table.insert(i, Arc::new(i)), None);
    }
    assert_eq!(table.len(), N as usize);
    for i in 0..N {
        assert_eq!(table.get(&i), Some(Arc::new(i)));
    }
}

#[test]
fn fixed_concurrent_hundred_thousand_keys() {
    let table = chaining_hashing_concurrent_optimized::HashMap::with_capacity(1024);
    for i in 0..N {
        assert_eq!(table.insert(i, Arc::new(i)), None);
    }
    for i in 0..N {
        assert_eq!(table.get(&i), Some(Arc::new(i)));
    }
}

#[test]
fn len_counts_distinct_keys() {
    let keys = [5, 1, 5, 2, 1, 5, 9];
    let mut a = chaining_hashing::HashMap::new();
    let mut b = open_hashing::HashMap::new();
    let mut c = cuckoo_hashing::HashMap::new();
    let mut d = quad_cuckoo_hashing::HashMap::new();
    let e = chaining_hashing_concurrent::HashMap::new();
    for (n, k) in keys.iter().enumerate() {
        a.insert(*k, n);
        b.insert(*k, n);
        c.insert(*k, n);
        d.insert(*k, n);
        e.insert(*k, Arc::new(n));
    }
    assert_eq!(a.len(), 4);
    assert_eq!(b.len(), 4);
    assert_eq!(c.len(), 4);
    assert_eq!(d.len(), 4);
    assert_eq!(e.len(), 4);
    assert_eq!(a.get(&5), Some(&5));
    assert_eq!(b.get(&1), Some(&4));
    assert_eq!(c.get(&9), Some(&6));
    assert_eq!(d.get(&2), Some(&3));
    assert_eq!(e.get(&5), Some(Arc::new(5)));
}

#[test]
fn overwrite_keeps_length() {
    let mut table = open_hashing::HashMap::new();
    assert_eq!(table.insert("k", 1), None);
    assert_eq!(table.insert("k", 2), Some(1));
    assert_eq!(table.insert("k", 3), Some(2));
    assert_eq!(table.len(), 1);
    assert_eq!(table.get(&"k"), Some(&3));
}

#[test]
fn remove_then_get() {
    let mut table = quad_cuckoo_hashing::HashMap::new();
    assert_eq!(table.remove(&7), None);
    table.insert(7, "seven");
    table.insert(8, "eight");
    assert_eq!(table.remove(&7), Some("seven"));
    assert_eq!(table.get(&7), None);
    assert_eq!(table.remove(&7), None);
    assert_eq!(table.len(), 1);
}

#[test]
fn chain_removal_in_every_position() {
    let mut table = chaining_hashing::HashMap::with_exact_capacity(1, LoadFactor::new(100, 1));
    for k in 0..5 {
        table.insert(k, k * 10);
    }
    assert_eq!(table.capacity(), 1);
    assert_eq!(table.remove(&2), Some(20));
    assert_eq!(table.remove(&0), Some(0));
    assert_eq!(table.remove(&4), Some(40));
    assert_eq!(table.get(&1), Some(&10));
    assert_eq!(table.get(&3), Some(&30));
    assert_eq!(table.remove(&1), Some(10));
    assert_eq!(table.remove(&3), Some(30));
    assert!(table.is_empty());
}

#[test]
fn clear_forgets_every_key() {
    let mut table = cuckoo_hashing::HashMap::new();
    for k in 0..50u64 {
        table.insert(k, k);
    }
    let capacity = table.capacity();
    table.clear();
    assert_eq!(table.len(), 0);
    assert_eq!(table.capacity(), capacity);
    for k in 0..50u64 {
        assert_eq!(table.get(&k), None);
    }
}

#[test]
fn fill_factor_stays_within_one_entry_of_load_factor() {
    let mut table = chaining_hashing::HashMap::with_load_factor(LoadFactor::new(1, 2));
    for k in 0..1000usize {
        table.insert(k, k);
        let fill = table.fill_factor();
        assert!(((fill.numerator - 1) as f64) / (fill.denominator as f64) < 0.5);
    }
    let mut open = open_hashing::HashMap::with_load_factor(LoadFactor::new(1, 2));
    for k in 0..1000i64 {
        open.insert(k, k);
        if k % 3 == 0 {
            open.remove(&k);
        }
        let occupied = open.len() + open.tomb_count();
        assert!(((occupied - 1) as f64) / (open.capacity() as f64) < 0.5);
    }
}

#[test]
fn growth_doubles_capacity() {
    let mut table = chaining_hashing::HashMap::with_exact_capacity(4, LoadFactor::new(1, 2));
    table.insert(1u32, ());
    table.insert(2u32, ());
    assert_eq!(table.capacity(), 4);
    table.insert(3u32, ());
    assert_eq!(table.capacity(), 8);
    assert_eq!(ratio(table.fill_factor()), 0.375);
}

#[test]
fn first_insert_allocates_default_capacity() {
    let mut a = chaining_hashing::HashMap::new();
    let mut b = open_hashing::HashMap::new();
    let mut c = cuckoo_hashing::HashMap::new();
    let mut d = quad_cuckoo_hashing::HashMap::new();
    a.insert(1, 1);
    b.insert(1, 1);
    c.insert(1, 1);
    d.insert(1, 1);
    assert_eq!(a.capacity(), 64);
    assert_eq!(b.capacity(), 64);
    assert_eq!(c.capacity(), 64);
    assert_eq!(d.capacity(), 64);
    assert_eq!(d.bucket_count(), 16);
}

#[test]
fn tombstones_do_not_hide_later_keys() {
    let mut table = open_hashing::HashMap::with_exact_capacity(8, LoadFactor::new(1, 1));
    for k in 0..6 {
        table.insert(k, k);
    }
    for k in 0..3 {
        assert_eq!(table.remove(&k), Some(k));
    }
    assert_eq!(table.tomb_count(), 3);
    for k in 3..6 {
        assert_eq!(table.get(&k), Some(&k));
    }
    assert_eq!(table.insert(4, 40), Some(4));
    assert_eq!(table.len(), 3);
    assert_eq!(table.get(&4), Some(&40));
}

#[test]
fn full_open_table_grows_past_load_factor_above_one() {
    let mut table = open_hashing::HashMap::with_exact_capacity(4, LoadFactor::new(2, 1));
    for k in 0..9 {
        assert_eq!(table.insert(k, k), None);
    }
    assert_eq!(table.len(), 9);
    for k in 0..9 {
        assert_eq!(table.get(&k), Some(&k));
    }
}

#[test]
fn quad_evictions_keep_every_entry() {
    let mut table = quad_cuckoo_hashing::HashMap::with_exact_capacity(8, 2, 2, LoadFactor::new(1, 1));
    for k in 0..8 {
        assert_eq!(table.insert(k, k), None);
    }
    assert_eq!(table.len(), 8);
    for k in 0..8 {
        assert_eq!(table.get(&k), Some(&k));
    }
}

#[test]
fn cuckoo_full_tables_keep_every_entry() {
    let mut table = cuckoo_hashing::HashMap::with_exact_capacity(4, LoadFactor::new(10, 1));
    for k in 0..12 {
        assert_eq!(table.insert(k, k), None);
    }
    assert_eq!(table.len(), 12);
    for k in 0..12 {
        assert_eq!(table.get(&k), Some(&k));
    }
    for k in 0..12 {
        assert_eq!(table.remove(&k), Some(k));
    }
    assert!(table.is_empty());
}

#[test]
fn get_mut_writes_through() {
    let mut a = chaining_hashing::HashMap::new();
    let mut b = open_hashing::HashMap::new();
    let mut c = cuckoo_hashing::HashMap::new();
    let mut d = quad_cuckoo_hashing::HashMap::new();
    a.insert(String::from("x"), 1);
    b.insert(String::from("x"), 1);
    c.insert(String::from("x"), 1);
    d.insert(String::from("x"), 1);
    *a.get_mut(&String::from("x")).unwrap() += 1;
    *b.get_mut(&String::from("x")).unwrap() += 2;
    *c.get_mut(&String::from("x")).unwrap() += 3;
    *d.get_mut(&String::from("x")).unwrap() += 4;
    assert_eq!(a.get(&String::from("x")), Some(&2));
    assert_eq!(b.get(&String::from("x")), Some(&3));
    assert_eq!(c.get(&String::from("x")), Some(&4));
    assert_eq!(d.get(&String::from("x")), Some(&5));
    assert_eq!(a.get_mut(&String::from("y")), None);
}

#[test]
fn string_keys_compare_by_content() {
    let mut table = chaining_hashing::HashMap::new();
    let owned = String::from("ab");
    table.insert("ab", 1);
    table.insert("a", 2);
    table.insert("", 3);
    assert_eq!(table.get(&owned.as_str()), Some(&1));
    assert_eq!(table.get(&"a"), Some(&2));
    assert_eq!(table.get(&""), Some(&3));
    assert_eq!(table.get(&"b"), None);
    assert_eq!(table.len(), 3);
}

#[test]
fn concurrent_growth_and_clear() {
    let table = chaining_hashing_concurrent::HashMap::with_exact_capacity(2, LoadFactor::new(1, 2));
    for k in 0..100u64 {
        table.insert(k, Arc::new(k));
    }
    assert_eq!(table.len(), 100);
    assert!(ratio(table.fill_factor()) < 1.0);
    assert_eq!(table.remove(&50), Some(Arc::new(50)));
    assert_eq!(table.len(), 99);
    table.clear();
    assert!(table.is_empty());
    assert_eq!(table.get(&1), None);
}

#[test]
fn fixed_concurrent_clear() {
    let table = chaining_hashing_concurrent_optimized::HashMap::with_exact_capacity(3);
    table.insert(1, Arc::new(1));
    table.insert(1, Arc::new(2));
    assert_eq!(table.get(&1), Some(Arc::new(2)));
    assert_eq!(table.capacity(), 3);
    table.clear();
    assert_eq!(table.get(&1), None);
}

#[test]
fn load_factor_threshold() {
    let lf = LoadFactor::new(2, 5);
    assert_eq!(lf.numerator(), 2);
    assert_eq!(lf.denominator(), 5);
    assert!(!lf.is_reached(25, 64));
    assert!(lf.is_reached(26, 64));
    assert_eq!(Ratio::of(3, 0), Ratio { numerator: 0, denominator: 1 });
    assert_eq!(Ratio::of(3, 4), Ratio { numerator: 3, denominator: 4 });
}

#[test]
fn default_tables_start_empty() {
    let a: chaining_hashing::HashMap<i32, i32> = Default::default();
    let b: open_hashing::HashMap<i32, i32> = Default::default();
    let c: cuckoo_hashing::HashMap<i32, i32> = Default::default();
    let d: quad_cuckoo_hashing::HashMap<i32, i32> = Default::default();
    let e: chaining_hashing_concurrent::HashMap<i32, i32> = Default::default();
    assert!(a.is_empty() && b.is_empty() && c.is_empty() && d.is_empty() && e.is_empty());
    assert_eq!(a.capacity() + b.capacity() + c.capacity() + d.capacity(), 0);
    assert_eq!(e.get(&1), None);
}

#[test]
fn clear_drops_tombstones_so_next_insert_does_not_grow() {
    let mut table = open_hashing::HashMap::with_exact_capacity(8, LoadFactor::new(1, 2));
    for k in 0..3 {
        table.insert(k, k);
    }
    table.remove(&0);
    table.remove(&1);
    assert_eq!(table.tomb_count(), 2);
    table.clear();
    assert_eq!(table.tomb_count(), 0);
    table.insert(7, 7);
    assert_eq!(table.capacity(), 8);
    assert_eq!(table.len(), 1);
}

#[test]
fn fixed_shape_first_allocation() {
    let mut table = quad_cuckoo_hashing::HashMap::with_exact_capacity(0, 2, 3, LoadFactor::new(1, 2));
    table.insert(1, 1);
    assert_eq!(table.capacity(), 66);
    assert_eq!(table.bucket_count(), 33);
    assert_eq!(table.get(&1), Some(&1));
}
