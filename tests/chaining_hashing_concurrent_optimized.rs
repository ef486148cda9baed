use hashtables::chaining_hashing_concurrent_optimized::HashMap;
use std::sync::Arc;

#[test]
fn chaining_hashing_concurrent_optimized_test_with_capacity() {
    HashMap::<u128, u128>::with_capacity(10);
}

#[test]
fn chaining_hashing_concurrent_optimized_test_insert() {
    let table = HashMap::with_exact_capacity(8);
    assert_eq!(table.insert(1, Arc::new(10)), None);
    assert_eq!(table.insert(1, Arc::new(20)), Some(Arc::new(10)));
    assert_eq!(table.insert(2, Arc::new(30)), None);
}

#[test]
fn chaining_hashing_concurrent_optimized_test_get() {
    let table = HashMap::with_capacity(8);
    table.insert(1, Arc::new(10));
    assert_eq!(table.get(&1), Some(Arc::new(10)));
    assert_eq!(table.get(&2), None);
    table.insert(2, Arc::new(20));
    assert_eq!(table.get(&1), Some(Arc::new(10)));
    assert_eq!(table.get(&2), Some(Arc::new(20)));
}

#[test]
fn chaining_hashing_concurrent_optimized_test_remove() {
    let table = HashMap::with_capacity(64);
    table.insert(1, Arc::new(10));
    assert_eq!(table.remove(&2), None);
    assert_eq!(table.remove(&1), Some(Arc::new(10)));
    table.insert(1, Arc::new(20));
    table.insert(2, Arc::new(30));
    assert_eq!(table.remove(&1), Some(Arc::new(20)));
    assert_eq!(table.remove(&2), Some(Arc::new(30)));
}

#[test]
fn chaining_hashing_concurrent_optimized_test_insert_multiple_entries() {
    let hash_table = HashMap::with_capacity(64);

    hash_table.insert(1, Arc::new("one"));
    hash_table.insert(2, Arc::new("two"));
    hash_table.insert(3, Arc::new("three"));
    hash_table.insert(4, Arc::new("four"));

    assert_eq!(hash_table.get(&1), Some(Arc::new("one")));
    assert_eq!(hash_table.get(&2), Some(Arc::new("two")));
    assert_eq!(hash_table.get(&3), Some(Arc::new("three")));
    assert_eq!(hash_table.get(&4), Some(Arc::new("four")));
}

#[test]
fn chaining_hashing_concurrent_optimized_test_get_non_existing_key() {
    let hash_table: HashMap<&str, u128> = HashMap::with_capacity(1);
    assert_eq!(hash_table.get(&"non-existing"), None);
}

#[test]
fn chaining_hashing_concurrent_optimized_test_remove_existing_key() {
    let hash_table = HashMap::with_capacity(4);

    hash_table.insert(1, Arc::new("one"));
    hash_table.insert(2, Arc::new("two"));
    hash_table.insert(3, Arc::new("three"));

    let removed = hash_table.remove(&2);

    assert_eq!(removed, Some(Arc::new("two")));
    assert_eq!(hash_table.get(&1), Some(Arc::new("one")));
    assert_eq!(hash_table.get(&2), None);
    assert_eq!(hash_table.get(&3), Some(Arc::new("three")));
}

#[test]
fn chaining_hashing_concurrent_optimized_test_remove_non_existing_key() {
    let hash_table = HashMap::with_capacity(2);

    hash_table.insert(1, Arc::new("one"));
    hash_table.insert(2, Arc::new("two"));
    hash_table.insert(3, Arc::new("three"));

    let removed = hash_table.remove(&4);

    assert_eq!(removed, None);
    assert_eq!(hash_table.get(&1), Some(Arc::new("one")));
    assert_eq!(hash_table.get(&2), Some(Arc::new("two")));
    assert_eq!(hash_table.get(&3), Some(Arc::new("three")));
}

#[test]
fn chaining_hashing_concurrent_optimized_test_collision_handling() {
    let table = HashMap::with_exact_capacity(2);
    table.insert(1, Arc::new("one"));
    table.insert(2, Arc::new("two"));
    table.insert(3, Arc::new("three"));
    assert_eq!(table.get(&1), Some(Arc::new("one")));
    assert_eq!(table.get(&2), Some(Arc::new("two")));
    assert_eq!(table.get(&3), Some(Arc::new("three")));
}

#[test]
fn chaining_hashing_concurrent_optimized_test_rehash() {
    let table = HashMap::with_exact_capacity(4);
    table.insert(1, Arc::new("one"));
    table.insert(2, Arc::new("two"));
    table.insert(3, Arc::new("three"));
    table.insert(4, Arc::new("four"));
    table.insert(5, Arc::new("five"));
    table.insert(6, Arc::new("six"));
    assert_eq!(table.get(&1), Some(Arc::new("one")));
    assert_eq!(table.get(&2), Some(Arc::new("two")));
    assert_eq!(table.get(&3), Some(Arc::new("three")));
    assert_eq!(table.get(&4), Some(Arc::new("four")));
    assert_eq!(table.get(&5), Some(Arc::new("five")));
    assert_eq!(table.get(&6), Some(Arc::new("six")));
}

#[test]
fn chaining_hashing_concurrent_optimized_test_insert_overwrite() {
    let table = HashMap::with_capacity(256);
    table.insert(1, Arc::new("one"));
    table.insert(1, Arc::new("new_one"));
    assert_eq!(table.get(&1), Some(Arc::new("new_one")));
}

#[test]
fn chaining_hashing_concurrent_optimized_test_insert_negative_keys() {
    let table = HashMap::with_capacity(512);
    table.insert(-1, Arc::new("minus_one"));
    table.insert(-2, Arc::new("minus_two"));
    assert_eq!(table.get(&-1), Some(Arc::new("minus_one")));
    assert_eq!(table.get(&-2), Some(Arc::new("minus_two")));
}

#[test]
fn chaining_hashing_concurrent_optimized_test_insert_large_keys() {
    let table = HashMap::with_capacity(1024);
    table.insert(u128::MAX, Arc::new("max_key"));
    table.insert(u128::MIN, Arc::new("min_key"));
    assert_eq!(table.get(&u128::MAX), Some(Arc::new("max_key")));
    assert_eq!(table.get(&u128::MIN), Some(Arc::new("min_key")));
}

#[test]
fn chaining_hashing_concurrent_optimized_test_insert_large_values() {
    let table = HashMap::with_capacity(1);
    table.insert(1, Arc::new(u64::MAX));
    table.insert(2, Arc::new(u64::MIN));
    assert_eq!(table.get(&1), Some(Arc::new(u64::MAX)));
    assert_eq!(table.get(&2), Some(Arc::new(u64::MIN)));
}

#[test]
fn chaining_hashing_concurrent_optimized_test_remove_from_empty_table() {
    let table: HashMap<i32, i32> = HashMap::with_capacity(1);
    assert_eq!(table.remove(&1), None);
}

#[test]
fn chaining_hashing_concurrent_optimized_test_clear() {
    let table = HashMap::with_capacity(2);
    table.insert(1, Arc::new("one"));
    table.insert(2, Arc::new("two"));
    table.clear();
    assert_eq!(table.get(&1), None);
    assert_eq!(table.get(&2), None);
}
