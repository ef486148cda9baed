use hashtables::load::{LoadFactor, Ratio};
use hashtables::chaining_hashing::HashMap;

fn ratio(r: Ratio) -> f64 {
    r.numerator as f64 / r.denominator as f64
}

#[test]
fn chaining_hashing_test_new() {
    let table: HashMap<i32, i32> = HashMap::new();
    assert_eq!(table.len(), 0);
    assert!(table.is_empty());
    assert_eq!(ratio(table.fill_factor()), 0.0);
}

#[test]
fn chaining_hashing_test_with_capacity() {
    let table: HashMap<i32, i32> = HashMap::with_capacity(10);
    assert_eq!(table.len(), 0);
    assert!(table.is_empty());
    assert_eq!(ratio(table.fill_factor()), 0.0);
}

#[test]
fn chaining_hashing_test_insert() {
    let mut table = HashMap::with_exact_capacity(8, LoadFactor::new(3, 4));
    assert_eq!(table.insert(1, 10), None);
    assert_eq!(table.len(), 1);
    assert!(!table.is_empty());
    assert_eq!(ratio(table.fill_factor()), 0.125);
    assert_eq!(table.insert(1, 20), Some(10));
    assert_eq!(table.len(), 1);
    assert_eq!(ratio(table.fill_factor()), 0.125);
    assert_eq!(table.insert(2, 30), None);
    assert_eq!(table.len(), 2);
    assert_eq!(ratio(table.fill_factor()), 0.25);
}

#[test]
fn chaining_hashing_test_get() {
    let mut table = HashMap::new();
    table.insert(1, 10);
    assert_eq!(table.get(&1), Some(&10));
    assert_eq!(table.get(&2), None);
    table.insert(2, 20);
    assert_eq!(table.get(&1), Some(&10));
    assert_eq!(table.get(&2), Some(&20));
}

#[test]
fn chaining_hashing_test_get_mut() {
    let mut table = HashMap::new();
    table.insert(1, 10);
    assert_eq!(table.get_mut(&1), Some(&mut 10));
    assert_eq!(table.get_mut(&2), None);
    table.insert(2, 20);
    assert_eq!(table.get_mut(&1), Some(&mut 10));
    assert_eq!(table.get_mut(&2), Some(&mut 20));
    *table.get_mut(&1).unwrap() = 30;
    assert_eq!(table.get(&1), Some(&30));
}

#[test]
fn chaining_hashing_test_remove() {
    let mut table = HashMap::new();
    table.insert(1, 10);
    assert_eq!(table.remove(&2), None);
    assert_eq!(table.remove(&1), Some(10));
    assert_eq!(table.len(), 0);
    assert_eq!(ratio(table.fill_factor()), 0.0);
    table.insert(1, 20);
    table.insert(2, 30);
    assert_eq!(table.remove(&1), Some(20));
    assert_eq!(table.len(), 1);
    assert_eq!(ratio(table.fill_factor()), 0.015625);
    assert_eq!(table.remove(&2), Some(30));
    assert_eq!(table.len(), 0);
    assert_eq!(ratio(table.fill_factor()), 0.0);
}

#[test]
fn chaining_hashing_test_insert_multiple_entries() {
    let mut hash_table = HashMap::new();

    hash_table.insert(1, "one");
    hash_table.insert(2, "two");
    hash_table.insert(3, "three");
    hash_table.insert(4, "four");

    assert_eq!(hash_table.len(), 4);
    assert_eq!(hash_table.get(&1), Some(&"one"));
    assert_eq!(hash_table.get(&2), Some(&"two"));
    assert_eq!(hash_table.get(&3), Some(&"three"));
    assert_eq!(hash_table.get(&4), Some(&"four"));
}

#[test]
fn chaining_hashing_test_get_non_existing_key() {
    let hash_table: HashMap<&str, u128> = HashMap::new();
    assert_eq!(hash_table.get(&"non-existing"), None);
}

#[test]
fn chaining_hashing_test_remove_existing_key() {
    let mut hash_table = HashMap::new();

    hash_table.insert(1, "one");
    hash_table.insert(2, "two");
    hash_table.insert(3, "three");

    let removed = hash_table.remove(&2);

    assert_eq!(hash_table.len(), 2);
    assert_eq!(removed, Some("two"));
    assert_eq!(hash_table.get(&1), Some(&"one"));
    assert_eq!(hash_table.get(&2), None);
    assert_eq!(hash_table.get(&3), Some(&"three"));
}

#[test]
fn chaining_hashing_test_remove_non_existing_key() {
    let mut hash_table = HashMap::new();

    hash_table.insert(1, "one");
    hash_table.insert(2, "two");
    hash_table.insert(3, "three");

    let removed = hash_table.remove(&4);

    assert_eq!(hash_table.len(), 3);
    assert_eq!(removed, None);
    assert_eq!(hash_table.get(&1), Some(&"one"));
    assert_eq!(hash_table.get(&2), Some(&"two"));
    assert_eq!(hash_table.get(&3), Some(&"three"));
}

#[test]
fn chaining_hashing_test_collision_handling() {
    let mut table = HashMap::with_exact_capacity(2, LoadFactor::new(1, 1));
    table.insert(1, "one");
    table.insert(2, "two");
    table.insert(3, "three");
    assert_eq!(table.len(), 3);
    assert_eq!(table.get(&1), Some(&"one"));
    assert_eq!(table.get(&2), Some(&"two"));
    assert_eq!(table.get(&3), Some(&"three"));
}

#[test]
fn chaining_hashing_test_rehash() {
    let mut table = HashMap::with_exact_capacity(4, LoadFactor::new(1, 1));
    table.insert(1, "one");
    table.insert(2, "two");
    table.insert(3, "three");
    table.insert(4, "four");
    table.insert(5, "five");
    table.insert(6, "six");
    assert_eq!(table.len(), 6);
    assert_eq!(table.get(&1), Some(&"one"));
    assert_eq!(table.get(&2), Some(&"two"));
    assert_eq!(table.get(&3), Some(&"three"));
    assert_eq!(table.get(&4), Some(&"four"));
    assert_eq!(table.get(&5), Some(&"five"));
    assert_eq!(table.get(&6), Some(&"six"));
    assert!(ratio(table.fill_factor()) < 1.0);
}

#[test]
fn chaining_hashing_test_insert_overwrite() {
    let mut table = HashMap::new();
    table.insert(1, "one");
    table.insert(1, "new_one");
    assert_eq!(table.len(), 1);
    assert_eq!(table.get(&1), Some(&"new_one"));
}

#[test]
fn chaining_hashing_test_insert_negative_keys() {
    let mut table = HashMap::new();
    table.insert(-1, "minus_one");
    table.insert(-2, "minus_two");
    assert_eq!(table.len(), 2);
    assert_eq!(table.get(&-1), Some(&"minus_one"));
    assert_eq!(table.get(&-2), Some(&"minus_two"));
}

#[test]
fn chaining_hashing_test_insert_large_keys() {
    let mut table = HashMap::new();
    table.insert(u128::MAX, "max_key");
    table.insert(u128::MIN, "min_key");
    assert_eq!(table.len(), 2);
    assert_eq!(table.get(&u128::MAX), Some(&"max_key"));
    assert_eq!(table.get(&u128::MIN), Some(&"min_key"));
}

#[test]
fn chaining_hashing_test_insert_large_values() {
    let mut table = HashMap::new();
    table.insert(1, u64::MAX);
    table.insert(2, u64::MIN);
    assert_eq!(table.len(), 2);
    assert_eq!(table.get(&1), Some(&u64::MAX));
    assert_eq!(table.get(&2), Some(&u64::MIN));
}

#[test]
fn chaining_hashing_test_empty_get_mut() {
    let mut table: HashMap<i32, i32> = HashMap::new();
    assert_eq!(table.get_mut(&1), None);
}

#[test]
fn chaining_hashing_test_remove_from_empty_table() {
    let mut table: HashMap<i32, i32> = HashMap::new();
    assert_eq!(table.remove(&1), None);
}

#[test]
fn chaining_hashing_test_clear() {
    let mut table = HashMap::new();
    table.insert(1, "one");
    table.insert(2, "two");
    table.clear();
    assert_eq!(table.len(), 0);
    assert!(table.is_empty());
    assert_eq!(table.get(&1), None);
    assert_eq!(table.get(&2), None);
}
