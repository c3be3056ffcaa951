use dashdata::store::Store;
use std::time::Instant;

#[test]
fn test_set_and_get() {
    let mut store = Store::new();
    store.set(b"key1".to_vec(), b"value1".to_vec());
    assert_eq!(store.get(b"key1"), Some(b"value1".to_vec()));
}

#[test]
fn test_get_non_existent() {
    let store = Store::new();
    assert_eq!(store.get(b"non_existent"), None);
}

#[test]
fn test_del() {
    let mut store = Store::new();
    store.set(b"key2".to_vec(), b"value2".to_vec());
    assert_eq!(store.get(b"key2"), Some(b"value2".to_vec()));
    store.delete(b"key2");
    assert_eq!(store.get(b"key2"), None);
}

#[test]
fn test_empty_key() {
    let mut store = Store::new();
    store.set(b"".to_vec(), b"empty_key".to_vec());
    assert_eq!(store.get(b""), Some(b"empty_key".to_vec()));
}

#[test]
fn test_large_value() {
    let mut store = Store::new();
    let large_value = "a".repeat(1_000_000).into_bytes();
    store.set(b"large_key".to_vec(), large_value.clone());
    assert_eq!(store.get(b"large_key"), Some(large_value));
}

#[test]
fn test_consistency() {
    let mut store = Store::new();
    for i in 0..100 {
        store.set(format!("key{}", i).into_bytes(), format!("value{}", i).into_bytes());
    }
    for i in 0..100 {
        assert_eq!(store.get(format!("key{}", i).as_bytes()), Some(format!("value{}", i).into_bytes()));
    }
    for i in 0..50 {
        store.delete(format!("key{}", i).as_bytes());
    }
    for i in 0..100 {
        if i < 50 {
            assert_eq!(store.get(format!("key{}", i).as_bytes()), None);
        } else {
            assert_eq!(store.get(format!("key{}", i).as_bytes()), Some(format!("value{}", i).into_bytes()));
        }
    }
}

#[test]
fn test_performance() {
    let mut store = Store::new();
    let start = Instant::now();
    let number_of_operations = 900_000;
    for i in 0..number_of_operations {
        store.set(format!("key{}", i).into_bytes(), format!("value{}", i).into_bytes());
    }
    let duration = start.elapsed();
    println!("Time taken to insert {:?} items: {:?}", number_of_operations, duration);
    assert!(duration.as_secs() < 1, "Insertion took too long");
}

#[test]
fn set_overwrites_previous_value() {
    let mut store = Store::new();
    store.set(b"k".to_vec(), b"old".to_vec());
    store.set(b"k".to_vec(), b"new".to_vec());
    assert_eq!(store.get(b"k"), Some(b"new".to_vec()));
}

#[test]
fn delete_absent_key_changes_nothing() {
    let mut store = Store::new();
    store.set(b"present".to_vec(), b"v".to_vec());
    store.delete(b"absent");
    assert_eq!(store.get(b"present"), Some(b"v".to_vec()));
    assert_eq!(store.get(b"absent"), None);
}

#[test]
fn binary_keys_and_values_are_kept_exactly() {
    let mut store = Store::new();
    let key = vec![0u8, 255, 13, 10, 128];
    let value = vec![0xffu8, 0xfe, 0, 1, 2, 13, 10];
    store.set(key.clone(), value.clone());
    assert_eq!(store.get(&key), Some(value));
    assert_eq!(store.get(&[0u8, 255, 13, 10]), None);
}
