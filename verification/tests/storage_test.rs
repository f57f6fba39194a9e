//! The in-memory store's key-value, list, and clock behavior.
use tribbler::storage::{KeyValue, MemStorage, Pattern};

fn setup_test_storage() -> MemStorage {
    let mut storage = MemStorage::new();
    storage
        .set(&KeyValue::new("test", "test-value"))
        .unwrap();
    storage
        .list_append(&KeyValue::new("test", "test-value"))
        .unwrap();
    storage
}

fn pattern(prefix: &str, suffix: &str) -> Pattern {
    Pattern { prefix: prefix.to_string(), suffix: suffix.to_string() }
}

#[test]
fn storage_get_set() {
    let mut storage = MemStorage::new();
    assert_eq!(true, storage.set(&KeyValue::new("test", "test-value")).unwrap());
    assert_eq!(Some("test-value".to_string()), storage.get("test").unwrap());
}

#[test]
fn storage_get_set_overwrite() {
    let mut storage = MemStorage::new();
    assert_eq!(true, storage.set(&KeyValue::new("test", "one")).unwrap());
    assert_eq!(true, storage.set(&KeyValue::new("test", "two")).unwrap());
    assert_eq!(Some("two".to_string()), storage.get("test").unwrap());
}

#[test]
fn storage_get_empty() {
    let storage = setup_test_storage();
    assert_eq!(None, storage.get("test2").unwrap());
}

#[test]
fn storage_set_none() {
    let mut storage = MemStorage::new();
    assert_eq!(true, storage.set(&KeyValue::new("test", "value")).unwrap());
    assert_eq!(true, storage.set(&KeyValue::new("test", "")).unwrap());
    assert_eq!(None, storage.get("test").unwrap());
}

#[test]
fn storage_keys() {
    let storage = setup_test_storage();
    assert_eq!(1, storage.keys(&pattern("test", "test")).unwrap().0.len());
    assert_eq!(1, storage.keys(&pattern("", "test")).unwrap().0.len());
    assert_eq!(1, storage.keys(&pattern("test", "")).unwrap().0.len());
    assert_eq!(0, storage.keys(&pattern("wrong", "right")).unwrap().0.len());
    assert_eq!(1, storage.keys(&pattern("", "")).unwrap().0.len());
}

#[test]
fn storage_keys_unset() {
    let mut s = setup_test_storage();
    assert_eq!(1, s.keys(&pattern("", "")).unwrap().0.len());
    let _ = s.set(&KeyValue::new("test", "")).unwrap();
    assert_eq!(0, s.keys(&pattern("", "")).unwrap().0.len());
}

#[test]
fn storage_list_keys_unset() {
    let mut s = setup_test_storage();
    assert_eq!(1, s.list_keys(&pattern("", "")).unwrap().0.len());
    let _ = s.list_remove(&KeyValue::new("test", "test-value")).unwrap();
    assert_eq!(0, s.list_keys(&pattern("", "")).unwrap().0.len());
}

#[test]
fn storage_get_list() {
    let storage = setup_test_storage();
    assert_eq!("test-value", storage.list_get("test").unwrap().0[0]);
}

#[test]
fn storage_get_list_empty() {
    let storage = setup_test_storage();
    assert_eq!(0, storage.list_get("test2").unwrap().0.len());
}

#[test]
fn storage_get_list_append() {
    let mut storage = setup_test_storage();
    let res = storage.list_append(&KeyValue::new("test", "val2")).unwrap();
    assert_eq!(true, res);
    assert_eq!(2, storage.list_get("test").unwrap().0.len());
}

#[test]
fn storage_get_list_remove() {
    let mut storage = setup_test_storage();
    let kv = KeyValue::new("test", "val2");
    assert_eq!(true, storage.list_append(&kv).unwrap());
    assert_eq!(true, storage.list_append(&kv).unwrap());
    assert_eq!(true, storage.list_append(&kv).unwrap());
    assert_eq!(3, storage.list_remove(&kv).unwrap());
    assert_eq!("test-value", storage.list_get("test").unwrap().0[0]);
}

#[test]
fn storage_list_keys() {
    let storage = setup_test_storage();
    assert_eq!(1, storage.list_keys(&pattern("test", "test")).unwrap().0.len());
    assert_eq!(1, storage.list_keys(&pattern("", "test")).unwrap().0.len());
    assert_eq!(1, storage.list_keys(&pattern("test", "")).unwrap().0.len());
    assert_eq!(0, storage.list_keys(&pattern("wrong", "right")).unwrap().0.len());
    assert_eq!(1, storage.list_keys(&pattern("", "")).unwrap().0.len());
}

#[test]
fn storage_list_keys_sorted() {
    let mut s = MemStorage::new();
    s.list_append(&KeyValue::new("zebra", "1")).unwrap();
    s.list_append(&KeyValue::new("alpha", "1")).unwrap();
    s.list_append(&KeyValue::new("mango", "1")).unwrap();
    let keys = s.list_keys(&pattern("", "")).unwrap().0;
    assert_eq!(keys, vec!["alpha".to_string(), "mango".to_string(), "zebra".to_string()]);
}

#[test]
fn clock_at_least() {
    let mut storage = setup_test_storage();
    assert_eq!(1234, storage.clock(1234).unwrap());
}

#[test]
fn clock_ge() {
    let mut storage = setup_test_storage();
    let c1 = storage.clock(1234).unwrap();
    let c2 = storage.clock(0).unwrap();
    assert_eq!(true, c2 > c1);
}

#[test]
fn set_then_get_law() {
    let mut s = MemStorage::new();
    s.set(&KeyValue::new("k", "v")).unwrap();
    assert_eq!(Some("v".to_string()), s.get("k").unwrap());
}

#[test]
fn set_empty_deletes_law() {
    let mut s = MemStorage::new();
    s.set(&KeyValue::new("k", "v")).unwrap();
    s.set(&KeyValue::new("k", "")).unwrap();
    assert_eq!(None, s.get("k").unwrap());
}

#[test]
fn append_then_remove_law() {
    let mut s = MemStorage::new();
    s.list_append(&KeyValue::new("k", "a")).unwrap();
    s.list_append(&KeyValue::new("k", "v")).unwrap();
    assert_eq!(1, s.list_remove(&KeyValue::new("k", "v")).unwrap());
}
