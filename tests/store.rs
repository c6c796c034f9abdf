use kv_store::engine::StorageError;
use kv_store::store::{pair_up, value_text, BatchContractError, KVStore};

fn strings(items: &[&str]) -> Vec<String> {
    items.iter().map(|s| s.to_string()).collect()
}

#[test]
fn get_after_set_returns_value() {
    let mut store = KVStore::new();
    store.set("k", "hello world").unwrap();
    assert_eq!(store.get("k").unwrap(), Some("hello world".to_string()));
}

#[test]
fn empty_value_is_stored_and_distinct_from_absent() {
    let mut store = KVStore::new();
    store.set("k", "").unwrap();
    assert_eq!(store.get("k").unwrap(), Some(String::new()));
    assert_eq!(store.get("other").unwrap(), None);
}

#[test]
fn unicode_value_round_trips() {
    let mut store = KVStore::new();
    let v = "héllo wörld ✓ 日本語";
    store.set("u", v).unwrap();
    assert_eq!(store.get("u").unwrap(), Some(v.to_string()));
}

#[test]
fn long_repetitive_value_round_trips() {
    let mut store = KVStore::new();
    let v = "abc".repeat(1000);
    store.set("big", &v).unwrap();
    assert_eq!(store.get("big").unwrap(), Some(v));
}

#[test]
fn invalid_utf8_is_shown_with_replacement() {
    assert_eq!(value_text(&[0x66, 0xff, 0x67]), "f\u{FFFD}g");
    assert_eq!(value_text(b"plain"), "plain");
}

#[test]
fn get_after_delete_is_absent() {
    let mut store = KVStore::new();
    store.set("k", "v").unwrap();
    store.delete("k").unwrap();
    assert_eq!(store.get("k").unwrap(), None);
}

#[test]
fn delete_absent_key_succeeds() {
    let mut store = KVStore::new();
    store.set("a", "1").unwrap();
    store.delete("missing").unwrap();
    store.delete("missing").unwrap();
    assert_eq!(store.get("missing").unwrap(), None);
    assert_eq!(store.get("a").unwrap(), Some("1".to_string()));
}

#[test]
fn batch_scenario() {
    let mut store = KVStore::new();
    store.set("a", "1").unwrap();
    store.set("b", "2").unwrap();
    let pairs = pair_up(&strings(&["a", "10", "c", "3"])).unwrap();
    store.batch_set(&pairs).unwrap();
    assert_eq!(store.get("a").unwrap(), Some("10".to_string()));
    assert_eq!(store.get("b").unwrap(), Some("2".to_string()));
    assert_eq!(store.get("c").unwrap(), Some("3".to_string()));
}

#[test]
fn delete_after_batch_scenario() {
    let mut store = KVStore::new();
    store.set("a", "1").unwrap();
    store.set("b", "2").unwrap();
    let pairs = pair_up(&strings(&["a", "10", "c", "3"])).unwrap();
    store.batch_set(&pairs).unwrap();
    store.delete("b").unwrap();
    assert_eq!(store.get("b").unwrap(), None);
    assert_eq!(store.get("a").unwrap(), Some("10".to_string()));
}

#[test]
fn last_writer_wins() {
    let mut store = KVStore::new();
    store.set("x", "1").unwrap();
    store.set("x", "2").unwrap();
    assert_eq!(store.get("x").unwrap(), Some("2".to_string()));
}

#[test]
fn batch_later_pair_wins_within_batch() {
    let mut store = KVStore::new();
    let pairs = pair_up(&strings(&["k", "first", "k", "second"])).unwrap();
    store.batch_set(&pairs).unwrap();
    assert_eq!(store.get("k").unwrap(), Some("second".to_string()));
}

#[test]
fn empty_key_is_refused() {
    let mut store = KVStore::new();
    assert_eq!(store.set("", "v"), Err(StorageError::InvalidKey));
    assert_eq!(store.get(""), Err(StorageError::InvalidKey));
    assert_eq!(store.delete(""), Err(StorageError::InvalidKey));
}

#[test]
fn batch_with_empty_key_changes_nothing() {
    let mut store = KVStore::new();
    store.set("a", "1").unwrap();
    let pairs = pair_up(&strings(&["a", "2", "", "3"])).unwrap();
    assert_eq!(store.batch_set(&pairs), Err(StorageError::InvalidKey));
    assert_eq!(store.get("a").unwrap(), Some("1".to_string()));
}

#[test]
fn odd_flattened_batch_is_refused() {
    assert_eq!(pair_up(&strings(&["a", "1", "b"])), Err(BatchContractError));
    let pairs = pair_up(&strings(&["a", "1", "b", "2"])).unwrap();
    assert_eq!(pairs, vec![("a".to_string(), "1".to_string()), ("b".to_string(), "2".to_string())]);
    assert_eq!(pair_up(&Vec::new()).unwrap(), Vec::new());
}
