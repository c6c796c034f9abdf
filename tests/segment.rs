use kv_store::engine::{Engine, Record, StorageError, BUFFER_LIMIT};
use kv_store::segment::{build_sorted, compare_keys, find_sorted, is_sorted};

#[test]
fn keys_compare_byte_lexicographically() {
    assert!(compare_keys(b"a", b"b") < 0);
    assert!(compare_keys(b"b", b"a") > 0);
    assert_eq!(compare_keys(b"abc", b"abc"), 0);
    assert!(compare_keys(b"ab", b"abc") < 0);
    assert!(compare_keys(b"", b"a") < 0);
    assert!(compare_keys(&[0xff], b"z") > 0);
}

#[test]
fn build_sorted_keeps_newest_record_per_key_in_order() {
    let recs = vec![
        Record::put(b"m", b"1"),
        Record::put(b"b", b"2"),
        Record::tombstone(b"m"),
        Record::put(b"z", b"3"),
        Record::put(b"b", b"4"),
    ];
    let seg = build_sorted(&recs);
    let keys: Vec<Vec<u8>> = seg.iter().map(|r| r.key.clone()).collect();
    assert_eq!(keys, vec![b"b".to_vec(), b"m".to_vec(), b"z".to_vec()]);
    assert_eq!(seg[0].value, Some(b"4".to_vec()));
    assert_eq!(seg[1].value, None);
    assert!(is_sorted(&seg));
    assert!(!is_sorted(&recs));
    assert_eq!(find_sorted(&seg, b"b"), Some(Some(b"4".to_vec())));
    assert_eq!(find_sorted(&seg, b"m"), Some(None));
    assert_eq!(find_sorted(&seg, b"c"), None);
}

#[test]
fn flushed_segment_is_sorted() {
    let mut e = Engine::new();
    for i in (0..BUFFER_LIMIT).rev() {
        let k = format!("{:05}", i);
        e.put(k.as_bytes(), b"v").unwrap();
    }
    assert_eq!(e.segment_count(), 1);
    assert!(is_sorted(e.segment(0)));
    assert_eq!(e.segment(0)[0].key, b"00000".to_vec());
}

#[test]
fn recovery_refuses_unsorted_segment() {
    let seg = vec![Record::put(b"b", b"1"), Record::put(b"a", b"2")];
    assert_eq!(Engine::recover(vec![seg], &[]).err(), Some(StorageError::CorruptLog));
}

#[test]
fn rewriting_one_key_keeps_one_buffer_record() {
    let mut e = Engine::new();
    for i in 0..(2 * BUFFER_LIMIT) {
        let v = format!("{}", i);
        e.put(b"same", v.as_bytes()).unwrap();
    }
    assert_eq!(e.segment_count(), 0);
    let last = format!("{}", 2 * BUFFER_LIMIT - 1);
    assert_eq!(e.get(b"same").unwrap(), Some(last.into_bytes()));
}
