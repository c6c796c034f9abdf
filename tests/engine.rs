use kv_store::engine::{bytes_eq, Engine, Record, StorageError, BUFFER_LIMIT, COMPACT_AT};
use kv_store::store::KVStore;
use kv_store::wal::{decode_manifest, encode_frame, encode_manifest, parse_log_exec, read_segment};

#[test]
fn engine_put_get_delete() {
    let mut e = Engine::new();
    e.put(b"k", b"v").unwrap();
    assert_eq!(e.get(b"k").unwrap(), Some(b"v".to_vec()));
    e.delete(b"k").unwrap();
    assert_eq!(e.get(b"k").unwrap(), None);
    assert_eq!(e.get(b""), Err(StorageError::InvalidKey));
}

#[test]
fn engine_keeps_non_utf8_bytes() {
    let mut e = Engine::new();
    e.put(&[0xff, 0x00], &[0xfe, 0x80, 0x00]).unwrap();
    assert_eq!(e.get(&[0xff, 0x00]).unwrap(), Some(vec![0xfe, 0x80, 0x00]));
}

#[test]
fn frame_layout_is_length_prefixed() {
    let frame = encode_frame(&vec![Record::put(b"ab", b"c"), Record::tombstone(b"d")]);
    let mut expected = vec![30u8, 0, 0, 0, 0, 0, 0, 0];
    expected.extend_from_slice(&[1, 2, 0, 0, 0, 0, 0, 0, 0, b'a', b'b', 1, 0, 0, 0, 0, 0, 0, 0, b'c']);
    expected.extend_from_slice(&[0, 1, 0, 0, 0, 0, 0, 0, 0, b'd']);
    assert_eq!(frame, expected);
}

#[test]
fn log_grows_by_one_frame_per_write() {
    let mut e = Engine::new();
    assert!(e.log_bytes().is_empty());
    e.put(b"k", b"v").unwrap();
    let one = encode_frame(&vec![Record::put(b"k", b"v")]);
    assert_eq!(e.log_bytes(), &one);
    e.delete(b"k").unwrap();
    let mut two = one.clone();
    two.extend(encode_frame(&vec![Record::tombstone(b"k")]));
    assert_eq!(e.log_bytes(), &two);
}

#[test]
fn recovery_replays_the_log() {
    let mut e = Engine::new();
    e.put(b"a", b"1").unwrap();
    e.put(b"b", b"2").unwrap();
    e.delete(b"a").unwrap();
    let r = Engine::recover(Vec::new(), e.log_bytes()).unwrap();
    assert_eq!(r.get(b"a").unwrap(), None);
    assert_eq!(r.get(b"b").unwrap(), Some(b"2".to_vec()));
    assert_eq!(r.log_bytes(), e.log_bytes());
}

#[test]
fn recovery_sees_complete_batch_whole() {
    let mut e = Engine::new();
    e.put(b"a", b"1").unwrap();
    e.write_batch(vec![Record::put(b"a", b"10"), Record::put(b"c", b"3")]).unwrap();
    let r = Engine::recover(Vec::new(), e.log_bytes()).unwrap();
    assert_eq!(r.get(b"a").unwrap(), Some(b"10".to_vec()));
    assert_eq!(r.get(b"c").unwrap(), Some(b"3".to_vec()));
}

#[test]
fn recovery_drops_batch_cut_short() {
    let mut e = Engine::new();
    e.put(b"a", b"1").unwrap();
    let before = e.log_bytes().clone();
    let frame = encode_frame(&vec![Record::put(b"a", b"10"), Record::put(b"c", b"3")]);
    for cut in 0..frame.len() {
        let mut log = before.clone();
        log.extend_from_slice(&frame[..cut]);
        let r = Engine::recover(Vec::new(), &log).unwrap();
        assert_eq!(r.get(b"a").unwrap(), Some(b"1".to_vec()));
        assert_eq!(r.get(b"c").unwrap(), None);
        assert_eq!(r.log_bytes(), &before);
    }
}

#[test]
fn recovery_refuses_corrupt_frame() {
    let mut log = vec![3u8, 0, 0, 0, 0, 0, 0, 0];
    log.extend_from_slice(&[7, 7, 7]);
    assert_eq!(Engine::recover(Vec::new(), &log).err(), Some(StorageError::CorruptLog));
    assert!(KVStore::open(Vec::new(), &log).is_err());
}

#[test]
fn buffer_flushes_into_segment() {
    let mut e = Engine::new();
    for i in 0..BUFFER_LIMIT {
        let k = format!("key{}", i);
        e.put(k.as_bytes(), b"v").unwrap();
    }
    assert_eq!(e.segment_count(), 1);
    assert!(e.log_bytes().is_empty());
    e.put(b"key0", b"new").unwrap();
    assert_eq!(e.get(b"key0").unwrap(), Some(b"new".to_vec()));
    assert_eq!(e.get(b"key5").unwrap(), Some(b"v".to_vec()));
    let seg_bytes = encode_frame(e.segment(0));
    let seg = read_segment(&seg_bytes).unwrap();
    assert_eq!(seg.len(), BUFFER_LIMIT);
    let r = Engine::recover(vec![seg], e.log_bytes()).unwrap();
    assert_eq!(r.get(b"key0").unwrap(), Some(b"new".to_vec()));
    assert_eq!(r.get(b"key9").unwrap(), Some(b"v".to_vec()));
}

#[test]
fn parse_log_reads_frames_back() {
    let a = encode_frame(&vec![Record::put(b"x", b"1")]);
    let b = encode_frame(&vec![Record::tombstone(b"x"), Record::put(b"y", b"")]);
    let mut log = a.clone();
    log.extend(b);
    let frames = parse_log_exec(&log).unwrap();
    assert_eq!(frames.len(), 2);
    assert_eq!(frames[1].len(), 2);
    assert_eq!(frames[1][1].value, Some(Vec::new()));
    assert!(read_segment(&log).is_err());
}

#[test]
fn bytes_eq_compares_contents() {
    assert!(bytes_eq(b"abc", b"abc"));
    assert!(!bytes_eq(b"abc", b"abd"));
    assert!(!bytes_eq(b"ab", b"abc"));
}

#[test]
fn store_reopens_from_log() {
    let mut s = KVStore::new();
    s.set("a", "1").unwrap();
    s.set("b", "2").unwrap();
    let log = s.engine().log_bytes().clone();
    let r = KVStore::open(Vec::new(), &log).unwrap();
    assert_eq!(r.get("a").unwrap(), Some("1".to_string()));
    assert_eq!(r.get("b").unwrap(), Some("2".to_string()));
}

#[test]
fn compaction_keeps_lookups_and_drops_hidden_records() {
    let mut e = Engine::new();
    for i in 0..BUFFER_LIMIT {
        let k = format!("a{}", i);
        e.put(k.as_bytes(), b"old").unwrap();
    }
    assert_eq!(e.segment_count(), 1);
    for i in 0..BUFFER_LIMIT {
        let k = format!("a{}", i);
        if i % 2 == 0 {
            e.delete(k.as_bytes()).unwrap();
        } else {
            e.put(k.as_bytes(), b"new").unwrap();
        }
    }
    assert_eq!(e.segment_count(), 2);
    e.put(b"live", b"buffer").unwrap();
    e.compact();
    assert_eq!(e.segment_count(), 1);
    assert_eq!(e.segment(0).len(), BUFFER_LIMIT / 2);
    assert_eq!(e.get(b"a0").unwrap(), None);
    assert_eq!(e.get(b"a1").unwrap(), Some(b"new".to_vec()));
    assert_eq!(e.get(b"live").unwrap(), Some(b"buffer".to_vec()));
}

#[test]
fn many_flushes_trigger_compaction() {
    let mut e = Engine::new();
    for round in 0..COMPACT_AT {
        for i in 0..BUFFER_LIMIT {
            let k = format!("k{}", i);
            let v = format!("v{}", round);
            e.put(k.as_bytes(), v.as_bytes()).unwrap();
        }
    }
    assert_eq!(e.segment_count(), 1);
    assert_eq!(e.segment(0).len(), BUFFER_LIMIT);
    let last = format!("v{}", COMPACT_AT - 1);
    assert_eq!(e.get(b"k7").unwrap(), Some(last.into_bytes()));
}

#[test]
fn manifest_round_trips() {
    let bytes = encode_manifest(3, 258);
    assert_eq!(bytes, vec![3, 0, 0, 0, 0, 0, 0, 0, 2, 1, 0, 0, 0, 0, 0, 0]);
    assert_eq!(decode_manifest(&bytes), Some((3, 258)));
    assert_eq!(decode_manifest(&bytes[..15]), None);
}
