use kv_store::codec::{decode, encode, or_raw};

#[test]
fn decode_passes_invalid_bytes_through() {
    let junk = [0xffu8, 0xff, 0xff, 0xff, 0xff, 0xff, 0xff, 0xff, 0xff, 0xff, 0xff];
    assert_eq!(decode(&junk), junk.to_vec());
}

#[test]
fn decode_of_empty_is_empty() {
    assert_eq!(decode(&[]), Vec::<u8>::new());
}

#[test]
fn encode_compresses_and_decode_restores() {
    let raw = vec![b'a'; 1000];
    let stored = encode(&raw);
    assert_ne!(stored, raw);
    assert!(stored.len() < raw.len());
    assert_eq!(decode(&stored), raw);
}

#[test]
fn encode_of_empty_value_round_trips() {
    let stored = encode(&[]);
    assert_eq!(stored, vec![0u8]);
    assert_eq!(decode(&stored), Vec::<u8>::new());
}

#[test]
fn binary_values_round_trip_through_codec() {
    let raw: Vec<u8> = (0..=255u8).chain(0..=255u8).collect();
    assert_eq!(decode(&encode(&raw)), raw);
}

#[test]
fn or_raw_keeps_attempt_or_falls_back() {
    assert_eq!(or_raw(b"raw", Some(b"out".to_vec())), b"out".to_vec());
    assert_eq!(or_raw(b"raw", None), b"raw".to_vec());
}
