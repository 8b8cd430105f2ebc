use hobbes_kv::codec::{decode_at, encode, is_tombstone, record_len, tombstone, DecodeOutcome, LogEntry, HEADER_LEN};
use hobbes_kv::decimal::{parse_digits, to_decimal};
use hobbes_kv::layout::{parse_segment_name, segment_file_name};

fn entry(k: &str, v: &str, t: u64) -> LogEntry {
    LogEntry { key: k.to_string(), val: v.to_string(), timestamp: t }
}

#[test]
fn codec_round_trip() {
    for e in [entry("Foo", "Bar", 1), entry("", "", 0), entry("ключ", "✓ value", u64::MAX)] {
        let bytes = encode(&e).unwrap();
        match decode_at(&bytes, 0) {
            DecodeOutcome::Entry(d, next) => {
                assert_eq!(d.key, e.key);
                assert_eq!(d.val, e.val);
                assert_eq!(d.timestamp, e.timestamp);
                assert_eq!(next, bytes.len());
            }
            other => panic!("decode failed: {other:?}"),
        }
    }
}

#[test]
fn encode_layout_is_exact() {
    let bytes = encode(&entry("ab", "xyz", 0x0102)).unwrap();
    assert_eq!(
        bytes,
        vec![2, 0, 0, 0, 3, 0, 0, 0, 2, 1, 0, 0, 0, 0, 0, 0, b'a', b'b', b'x', b'y', b'z']
    );
    assert_eq!(record_len(&bytes[..HEADER_LEN]), Some(21));
    assert_eq!(record_len(&bytes[..HEADER_LEN - 1]), None);
}

#[test]
fn decode_consecutive_records() {
    let mut bytes = encode(&entry("a", "1", 5)).unwrap();
    let first = bytes.len();
    bytes.extend(encode(&entry("b", "2", 6)).unwrap());
    match decode_at(&bytes, first) {
        DecodeOutcome::Entry(d, next) => {
            assert_eq!(d.key, "b");
            assert_eq!(next, bytes.len());
        }
        other => panic!("decode failed: {other:?}"),
    }
}

#[test]
fn decode_truncated_and_malformed() {
    let bytes = encode(&entry("key", "value", 9)).unwrap();
    assert!(matches!(decode_at(&bytes[..10], 0), DecodeOutcome::Truncated));
    assert!(matches!(decode_at(&bytes[..bytes.len() - 1], 0), DecodeOutcome::Truncated));
    let mut bad = bytes.clone();
    bad[HEADER_LEN] = 0xff;
    assert!(matches!(decode_at(&bad, 0), DecodeOutcome::Malformed));
}

#[test]
fn tombstone_marker() {
    assert_eq!(tombstone(), "!tomb!");
    assert!(is_tombstone(&"!tomb!".to_string()));
    assert!(!is_tombstone(&"tomb".to_string()));
}

#[test]
fn decimal_writing_and_reading() {
    assert_eq!(to_decimal(0), "0");
    assert_eq!(to_decimal(1234567890), "1234567890");
    assert_eq!(to_decimal(u64::MAX), "18446744073709551615");
    assert_eq!(parse_digits("0042"), Some(42));
    assert_eq!(parse_digits("18446744073709551615"), Some(u64::MAX));
    assert_eq!(parse_digits("18446744073709551616"), None);
    assert_eq!(parse_digits(""), None);
    assert_eq!(parse_digits("4a"), None);
}

#[test]
fn segment_names() {
    assert_eq!(segment_file_name(1), "1.db");
    assert_eq!(segment_file_name(42), "42.db");
    assert_eq!(parse_segment_name("42.db"), Some(42));
    assert_eq!(parse_segment_name("1.db"), Some(1));
    assert_eq!(parse_segment_name("0.db"), None);
    assert_eq!(parse_segment_name("01.db"), None);
    assert_eq!(parse_segment_name(".db"), None);
    assert_eq!(parse_segment_name("7.log"), None);
    assert_eq!(parse_segment_name("notes.txt"), None);
}
