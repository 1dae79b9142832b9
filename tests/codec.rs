use kvs::codec::{decode_record, encode_put, encode_remove, Record};

#[test]
fn put_record_bytes() {
    assert_eq!(encode_put(b"a", b"1"), br#"{"Set":{"key":"a","value":"1"}}"#.to_vec());
}

#[test]
fn remove_record_bytes() {
    assert_eq!(encode_remove(b"a"), br#"{"Rm":{"key":"a"}}"#.to_vec());
}

#[test]
fn escapes_quote_backslash_and_controls() {
    let rec = encode_put(b"\"\\", b"\n\t\r\x08\x0c\x01\x1f\x7f");
    assert_eq!(
        rec,
        br#"{"Set":{"key":"\"\\","value":"\n\t\r\b\f\u0001\u001f"#
            .iter()
            .copied()
            .chain([0x7f, b'"', b'}', b'}'])
            .collect::<Vec<u8>>()
    );
}

#[test]
fn non_ascii_bytes_are_copied() {
    let rec = encode_remove("é".as_bytes());
    assert_eq!(rec, "{\"Rm\":{\"key\":\"é\"}}".as_bytes().to_vec());
}

#[test]
fn decode_reports_next_record_offset() {
    let mut log = encode_put(b"k", b"v");
    let first = log.len();
    log.extend_from_slice(&encode_remove(b"k"));
    match decode_record(&log, 0) {
        Some((Record::Put { key, value }, n)) => {
            assert_eq!(key, b"k".to_vec());
            assert_eq!(value, b"v".to_vec());
            assert_eq!(n, first);
        }
        _ => panic!("expected a Set record"),
    }
    match decode_record(&log, first) {
        Some((Record::Remove { key }, n)) => {
            assert_eq!(key, b"k".to_vec());
            assert_eq!(n, log.len() - first);
        }
        _ => panic!("expected a Rm record"),
    }
}

#[test]
fn decode_round_trips_escapes() {
    let value: Vec<u8> = (0u8..=255).collect();
    let rec = encode_put(b"\x00key\"", &value);
    match decode_record(&rec, 0) {
        Some((Record::Put { key, value: v }, n)) => {
            assert_eq!(key, b"\x00key\"".to_vec());
            assert_eq!(v, value);
            assert_eq!(n, rec.len());
        }
        _ => panic!("expected a Set record"),
    }
}

#[test]
fn decode_legacy_get_record() {
    let rec = br#"{"Get":{"key":"a"}}"#;
    match decode_record(rec, 0) {
        Some((Record::Get { key }, n)) => {
            assert_eq!(key, b"a".to_vec());
            assert_eq!(n, rec.len());
        }
        _ => panic!("expected a Get record"),
    }
}

#[test]
fn decode_rejects_garbage_and_non_canonical_forms() {
    assert!(decode_record(b"garbage", 0).is_none());
    assert!(decode_record(br#"{"Set":{"key":"a","value":"1"}"#, 0).is_none());
    assert!(decode_record(br#"{"Set":{"key":"a\/","value":"1"}}"#, 0).is_none());
    assert!(decode_record(br#"{"Set":{"key":"\u000a","value":"1"}}"#, 0).is_none());
    assert!(decode_record(br#"{"Set": {"key":"a","value":"1"}}"#, 0).is_none());
    assert!(decode_record(b"", 0).is_none());
}
