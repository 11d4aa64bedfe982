use redis_core::rdb::{
    load_from_rdb, parse_blob, parse_key_value_pair, parse_length, parse_rdb_header,
    parse_resize_db, parse_snapshot, parse_value, OwnedOrBorrowed, SnapshotError,
};
use redis_core::store::Store;

fn s(text: &str) -> String {
    text.to_string()
}

fn minimal() -> Vec<u8> {
    let mut bytes = b"REDIS0011".to_vec();
    bytes.push(0xFB);
    bytes.extend_from_slice(&[1, 0]);
    bytes.push(0x00);
    bytes.extend_from_slice(b"\x03foo");
    bytes.extend_from_slice(b"\x03bar");
    bytes
}

#[test]
fn minimal_snapshot_loads() {
    let mut store = Store::new();
    assert_eq!(load_from_rdb(&minimal(), &mut store), Ok(()));
    assert_eq!(store.get("foo", 0), Some(s("bar")));
    assert_eq!(store.keys(0), vec![s("foo")]);
}

#[test]
fn snapshot_with_metadata_and_trailer() {
    let mut bytes = b"REDIS0003".to_vec();
    // auxiliary fields before the selector are skipped
    bytes.extend_from_slice(b"\xFA\x09redis-ver\x055.0.7\xFE\x00");
    bytes.push(0xFB);
    bytes.extend_from_slice(&[3, 1]);
    bytes.extend_from_slice(b"\x00\x01a\x01b");
    bytes.extend_from_slice(b"\x00\x03num\xC0\x7B");
    bytes.extend_from_slice(b"\x00\x00\x00");
    // the end marker and what follows it are not read
    bytes.extend_from_slice(b"\xFF\x01\x02\x03\x04\x05\x06\x07\x08");
    assert_eq!(
        parse_snapshot(&bytes),
        Ok(vec![(s("a"), s("b")), (s("num"), s("123")), (s(""), s(""))])
    );
}

#[test]
fn snapshot_without_pairs() {
    let bytes = b"REDIS0011\xFB\x00\x00".to_vec();
    assert_eq!(parse_snapshot(&bytes), Ok(vec![]));
    let mut store = Store::new();
    store.set(s("k"), s("v"), None, 0);
    assert_eq!(load_from_rdb(&bytes, &mut store), Ok(()));
    assert_eq!(store.get("k", 0), Some(s("v")));
}

#[test]
fn bad_headers() {
    for bytes in [
        &b""[..],
        &b"REDIS"[..],
        &b"REDIS001"[..],
        &b"REDIX0011\xFB\x00\x00"[..],
        &b"redis0011\xFB\x00\x00"[..],
        &b"REDIS00a1\xFB\x00\x00"[..],
        &b"REDIS+011\xFB\x00\x00"[..],
        &b"REDIS 011\xFB\x00\x00"[..],
    ] {
        assert_eq!(parse_snapshot(bytes), Err(SnapshotError::BadHeader));
    }
}

#[test]
fn header_gives_the_version() {
    assert_eq!(parse_rdb_header(b"REDIS0011rest"), Ok((&b"rest"[..], 11)));
    assert_eq!(parse_rdb_header(b"REDIS9999"), Ok((&b""[..], 9999)));
    assert_eq!(parse_rdb_header(b"REDIS0000\xFB"), Ok((&b"\xFB"[..], 0)));
    assert_eq!(parse_rdb_header(b"REDIS12"), Err(SnapshotError::BadHeader));
}

#[test]
fn missing_selector_is_truncation() {
    assert_eq!(parse_snapshot(b"REDIS0011"), Err(SnapshotError::Truncated));
    assert_eq!(parse_snapshot(b"REDIS0011\xFA\x01a\x01b"), Err(SnapshotError::Truncated));
    assert_eq!(parse_resize_db(b""), Err(SnapshotError::Truncated));
}

#[test]
fn truncated_snapshots() {
    let full = minimal();
    // every proper prefix from the selector on is cut somewhere
    for cut in 10..full.len() {
        assert_eq!(parse_snapshot(&full[..cut]), Err(SnapshotError::Truncated), "{cut}");
    }
    assert_eq!(parse_snapshot(&full), Ok(vec![(s("foo"), s("bar"))]));
}

#[test]
fn size_hints() {
    assert_eq!(parse_resize_db(b"\xFB\x02\x01rest"), Ok((&b"rest"[..], (2, 1))));
    assert_eq!(parse_resize_db(b"junk\xFB\x40\x80\x3F"), Ok((&b""[..], (128, 63))));
    // the first selector counts
    assert_eq!(parse_resize_db(b"\xFB\xFB\x00"), Err(SnapshotError::UnsupportedLengthForm));
    assert_eq!(parse_resize_db(b"\xFB\x01"), Err(SnapshotError::Truncated));
    assert_eq!(parse_resize_db(b"\xFB\x01\x80"), Err(SnapshotError::UnsupportedLengthForm));
}

#[test]
fn lengths_of_six_and_fourteen_bits() {
    assert_eq!(parse_length(b"\x00"), Ok((&b""[..], 0)));
    assert_eq!(parse_length(b"\x3Fx"), Ok((&b"x"[..], 63)));
    assert_eq!(parse_length(b"\x40\x00"), Ok((&b""[..], 0)));
    assert_eq!(parse_length(b"\x41\x02x"), Ok((&b"x"[..], 258)));
    assert_eq!(parse_length(b"\x7F\xFF"), Ok((&b""[..], 16383)));
    assert_eq!(parse_length(b""), Err(SnapshotError::Truncated));
    assert_eq!(parse_length(b"\x40"), Err(SnapshotError::Truncated));
    assert_eq!(parse_length(b"\x80\x00\x00\x00\x01"), Err(SnapshotError::UnsupportedLengthForm));
    assert_eq!(parse_length(b"\xC0\x01"), Err(SnapshotError::UnsupportedLengthForm));
}

#[test]
fn length_encoded_strings() {
    assert_eq!(parse_blob(b"\x03foobar"), Ok((&b"bar"[..], &b"foo"[..])));
    assert_eq!(parse_blob(b"\x00"), Ok((&b""[..], &b""[..])));
    assert_eq!(parse_blob(b"\x03fo"), Err(SnapshotError::Truncated));
    let mut long = vec![0x41, 0x00];
    long.extend_from_slice(&[b'x'; 256]);
    long.push(b'!');
    let (rest, bytes) = parse_blob(&long).unwrap();
    assert_eq!(rest, b"!");
    assert_eq!(bytes, &[b'x'; 256][..]);
}

fn value_text(bytes: &[u8]) -> Result<(Vec<u8>, String), SnapshotError> {
    parse_value(bytes).map(|(rest, v)| (rest.to_vec(), v.as_str().to_string()))
}

#[test]
fn packed_integers_read_as_decimal_text() {
    assert_eq!(value_text(b"\xC0\x00"), Ok((vec![], s("0"))));
    assert_eq!(value_text(b"\xC0\xFFx"), Ok((vec![b'x'], s("255"))));
    assert_eq!(value_text(b"\xC1\x01\x02"), Ok((vec![], s("258"))));
    assert_eq!(value_text(b"\xC1\xFF\xFF"), Ok((vec![], s("65535"))));
    assert_eq!(value_text(b"\xC2\x01\x02\x03\x04"), Ok((vec![], s("16909060"))));
    assert_eq!(value_text(b"\xC2\xFF\xFF\xFF\xFF!"), Ok((vec![b'!'], s("4294967295"))));
    assert_eq!(value_text(b"\xC2\x00\x00\x00\x0A"), Ok((vec![], s("10"))));
}

#[test]
fn packed_integer_failures() {
    assert_eq!(value_text(b"\xC3\x00"), Err(SnapshotError::UnsupportedIntWidth));
    assert_eq!(value_text(b"\xFF"), Err(SnapshotError::UnsupportedIntWidth));
    assert_eq!(value_text(b"\xC0"), Err(SnapshotError::Truncated));
    assert_eq!(value_text(b"\xC1\x01"), Err(SnapshotError::Truncated));
    assert_eq!(value_text(b"\xC2\x01\x02\x03"), Err(SnapshotError::Truncated));
    assert_eq!(value_text(b""), Err(SnapshotError::Truncated));
    assert_eq!(value_text(b"\x80"), Err(SnapshotError::UnsupportedLengthForm));
}

#[test]
fn values_that_are_plain_strings() {
    assert_eq!(value_text(b"\x03bar"), Ok((vec![], s("bar"))));
    assert!(matches!(parse_value(b"\x03bar"), Ok((_, OwnedOrBorrowed::Borrowed("bar")))));
    assert!(matches!(parse_value(b"\xC0\x07"), Ok((_, OwnedOrBorrowed::Owned(_)))));
}

#[test]
fn bytes_that_are_no_text_read_as_null() {
    assert_eq!(value_text(b"\x02\xFF\xFE"), Ok((vec![], s("NULL"))));
    let (rest, (key, value)) = parse_key_value_pair(b"\x00\x01\x80\x02\xC3\xA9").unwrap();
    assert_eq!(rest, b"");
    assert_eq!(key, "NULL");
    assert_eq!(value.as_str(), "é");
}

#[test]
fn pairs() {
    let (rest, (key, value)) = parse_key_value_pair(b"\x00\x03foo\x03barmore").unwrap();
    assert_eq!(rest, b"more");
    assert_eq!(key, "foo");
    assert_eq!(value.as_str(), "bar");
    assert!(matches!(parse_key_value_pair(b""), Err(SnapshotError::Truncated)));
    assert!(matches!(parse_key_value_pair(b"\x00"), Err(SnapshotError::Truncated)));
    assert!(matches!(parse_key_value_pair(b"\x00\x03foo"), Err(SnapshotError::Truncated)));
    // a key is a string: the packed form is no length
    assert!(matches!(
        parse_key_value_pair(b"\x00\xC0\x01\x01a"),
        Err(SnapshotError::UnsupportedLengthForm)
    ));
}

#[test]
fn other_value_types_are_refused() {
    assert!(matches!(
        parse_key_value_pair(b"\x01\x03foo\x03bar"),
        Err(SnapshotError::UnsupportedValueType(1))
    ));
    // an entry with an expiry starts with 0xFC
    let mut bytes = b"REDIS0011\xFB\x01\x01".to_vec();
    bytes.extend_from_slice(b"\xFC\x00\x00\x00\x00\x00\x00\x00\x00\x00\x03foo\x03bar");
    assert_eq!(parse_snapshot(&bytes), Err(SnapshotError::UnsupportedValueType(0xFC)));
}

#[test]
fn failed_load_leaves_the_store_untouched() {
    let mut store = Store::new();
    store.set(s("old"), s("value"), None, 0);
    // two pairs announced; the first decodes, the second has a bad tag
    let mut bytes = b"REDIS0011\xFB\x02\x00".to_vec();
    bytes.extend_from_slice(b"\x00\x03foo\x03bar");
    bytes.extend_from_slice(b"\x04\x03baz\x03qux");
    assert_eq!(load_from_rdb(&bytes, &mut store), Err(SnapshotError::UnsupportedValueType(4)));
    assert_eq!(store.get("foo", 0), None);
    assert_eq!(store.get("old", 0), Some(s("value")));
    assert_eq!(store.keys(0), vec![s("old")]);
}

#[test]
fn loaded_pairs_overwrite_and_never_expire() {
    let mut store = Store::new();
    store.set(s("foo"), s("before"), Some(10), 0);
    let mut bytes = b"REDIS0011\xFB\x02\x00".to_vec();
    bytes.extend_from_slice(b"\x00\x03foo\x01a");
    bytes.extend_from_slice(b"\x00\x03foo\xC1\x30\x39");
    assert_eq!(load_from_rdb(&bytes, &mut store), Ok(()));
    assert_eq!(store.get("foo", u64::MAX), Some(s("12345")));
    assert_eq!(store.keys(u64::MAX), vec![s("foo")]);
}

#[test]
fn owned_or_borrowed_as_str() {
    assert_eq!(OwnedOrBorrowed::Owned(s("abc")).as_str(), "abc");
    assert_eq!(OwnedOrBorrowed::Borrowed("xyz").as_str(), "xyz");
}
