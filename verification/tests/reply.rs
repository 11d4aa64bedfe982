use redis_core::reply::Reply;
use redis_core::resp::{parse_array, parse_bulk_string, parse_string, StrType, Type};
use std::borrow::Cow;

#[test]
fn test_null_reply() {
    let expected = b"_\r\n";
    assert_eq!(expected.to_vec(), Reply::Null.into_bytes());
}

#[test]
fn test_err_reply() {
    let expected = b"-ERR you fooed\r\n";
    assert_eq!(expected.to_vec(), Reply::Error("you fooed").into_bytes());
}

#[test]
fn test_bulk_array() {
    let expected = b"*2\r\n$3\r\ndir\r\n$16\r\n/tmp/redis-files\r\n";
    assert_eq!(
        expected.to_vec(),
        Reply::Array(vec!["dir".to_string(), "/tmp/redis-files".to_string()]).into_bytes()
    );
}

#[test]
fn simple_replies() {
    assert_eq!(Reply::Simple("OK".to_string()).into_bytes(), b"+OK\r\n".to_vec());
    assert_eq!(Reply::Simple(String::new()).into_bytes(), b"+\r\n".to_vec());
    assert_eq!(Reply::Pong.into_bytes(), b"+PONG\r\n".to_vec());
    assert_eq!(Reply::Echo("hey".to_string()).into_bytes(), b"+hey\r\n".to_vec());
}

#[test]
fn null_bulk_reply() {
    assert_eq!(Reply::NullBulk.into_bytes(), b"$-1\r\n".to_vec());
}

#[test]
fn bulk_reply_counts_bytes() {
    assert_eq!(Reply::Bulk("bar".to_string()).into_bytes(), b"$3\r\nbar\r\n".to_vec());
    assert_eq!(Reply::Bulk(String::new()).into_bytes(), b"$0\r\n\r\n".to_vec());
    assert_eq!(
        Reply::Bulk("héllo".to_string()).into_bytes(),
        "$6\r\nhéllo\r\n".as_bytes().to_vec()
    );
    assert_eq!(
        Reply::Bulk("0123456789".to_string()).into_bytes(),
        b"$10\r\n0123456789\r\n".to_vec()
    );
    let long = "x".repeat(12345);
    let mut expected = b"$12345\r\n".to_vec();
    expected.extend_from_slice(long.as_bytes());
    expected.extend_from_slice(b"\r\n");
    assert_eq!(Reply::Bulk(long).into_bytes(), expected);
}

#[test]
fn array_replies() {
    assert_eq!(Reply::Array(vec![]).into_bytes(), b"*0\r\n".to_vec());
    assert_eq!(
        Reply::Array(vec!["a".to_string()]).into_bytes(),
        b"*1\r\n$1\r\na\r\n".to_vec()
    );
    let eleven: Vec<String> = (0..11).map(|i| i.to_string()).collect();
    let bytes = Reply::Array(eleven).into_bytes();
    assert!(bytes.starts_with(b"*11\r\n$1\r\n0\r\n"));
    assert!(bytes.ends_with(b"$2\r\n10\r\n"));
}

#[test]
fn error_reply_with_empty_reason() {
    assert_eq!(Reply::Error("").into_bytes(), b"-ERR \r\n".to_vec());
}

#[test]
fn encoded_array_decodes_to_its_items() {
    let items = vec!["SET".to_string(), "naïve key".to_string(), String::new(), "a\r\nb".to_string()];
    let bytes = Reply::Array(items.clone()).into_bytes();
    let text = String::from_utf8(bytes).unwrap();
    let (rest, decoded) = parse_array(&text).unwrap();
    assert_eq!(rest, "");
    let expected: Vec<Type> = items
        .iter()
        .map(|s| Type::String(Cow::from(s.as_str()), StrType::Bulk))
        .collect();
    assert_eq!(decoded, expected);
}

#[test]
fn encoded_bulk_and_simple_decode_to_their_text() {
    let text = String::from_utf8(Reply::Bulk("hello world".to_string()).into_bytes()).unwrap();
    assert_eq!(parse_bulk_string(&text), Ok(("", "hello world")));
    let text = String::from_utf8(Reply::Simple("OK".to_string()).into_bytes()).unwrap();
    assert_eq!(parse_string(&text), Ok(("", "OK")));
    let text = String::from_utf8(Reply::Pong.into_bytes()).unwrap();
    assert_eq!(parse_string(&text), Ok(("", "PONG")));
}
