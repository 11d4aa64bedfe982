use redis_core::command::Command;
use redis_core::config::Config;
use redis_core::rdb::load_from_rdb;
use redis_core::resp::ProtocolError;
use redis_core::server::{execute, handle_request};
use redis_core::store::Store;

fn s(text: &str) -> String {
    text.to_string()
}

fn sent(r: Result<Option<Vec<u8>>, ProtocolError>) -> String {
    String::from_utf8(r.unwrap().unwrap()).unwrap()
}

#[test]
fn ping_set_get_scenario() {
    let mut store = Store::new();
    let config = Config::new(vec![]);
    assert_eq!(
        handle_request(b"*1\r\n$4\r\nPING\r\n", &mut store, &config, 0),
        Ok(Some(b"+PONG\r\n".to_vec()))
    );
    assert_eq!(
        handle_request(b"*3\r\n$3\r\nSET\r\n$3\r\nfoo\r\n$3\r\nbar\r\n", &mut store, &config, 1),
        Ok(Some(b"+OK\r\n".to_vec()))
    );
    assert_eq!(
        handle_request(b"*2\r\n$3\r\nGET\r\n$3\r\nfoo\r\n", &mut store, &config, 2),
        Ok(Some(b"$3\r\nbar\r\n".to_vec()))
    );
}

#[test]
fn buffer_padded_with_zeros() {
    let mut store = Store::new();
    let config = Config::new(vec![]);
    let mut buf = [0u8; 64];
    let frame = b"*2\r\n$4\r\nECHO\r\n$3\r\nhey\r\n";
    buf[..frame.len()].copy_from_slice(frame);
    assert_eq!(handle_request(&buf, &mut store, &config, 0), Ok(Some(b"+hey\r\n".to_vec())));
}

#[test]
fn get_of_absent_and_expired_keys() {
    let mut store = Store::new();
    let config = Config::new(vec![]);
    let get = b"*2\r\n$3\r\nGET\r\n$3\r\nfoo\r\n";
    assert_eq!(sent(handle_request(get, &mut store, &config, 0)), "$-1\r\n");
    let set = b"*5\r\n$3\r\nSET\r\n$3\r\nfoo\r\n$3\r\nbar\r\n$2\r\nPX\r\n$2\r\n50\r\n";
    assert_eq!(sent(handle_request(set, &mut store, &config, 100)), "+OK\r\n");
    assert_eq!(sent(handle_request(get, &mut store, &config, 149)), "$3\r\nbar\r\n");
    assert_eq!(sent(handle_request(get, &mut store, &config, 150)), "$-1\r\n");
    let keys = b"*1\r\n$4\r\nKEYS\r\n";
    assert_eq!(sent(handle_request(keys, &mut store, &config, 150)), "*0\r\n");
}

#[test]
fn expired_key_is_not_listed() {
    let mut store = Store::new();
    let config = Config::new(vec![]);
    store.set(s("foo"), s("bar"), Some(50), 0);
    store.set(s("baz"), s("qux"), None, 0);
    let keys = b"*1\r\n$4\r\nkeys\r\n";
    assert_eq!(sent(handle_request(keys, &mut store, &config, 50)), "*1\r\n$3\r\nbaz\r\n");
}

#[test]
fn malformed_command_leaves_the_store_as_it_was() {
    let mut store = Store::new();
    let config = Config::new(vec![]);
    let bad = b"*2\r\n$3\r\nSET\r\n$3\r\nfoo\r\n";
    assert_eq!(
        sent(handle_request(bad, &mut store, &config, 0)),
        "-ERR Invalid set command format\r\n"
    );
    let get = b"*2\r\n$3\r\nGET\r\n$3\r\nfoo\r\n";
    assert_eq!(sent(handle_request(get, &mut store, &config, 0)), "$-1\r\n");
    store.set(s("foo"), s("kept"), None, 0);
    assert_eq!(
        sent(handle_request(bad, &mut store, &config, 0)),
        "-ERR Invalid set command format\r\n"
    );
    assert_eq!(sent(handle_request(get, &mut store, &config, 0)), "$4\r\nkept\r\n");
    let bad_px = b"*5\r\n$3\r\nSET\r\n$3\r\nfoo\r\n$1\r\nx\r\n$2\r\nPX\r\n$3\r\nabc\r\n";
    assert_eq!(
        sent(handle_request(bad_px, &mut store, &config, 0)),
        "-ERR Invalid set command format\r\n"
    );
    assert_eq!(sent(handle_request(get, &mut store, &config, 0)), "$4\r\nkept\r\n");
}

#[test]
fn error_replies_name_the_reason() {
    let mut store = Store::new();
    let config = Config::new(vec![]);
    assert_eq!(
        sent(handle_request(b"*1\r\n$5\r\nFLUSH\r\n", &mut store, &config, 0)),
        "-ERR unrecognized command\r\n"
    );
    assert_eq!(
        sent(handle_request(b"*0\r\n", &mut store, &config, 0)),
        "-ERR invalid command\r\n"
    );
    assert_eq!(
        sent(handle_request(b"*1\r\n:5\r\n", &mut store, &config, 0)),
        "-ERR invalid command\r\n"
    );
    assert_eq!(
        sent(handle_request(b"*2\r\n$4\r\nPING\r\n$1\r\nx\r\n", &mut store, &config, 0)),
        "-ERR Invalid ping command format\r\n"
    );
}

#[test]
fn protocol_errors_are_returned() {
    let mut store = Store::new();
    store.set(s("foo"), s("bar"), None, 0);
    let config = Config::new(vec![]);
    assert_eq!(handle_request(b"", &mut store, &config, 0), Err(ProtocolError::Incomplete));
    assert_eq!(handle_request(b"PING\r\n", &mut store, &config, 0), Err(ProtocolError::UnknownType));
    assert_eq!(
        handle_request(b"*1\r\n$4\r\nPING", &mut store, &config, 0),
        Err(ProtocolError::MissingCrlf)
    );
    assert_eq!(
        handle_request(b"*1\r\n$9\r\nPING\r\n", &mut store, &config, 0),
        Err(ProtocolError::Incomplete)
    );
    assert_eq!(
        handle_request(b"*x\r\n", &mut store, &config, 0),
        Err(ProtocolError::InvalidNumber)
    );
    assert_eq!(
        handle_request(b"*1\r\n+\r\n", &mut store, &config, 0),
        Err(ProtocolError::InvalidText)
    );
    assert_eq!(
        handle_request(b"*1\r\n$4\r\nPING\r\n\xFF", &mut store, &config, 0),
        Err(ProtocolError::InvalidUtf8)
    );
    assert_eq!(store.get("foo", 0), Some(s("bar")));
}

#[test]
fn config_get() {
    let mut store = Store::new();
    let config = Config::new(vec![(s("dir"), s("/tmp/redis-files")), (s("dbfilename"), s("dump.rdb"))]);
    assert_eq!(
        sent(handle_request(b"*3\r\n$6\r\nCONFIG\r\n$3\r\nGET\r\n$3\r\ndir\r\n", &mut store, &config, 0)),
        "*2\r\n$3\r\ndir\r\n$16\r\n/tmp/redis-files\r\n"
    );
    assert_eq!(
        handle_request(b"*3\r\n$6\r\nCONFIG\r\n$3\r\nGET\r\n$4\r\nport\r\n", &mut store, &config, 0),
        Ok(None)
    );
    assert_eq!(
        sent(handle_request(b"*2\r\n$6\r\nCONFIG\r\n$3\r\ndir\r\n", &mut store, &config, 0)),
        "-ERR Invalid config command format\r\n"
    );
}

#[test]
fn execute_each_command() {
    let mut store = Store::new();
    let config = Config::new(vec![(s("dir"), s("/data"))]);
    let bytes = |r: Option<redis_core::reply::Reply<'static>>| r.map(|x| x.into_bytes());
    assert_eq!(bytes(execute(Command::Ping, &mut store, &config, 0)), Some(b"+PONG\r\n".to_vec()));
    assert_eq!(
        bytes(execute(Command::Echo(s("a b")), &mut store, &config, 0)),
        Some(b"+a b\r\n".to_vec())
    );
    assert_eq!(
        bytes(execute(Command::SetKey(s("k"), s("v"), Some(5)), &mut store, &config, 10)),
        Some(b"+OK\r\n".to_vec())
    );
    assert_eq!(
        bytes(execute(Command::Get(s("k")), &mut store, &config, 14)),
        Some(b"$1\r\nv\r\n".to_vec())
    );
    assert_eq!(
        bytes(execute(Command::Keys, &mut store, &config, 14)),
        Some(b"*1\r\n$1\r\nk\r\n".to_vec())
    );
    assert_eq!(
        bytes(execute(Command::Get(s("k")), &mut store, &config, 15)),
        Some(b"$-1\r\n".to_vec())
    );
    assert_eq!(bytes(execute(Command::Keys, &mut store, &config, 15)), Some(b"*0\r\n".to_vec()));
    assert_eq!(
        bytes(execute(Command::ConfigGet(s("dir")), &mut store, &config, 0)),
        Some(b"*2\r\n$3\r\ndir\r\n$5\r\n/data\r\n".to_vec())
    );
    assert_eq!(bytes(execute(Command::ConfigGet(s("nope")), &mut store, &config, 0)), None);
}

#[test]
fn loaded_snapshot_is_served() {
    let mut store = Store::new();
    let config = Config::new(vec![]);
    let mut snapshot = b"REDIS0011".to_vec();
    snapshot.push(0xFB);
    snapshot.extend_from_slice(&[1, 0, 0]);
    snapshot.extend_from_slice(b"\x03foo\x03bar");
    assert_eq!(load_from_rdb(&snapshot, &mut store), Ok(()));
    assert_eq!(
        sent(handle_request(b"*2\r\n$3\r\nGET\r\n$3\r\nfoo\r\n", &mut store, &config, 12345)),
        "$3\r\nbar\r\n"
    );
}
