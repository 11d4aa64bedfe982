//! One request, from the bytes that arrived to the bytes to send back:
//! decode the frame, interpret it, apply the command to the store, encode
//! the reply. The caller owns the connection and the clock.

use crate::command::{interpret, Command, Request};
use crate::config::Config;
use crate::reply::{
    array_wire, bulk_wire, error_wire, null_bulk_wire, simple_wire, texts_of, Reply,
};
use crate::resp::{decode_frame, parse_resp, ProtocolError};
use crate::store::{after_get, after_keys, after_set, live_keys, lookup, Store, StoreEntry};
use crate::text::str_from_utf8;
use vstd::prelude::*;
use vstd::utf8::valid_utf8;

verus! {

/// `items` lists the keys that are live in `m` at `now`, each once, in some
/// order.
pub open spec fn is_key_list(
    items: Seq<Seq<char>>,
    m: Map<Seq<char>, StoreEntry>,
    now: nat,
) -> bool {
    &&& items.no_duplicates()
    &&& forall|k: Seq<char>| items.contains(k) <==> live_keys(m, now).contains(k)
}

/// What a request does: the store after it and the bytes sent back, `None`
/// where nothing is sent.
pub open spec fn answers(
    request: Request,
    before: Map<Seq<char>, StoreEntry>,
    config: Map<Seq<char>, Seq<char>>,
    now: nat,
    after: Map<Seq<char>, StoreEntry>,
    sent: Option<Seq<u8>>,
) -> bool {
    match request {
        Request::Ping => after == before && sent == Some(simple_wire("PONG"@)),
        Request::Echo(text) => after == before && sent == Some(simple_wire(text)),
        Request::SetKey(key, value, ttl_ms) => after == after_set(before, key, value, ttl_ms, now)
            && sent == Some(simple_wire("OK"@)),
        Request::Get(key) => after == after_get(before, key, now) && sent == Some(
            match lookup(before, key, now) {
                Some(value) => bulk_wire(value),
                None => null_bulk_wire(),
            },
        ),
        Request::ConfigGet(name) => after == before && sent == (if config.contains_key(name) {
            Some(array_wire(seq![name, config[name]]))
        } else {
            None
        }),
        Request::Keys => after == after_keys(before, now) && exists|items: Seq<Seq<char>>|
            #[trigger] is_key_list(items, before, now) && sent == Some(array_wire(items)),
    }
}

/// The bytes of a reply, if there is one.
pub open spec fn wire_of(reply: Option<Reply<'_>>) -> Option<Seq<u8>> {
    match reply {
        Some(r) => Some(r.wire()),
        None => None,
    }
}

/// Applies a command to the store at the time `now`. Returns the reply, or
/// `None` for a `CONFIG GET` of a name that is not configured.
pub fn execute(cmd: Command, store: &mut Store, config: &Config, now: u64) -> (r: Option<
    Reply<'static>,
>)
    ensures
        answers(cmd@, old(store)@, config@, now as nat, final(store)@, wire_of(r)),
{
    match cmd {
        Command::Ping => Some(Reply::Pong),
        Command::Echo(text) => Some(Reply::Echo(text)),
        Command::SetKey(key, value, ttl_ms) => {
            store.set(key, value, ttl_ms, now);
            Some(Reply::Simple("OK".to_owned()))
        },
        Command::Get(key) => {
            match store.get(key.as_str(), now) {
                Some(value) => Some(Reply::Bulk(value)),
                None => Some(Reply::NullBulk),
            }
        },
        Command::ConfigGet(name) => {
            match config.get(name.as_str()) {
                Some(value) => {
                    let mut items: Vec<String> = Vec::new();
                    items.push(name);
                    items.push(value);
                    proof {
                        assert(texts_of(items@) =~= seq![name@, value@]);
                    }
                    Some(Reply::Array(items))
                },
                None => None,
            }
        },
        Command::Keys => {
            let items: Vec<String> = store.keys(now);
            proof {
                assert(is_key_list(texts_of(items@), old(store)@, now as nat));
            }
            Some(Reply::Array(items))
        },
    }
}

/// Serves one request. `input` holds one complete frame, and may hold more
/// after it, which is not read.
///
/// Bytes that are no valid UTF-8 or no frame give the protocol error, and a
/// frame that is no command gives the reply `-ERR <reason>`; in both cases
/// the store is left as it was. Otherwise the command is applied at the
/// time `now` and its reply is encoded.
pub fn handle_request(input: &[u8], store: &mut Store, config: &Config, now: u64) -> (r: Result<
    Option<Vec<u8>>,
    ProtocolError,
>)
    ensures
        if !valid_utf8(input@) {
            r matches Err(e) && e == ProtocolError::InvalidUtf8 && final(store)@ == old(store)@
        } else {
            match decode_frame(input@) {
                Err(e) => r matches Err(x) && x == e && final(store)@ == old(store)@,
                Ok((frame, _)) => match interpret(frame) {
                    Err(e) => r matches Ok(Some(out)) && out@ == error_wire(e.reason())
                        && final(store)@ == old(store)@,
                    Ok(request) => r matches Ok(out) && answers(
                        request,
                        old(store)@,
                        config@,
                        now as nat,
                        final(store)@,
                        match out {
                            Some(bytes) => Some(bytes@),
                            None => None,
                        },
                    ),
                },
            }
        },
{
    let text: &str = match str_from_utf8(input) {
        None => {
            return Err(ProtocolError::InvalidUtf8);
        },
        Some(t) => t,
    };
    let (_rest, frame) = match parse_resp(text) {
        Err(e) => {
            return Err(e);
        },
        Ok(found) => found,
    };
    match Command::try_from(frame) {
        Err(e) => Ok(Some(Reply::Error(e.message()).into_bytes())),
        Ok(cmd) => {
            match execute(cmd, store, config, now) {
                Some(reply) => Ok(Some(reply.into_bytes())),
                None => Ok(None),
            }
        },
    }
}

} // verus!
