//! The reply side of the wire protocol: each reply has one exact encoding.

use crate::ascii::{decimal_digits, write_decimal, CR, LF};
use crate::resp::{ARRAY_TAG, BULK_TAG, SIMPLE_TAG};
use vstd::prelude::*;
use vstd::utf8::encode_utf8;

verus! {

/// What the server answers.
pub enum Reply<'a> {
    /// A line of text: `+<text>\r\n`.
    Simple(String),
    /// A failure with its reason: `-ERR <reason>\r\n`.
    Error(&'a str),
    /// The answer to `PING`: `+PONG\r\n`.
    Pong,
    /// The answer to `ECHO`: the text as a simple line.
    Echo(String),
    /// The null value: `_\r\n`.
    Null,
    /// The absent bulk string: `$-1\r\n`.
    NullBulk,
    /// A string with its length in bytes: `$<length>\r\n<text>\r\n`.
    Bulk(String),
    /// A list of bulk strings: `*<count>\r\n`, then each of them.
    Array(Vec<String>),
}

/// The line end, `\r\n`.
pub open spec fn crlf() -> Seq<u8> {
    seq![CR, LF]
}

/// `+<text>\r\n`
pub open spec fn simple_wire(text: Seq<char>) -> Seq<u8> {
    seq![SIMPLE_TAG] + encode_utf8(text) + crlf()
}

/// `-ERR <reason>\r\n`
pub open spec fn error_wire(reason: Seq<char>) -> Seq<u8> {
    encode_utf8("-ERR "@) + encode_utf8(reason) + crlf()
}

/// `_\r\n`
pub open spec fn null_wire() -> Seq<u8> {
    seq![95u8, CR, LF]
}

/// `$-1\r\n`
pub open spec fn null_bulk_wire() -> Seq<u8> {
    seq![BULK_TAG, 45u8, 49u8, CR, LF]
}

/// `$<length>\r\n<text>\r\n`, the length being that of the text in bytes,
/// written in decimal.
pub open spec fn bulk_wire(text: Seq<char>) -> Seq<u8> {
    seq![BULK_TAG] + decimal_digits(encode_utf8(text).len()) + crlf() + encode_utf8(text) + crlf()
}

/// The bulk strings of `items`, one after the other.
pub open spec fn bulks_wire(items: Seq<Seq<char>>) -> Seq<u8>
    decreases items.len(),
{
    if items.len() == 0 {
        Seq::empty()
    } else {
        bulks_wire(items.drop_last()) + bulk_wire(items.last())
    }
}

/// `*<count>\r\n`, then each item as a bulk string.
pub open spec fn array_wire(items: Seq<Seq<char>>) -> Seq<u8> {
    seq![ARRAY_TAG] + decimal_digits(items.len()) + crlf() + bulks_wire(items)
}

/// The texts of a list of strings.
pub open spec fn texts_of(items: Seq<String>) -> Seq<Seq<char>> {
    Seq::new(items.len(), |i: int| items[i]@)
}

fn push_crlf(out: &mut Vec<u8>)
    ensures
        final(out)@ == old(out)@ + crlf(),
{
    out.push(CR);
    out.push(LF);
    proof {
        assert(final(out)@ =~= old(out)@ + crlf());
    }
}

fn push_text(out: &mut Vec<u8>, text: &str)
    ensures
        final(out)@ == old(out)@ + encode_utf8(text@),
{
    out.extend_from_slice(text.as_bytes());
}

fn push_simple(out: &mut Vec<u8>, text: &str)
    ensures
        final(out)@ == old(out)@ + simple_wire(text@),
{
    out.push(SIMPLE_TAG);
    push_text(out, text);
    push_crlf(out);
    proof {
        assert(final(out)@ =~= old(out)@ + simple_wire(text@));
    }
}

fn push_bulk(out: &mut Vec<u8>, text: &str)
    ensures
        final(out)@ == old(out)@ + bulk_wire(text@),
{
    let bytes = text.as_bytes();
    let len: usize = bytes.len();
    out.push(BULK_TAG);
    write_decimal(len as u64, out);
    push_crlf(out);
    out.extend_from_slice(bytes);
    push_crlf(out);
    proof {
        assert(final(out)@ =~= old(out)@ + bulk_wire(text@));
    }
}

impl<'a> Reply<'a> {
    /// The bytes that encode this reply.
    pub open spec fn wire(&self) -> Seq<u8> {
        match *self {
            Reply::Simple(text) => simple_wire(text@),
            Reply::Error(reason) => error_wire(reason@),
            Reply::Pong => simple_wire("PONG"@),
            Reply::Echo(text) => simple_wire(text@),
            Reply::Null => null_wire(),
            Reply::NullBulk => null_bulk_wire(),
            Reply::Bulk(text) => bulk_wire(text@),
            Reply::Array(items) => array_wire(texts_of(items@)),
        }
    }

    /// Encodes the reply. Never fails.
    pub fn into_bytes(self) -> (r: Vec<u8>)
        ensures
            r@ == self.wire(),
    {
        let mut out: Vec<u8> = Vec::new();
        match self {
            Reply::Simple(text) => {
                push_simple(&mut out, text.as_str());
            },
            Reply::Error(reason) => {
                push_text(&mut out, "-ERR ");
                push_text(&mut out, reason);
                push_crlf(&mut out);
            },
            Reply::Pong => {
                push_simple(&mut out, "PONG");
            },
            Reply::Echo(text) => {
                push_simple(&mut out, text.as_str());
            },
            Reply::Null => {
                out.push(95);
                push_crlf(&mut out);
            },
            Reply::NullBulk => {
                out.push(BULK_TAG);
                out.push(45);
                out.push(49);
                push_crlf(&mut out);
            },
            Reply::Bulk(text) => {
                push_bulk(&mut out, text.as_str());
            },
            Reply::Array(items) => {
                let n: usize = items.len();
                out.push(ARRAY_TAG);
                write_decimal(n as u64, &mut out);
                push_crlf(&mut out);
                let ghost head = out@;
                let mut i: usize = 0;
                proof {
                    assert(texts_of(items@).take(0) =~= Seq::<Seq<char>>::empty());
                }
                while i < n
                    invariant
                        n == items@.len(),
                        0 <= i <= n,
                        out@ == head + bulks_wire(texts_of(items@).take(i as int)),
                    decreases n - i,
                {
                    proof {
                        let next = texts_of(items@).take(i + 1);
                        assert(next.drop_last() =~= texts_of(items@).take(i as int));
                        assert(next.last() == items@[i as int]@);
                    }
                    push_bulk(&mut out, items[i].as_str());
                    i = i + 1;
                }
                proof {
                    assert(texts_of(items@).take(n as int) =~= texts_of(items@));
                }
            },
        }
        proof {
            assert(out@ =~= self.wire());
        }
        out
    }
}

} // verus!
