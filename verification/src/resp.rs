//! The request side of the wire protocol: a frame is `*<count>\r\n` followed
//! by that many elements, each a simple string (`+<letters>\r\n`), a bulk
//! string (`$<length>\r\n<bytes>\r\n`) or an integer (`:<sign><digits>\r\n`).
//!
//! The grammar is stated over the bytes of the input, as spec functions that
//! give the decoded value together with the number of bytes it took, or the
//! error. The parsers work on a `str` and return the unread rest beside the
//! value.

use crate::ascii::{
    count_digits, count_letters, decimal_value, digit_run, lemma_digit_run_props, letter_run,
    read_decimal, CR, LF, MINUS, PLUS,
};
use crate::text::{lemma_ascii_boundary, lemma_str_bytes, substr};
use std::borrow::Cow;
use vstd::prelude::*;
use vstd::string::StringSliceAdditionalSpecFns;
use vstd::utf8::{decode_utf8, is_char_boundary_start_end_of_seq};

verus! {

/// The type byte of an array frame, `*`.
pub const ARRAY_TAG: u8 = 42;

/// The type byte of a simple string, `+`.
pub const SIMPLE_TAG: u8 = 43;

/// The type byte of an error line, `-`.
pub const ERROR_TAG: u8 = 45;

/// The type byte of a bulk string, `$`.
pub const BULK_TAG: u8 = 36;

/// The type byte of an integer, `:`.
pub const INTEGER_TAG: u8 = 58;

/// How a string element was framed on the wire.
#[derive(Debug, PartialEq, Eq, Copy, Clone)]
pub enum StrType {
    /// A simple string: `+<letters>\r\n`.
    Basic,
    /// A bulk string: `$<length>\r\n<bytes>\r\n`.
    Bulk,
}

/// One element of a request frame.
#[derive(Debug, PartialEq, Eq)]
pub enum Type<'a> {
    Integer(i64),
    String(Cow<'a, str>, StrType),
}

/// Why a buffer is not a request frame.
#[derive(Debug, PartialEq, Eq, Copy, Clone)]
pub enum ProtocolError {
    /// The buffer ends where a type byte, or the declared content of a bulk
    /// string, was still to come.
    Incomplete,
    /// The type byte is not the expected one, or is none of `+`, `$`, `:`
    /// where an element starts.
    UnknownType,
    /// A count, a length or an integer is not a decimal numeral in range.
    InvalidNumber,
    /// A simple string or an error line holds no letter.
    InvalidText,
    /// The `\r\n` that ends a line or a bulk string is not there.
    MissingCrlf,
    /// The buffer is not valid UTF-8.
    InvalidUtf8,
}

/// What an element of a frame is: the mathematical value of a [`Type`].
pub enum Element {
    Integer(int),
    Simple(Seq<char>),
    Bulk(Seq<char>),
}

impl<'a> View for Type<'a> {
    type V = Element;

    open spec fn view(&self) -> Element {
        match *self {
            Type::Integer(i) => Element::Integer(i as int),
            Type::String(s, StrType::Basic) => Element::Simple(s@),
            Type::String(s, StrType::Bulk) => Element::Bulk(s@),
        }
    }
}

impl<'a> Clone for Type<'a> {
    fn clone(&self) -> (r: Self)
        ensures
            r@ == self@,
    {
        match self {
            Type::Integer(i) => Type::Integer(*i),
            Type::String(s, k) => {
                let t: Cow<'a, str> = match s {
                    Cow::Borrowed(b) => Cow::Borrowed(*b),
                    Cow::Owned(o) => Cow::Owned(o.clone()),
                };
                Type::String(t, *k)
            },
        }
    }
}

/// The values of a list of elements.
pub open spec fn elements_of(items: Seq<Type<'_>>) -> Seq<Element> {
    Seq::new(items.len(), |i: int| items[i]@)
}

/// `s` starts with `\r\n`.
pub open spec fn has_crlf(s: Seq<u8>) -> bool {
    s.len() >= 2 && s[0] == CR && s[1] == LF
}

/// A count or length field: one or more digits that write a number of at
/// most `u32::MAX`, then `\r\n`. Gives the number and the bytes taken.
pub open spec fn decode_count(s: Seq<u8>) -> Result<(nat, int), ProtocolError> {
    let n = digit_run(s) as int;
    if n == 0 || decimal_value(s.take(n)) > u32::MAX {
        Err(ProtocolError::InvalidNumber)
    } else if !has_crlf(s.skip(n)) {
        Err(ProtocolError::MissingCrlf)
    } else {
        Ok((decimal_value(s.take(n)), n + 2))
    }
}

/// A line made of the type byte `tag`, one or more ASCII letters, and
/// `\r\n`. Gives the letters and the bytes taken.
pub open spec fn decode_word(s: Seq<u8>, tag: u8) -> Result<(Seq<u8>, int), ProtocolError> {
    if s.len() == 0 {
        Err(ProtocolError::Incomplete)
    } else if s[0] != tag {
        Err(ProtocolError::UnknownType)
    } else {
        let n = letter_run(s.skip(1)) as int;
        if n == 0 {
            Err(ProtocolError::InvalidText)
        } else if !has_crlf(s.skip(1 + n)) {
            Err(ProtocolError::MissingCrlf)
        } else {
            Ok((s.subrange(1, 1 + n), n + 3))
        }
    }
}

/// A simple string: `+<letters>\r\n`.
pub open spec fn decode_simple(s: Seq<u8>) -> Result<(Seq<u8>, int), ProtocolError> {
    decode_word(s, SIMPLE_TAG)
}

/// An error line: `-<letters>\r\n`.
pub open spec fn decode_error(s: Seq<u8>) -> Result<(Seq<u8>, int), ProtocolError> {
    decode_word(s, ERROR_TAG)
}

/// A bulk string: `$<length>\r\n`, then exactly `length` bytes, then `\r\n`.
/// Gives the bytes of the content and the bytes taken.
pub open spec fn decode_bulk(s: Seq<u8>) -> Result<(Seq<u8>, int), ProtocolError> {
    if s.len() == 0 {
        Err(ProtocolError::Incomplete)
    } else if s[0] != BULK_TAG {
        Err(ProtocolError::UnknownType)
    } else {
        match decode_count(s.skip(1)) {
            Err(e) => Err(e),
            Ok((len, k)) => {
                let body = s.skip(1 + k);
                if body.len() < len {
                    Err(ProtocolError::Incomplete)
                } else if !has_crlf(body.skip(len as int)) {
                    Err(ProtocolError::MissingCrlf)
                } else {
                    Ok((body.take(len as int), 1 + k + len + 2))
                }
            },
        }
    }
}

/// A signed numeral: an optional `+` or `-`, then one or more digits, whose
/// value fits an `i64`. Gives the value and the bytes taken.
pub open spec fn decode_signed(s: Seq<u8>) -> Result<(int, int), ProtocolError> {
    let sign: int = if s.len() > 0 && (s[0] == PLUS || s[0] == MINUS) {
        1
    } else {
        0
    };
    let d = s.skip(sign);
    let n = digit_run(d) as int;
    let magnitude = decimal_value(d.take(n)) as int;
    let value: int = if sign == 1 && s[0] == MINUS {
        -magnitude
    } else {
        magnitude
    };
    if n == 0 || value < i64::MIN || value > i64::MAX {
        Err(ProtocolError::InvalidNumber)
    } else {
        Ok((value, sign + n))
    }
}

/// An integer: `:`, a signed numeral, `\r\n`.
pub open spec fn decode_integer(s: Seq<u8>) -> Result<(int, int), ProtocolError> {
    if s.len() == 0 {
        Err(ProtocolError::Incomplete)
    } else if s[0] != INTEGER_TAG {
        Err(ProtocolError::UnknownType)
    } else {
        match decode_signed(s.skip(1)) {
            Err(e) => Err(e),
            Ok((value, k)) => if !has_crlf(s.skip(1 + k)) {
                Err(ProtocolError::MissingCrlf)
            } else {
                Ok((value, 1 + k + 2))
            },
        }
    }
}

/// One element, chosen by its type byte.
pub open spec fn decode_element(s: Seq<u8>) -> Result<(Element, int), ProtocolError> {
    if s.len() == 0 {
        Err(ProtocolError::Incomplete)
    } else if s[0] == SIMPLE_TAG {
        match decode_simple(s) {
            Err(e) => Err(e),
            Ok((text, k)) => Ok((Element::Simple(decode_utf8(text)), k)),
        }
    } else if s[0] == BULK_TAG {
        match decode_bulk(s) {
            Err(e) => Err(e),
            Ok((text, k)) => Ok((Element::Bulk(decode_utf8(text)), k)),
        }
    } else if s[0] == INTEGER_TAG {
        match decode_integer(s) {
            Err(e) => Err(e),
            Ok((value, k)) => Ok((Element::Integer(value), k)),
        }
    } else {
        Err(ProtocolError::UnknownType)
    }
}

/// `n` elements one after the other. Gives them in order and the bytes
/// taken; the first element that fails gives its error.
pub open spec fn decode_elements(s: Seq<u8>, n: nat) -> Result<(Seq<Element>, int), ProtocolError>
    decreases n,
{
    if n == 0 {
        Ok((Seq::empty(), 0))
    } else {
        match decode_elements(s, (n - 1) as nat) {
            Err(e) => Err(e),
            Ok((items, k)) => match decode_element(s.skip(k)) {
                Err(e) => Err(e),
                Ok((item, m)) => Ok((items.push(item), k + m)),
            },
        }
    }
}

/// A request frame: `*<count>\r\n`, then `count` elements. Bytes after the
/// last element are not part of the frame.
pub open spec fn decode_frame(s: Seq<u8>) -> Result<(Seq<Element>, int), ProtocolError> {
    if s.len() == 0 {
        Err(ProtocolError::Incomplete)
    } else if s[0] != ARRAY_TAG {
        Err(ProtocolError::UnknownType)
    } else {
        match decode_count(s.skip(1)) {
            Err(e) => Err(e),
            Ok((n, k)) => match decode_elements(s.skip(1 + k), n) {
                Err(e) => Err(e),
                Ok((items, m)) => Ok((items, 1 + k + m)),
            },
        }
    }
}

/// Once an element fails, every longer list fails with the same error.
pub proof fn lemma_decode_elements_error(s: Seq<u8>, i: nat, n: nat)
    requires
        i <= n,
        decode_elements(s, i) is Err,
    ensures
        decode_elements(s, n) == decode_elements(s, i),
    decreases n,
{
    if i < n {
        lemma_decode_elements_error(s, i, (n - 1) as nat);
    }
}

fn at_crlf(b: &[u8], pos: usize) -> (r: bool)
    requires
        pos <= b@.len(),
    ensures
        r == has_crlf(b@.skip(pos as int)),
{
    b.len() - pos >= 2 && b[pos] == CR && b[pos + 1] == LF
}

/// Reads a count or length field at `pos`. Gives the number and the offset
/// after its `\r\n`.
fn scan_count(b: &[u8], pos: usize) -> (r: Result<(u32, usize), ProtocolError>)
    requires
        pos <= b@.len(),
    ensures
        match decode_count(b@.skip(pos as int)) {
            Ok((v, k)) => r matches Ok((n, next)) && n == v && next == pos + k && next <= b@.len()
                && b@[next - 1] == LF,
            Err(e) => r matches Err(x) && x == e,
        },
{
    let ghost s = b@.skip(pos as int);
    let n: usize = count_digits(b, pos);
    if n == 0 {
        return Err(ProtocolError::InvalidNumber);
    }
    proof {
        lemma_digit_run_props(s);
        assert(s.take(n as int) =~= b@.subrange(pos as int, pos + n));
        assert(s.skip(n as int) =~= b@.skip(pos + n));
    }
    match read_decimal(b, pos, pos + n, 0xffff_ffff) {
        None => Err(ProtocolError::InvalidNumber),
        Some(v) => {
            if !at_crlf(b, pos + n) {
                Err(ProtocolError::MissingCrlf)
            } else {
                assert(b@.skip(pos + n)[1] == b@[pos + n + 1]);
                Ok((v as u32, pos + n + 2))
            }
        },
    }
}

/// Reads a line of letters with the type byte `tag` at `pos`. Gives the
/// offsets where the letters start and end; the line ends two bytes later.
fn scan_word(b: &[u8], pos: usize, tag: u8) -> (r: Result<(usize, usize), ProtocolError>)
    requires
        pos <= b@.len(),
        tag < 128,
    ensures
        match decode_word(b@.skip(pos as int), tag) {
            Ok((text, k)) => r matches Ok((start, end)) && start == pos + 1 && start <= end
                && end == pos + k - 2 && end + 2 <= b@.len() <= usize::MAX && text == b@.subrange(
                start as int,
                end as int,
            ) && b@[start - 1] == tag && b@[end as int] == CR && b@[end + 1] == LF,
            Err(e) => r matches Err(x) && x == e,
        },
{
    let ghost s = b@.skip(pos as int);
    if pos >= b.len() {
        return Err(ProtocolError::Incomplete);
    }
    if b[pos] != tag {
        return Err(ProtocolError::UnknownType);
    }
    let n: usize = count_letters(b, pos + 1);
    proof {
        assert(s.skip(1) =~= b@.skip(pos + 1));
        assert(s.skip(1 + n) =~= b@.skip(pos + 1 + n));
        assert(s.subrange(1, 1 + n) =~= b@.subrange(pos + 1, pos + 1 + n));
    }
    if n == 0 {
        return Err(ProtocolError::InvalidText);
    }
    if !at_crlf(b, pos + 1 + n) {
        return Err(ProtocolError::MissingCrlf);
    }
    proof {
        assert(b@.skip(pos + 1 + n)[0] == b@[pos + 1 + n]);
        assert(b@.skip(pos + 1 + n)[1] == b@[pos + 1 + n + 1]);
    }
    Ok((pos + 1, pos + 1 + n))
}

/// Reads a bulk string at `pos`. Gives the offsets where its content starts
/// and ends; the element ends two bytes later.
fn scan_bulk(b: &[u8], pos: usize) -> (r: Result<(usize, usize), ProtocolError>)
    requires
        pos <= b@.len(),
    ensures
        match decode_bulk(b@.skip(pos as int)) {
            Ok((text, k)) => r matches Ok((start, end)) && pos < start <= end && end == pos + k - 2
                && end + 2 <= b@.len() <= usize::MAX && text == b@.subrange(
                start as int,
                end as int,
            ) && b@[start - 1] == LF && b@[end as int] == CR && b@[end + 1] == LF,
            Err(e) => r matches Err(x) && x == e,
        },
{
    let ghost s = b@.skip(pos as int);
    if pos >= b.len() {
        return Err(ProtocolError::Incomplete);
    }
    if b[pos] != BULK_TAG {
        return Err(ProtocolError::UnknownType);
    }
    proof {
        assert(s.skip(1) =~= b@.skip(pos + 1));
    }
    let (len, start) = match scan_count(b, pos + 1) {
        Err(e) => {
            return Err(e);
        },
        Ok(found) => found,
    };
    let ghost k = start - pos - 1;
    proof {
        assert(s.skip(1 + k) =~= b@.skip(start as int));
    }
    if len as usize > b.len() - start {
        return Err(ProtocolError::Incomplete);
    }
    let end: usize = start + len as usize;
    proof {
        assert(b@.skip(start as int).skip(len as int) =~= b@.skip(end as int));
        assert(b@.skip(start as int).take(len as int) =~= b@.subrange(start as int, end as int));
    }
    if !at_crlf(b, end) {
        return Err(ProtocolError::MissingCrlf);
    }
    proof {
        assert(b@.skip(end as int)[0] == b@[end as int]);
        assert(b@.skip(end as int)[1] == b@[end + 1]);
    }
    Ok((start, end))
}

/// Reads a signed numeral at `pos`. Gives its value and the offset after
/// its last digit.
fn digit(b: &[u8], pos: usize) -> (r: Result<(i64, usize), ProtocolError>)
    requires
        pos <= b@.len(),
    ensures
        match decode_signed(b@.skip(pos as int)) {
            Ok((v, k)) => r matches Ok((n, next)) && n == v && next == pos + k && next <= b@.len(),
            Err(e) => r matches Err(x) && x == e,
        },
{
    let ghost s = b@.skip(pos as int);
    let negative: bool = pos < b.len() && b[pos] == MINUS;
    let signed: bool = pos < b.len() && (b[pos] == PLUS || b[pos] == MINUS);
    let first: usize = if signed {
        pos + 1
    } else {
        pos
    };
    let n: usize = count_digits(b, first);
    proof {
        assert(s.skip(first - pos) =~= b@.skip(first as int));
        lemma_digit_run_props(b@.skip(first as int));
        assert(b@.skip(first as int).take(n as int) =~= b@.subrange(first as int, first + n));
    }
    if n == 0 {
        return Err(ProtocolError::InvalidNumber);
    }
    let limit: u64 = if negative {
        0x8000_0000_0000_0000
    } else {
        0x7fff_ffff_ffff_ffff
    };
    match read_decimal(b, first, first + n, limit) {
        None => Err(ProtocolError::InvalidNumber),
        Some(m) => {
            let value: i64 = if negative {
                if m == 0x8000_0000_0000_0000 {
                    i64::MIN
                } else {
                    -(m as i64)
                }
            } else {
                m as i64
            };
            Ok((value, first + n))
        },
    }
}

/// Reads an integer element at `pos`. Gives its value and the offset after
/// its `\r\n`.
fn scan_integer(b: &[u8], pos: usize) -> (r: Result<(i64, usize), ProtocolError>)
    requires
        pos <= b@.len(),
    ensures
        match decode_integer(b@.skip(pos as int)) {
            Ok((v, k)) => r matches Ok((n, next)) && n == v && next == pos + k && pos < next
                <= b@.len() && b@[next - 1] == LF,
            Err(e) => r matches Err(x) && x == e,
        },
{
    let ghost s = b@.skip(pos as int);
    if pos >= b.len() {
        return Err(ProtocolError::Incomplete);
    }
    if b[pos] != INTEGER_TAG {
        return Err(ProtocolError::UnknownType);
    }
    proof {
        assert(s.skip(1) =~= b@.skip(pos + 1));
    }
    let (value, end) = match digit(b, pos + 1) {
        Err(e) => {
            return Err(e);
        },
        Ok(found) => found,
    };
    proof {
        assert(s.skip(end - pos) =~= b@.skip(end as int));
    }
    if !at_crlf(b, end) {
        return Err(ProtocolError::MissingCrlf);
    }
    proof {
        assert(b@.skip(end as int)[1] == b@[end + 1]);
    }
    Ok((value, end + 2))
}

/// The rest of `input` from the byte offset `pos`, which follows a `\n`.
fn rest_after<'a>(input: &'a str, pos: usize) -> (r: &'a str)
    requires
        0 < pos <= input.spec_bytes().len(),
        input.spec_bytes()[pos - 1] == LF,
    ensures
        r.spec_bytes() == input.spec_bytes().skip(pos as int),
{
    proof {
        lemma_str_bytes(input@);
        lemma_ascii_boundary(input.spec_bytes(), pos - 1);
        is_char_boundary_start_end_of_seq(input.spec_bytes());
    }
    let end: usize = input.as_bytes().len();
    substr(input, pos, end)
}

/// The text of `input` between `start` and `end`, where an ASCII byte
/// stands before `start` and one at `end`.
fn text_between<'a>(input: &'a str, start: usize, end: usize) -> (r: &'a str)
    requires
        0 < start <= end < input.spec_bytes().len(),
        input.spec_bytes()[start - 1] < 128,
        input.spec_bytes()[end as int] < 128,
    ensures
        r.spec_bytes() == input.spec_bytes().subrange(start as int, end as int),
        r@ == decode_utf8(input.spec_bytes().subrange(start as int, end as int)),
{
    proof {
        lemma_str_bytes(input@);
        lemma_ascii_boundary(input.spec_bytes(), start - 1);
        lemma_ascii_boundary(input.spec_bytes(), end as int);
    }
    substr(input, start, end)
}

/// Decodes a simple string at the start of `input`. Returns the unread rest
/// and the letters.
pub fn parse_string<'a>(input: &'a str) -> (r: Result<(&'a str, &'a str), ProtocolError>)
    ensures
        match decode_simple(input.spec_bytes()) {
            Ok((text, k)) => r matches Ok((rest, out)) && out.spec_bytes() == text
                && rest.spec_bytes() == input.spec_bytes().skip(k),
            Err(e) => r matches Err(x) && x == e,
        },
{
    let b = input.as_bytes();
    proof {
        assert(b@.skip(0) =~= b@);
    }
    match scan_word(b, 0, SIMPLE_TAG) {
        Err(e) => Err(e),
        Ok((start, end)) => {
            let out = text_between(input, start, end);
            let rest = rest_after(input, end + 2);
            Ok((rest, out))
        },
    }
}

/// Decodes an error line at the start of `input`. Returns the unread rest
/// and the letters.
pub fn parse_error<'a>(input: &'a str) -> (r: Result<(&'a str, &'a str), ProtocolError>)
    ensures
        match decode_error(input.spec_bytes()) {
            Ok((text, k)) => r matches Ok((rest, out)) && out.spec_bytes() == text
                && rest.spec_bytes() == input.spec_bytes().skip(k),
            Err(e) => r matches Err(x) && x == e,
        },
{
    let b = input.as_bytes();
    proof {
        assert(b@.skip(0) =~= b@);
    }
    match scan_word(b, 0, ERROR_TAG) {
        Err(e) => Err(e),
        Ok((start, end)) => {
            let out = text_between(input, start, end);
            let rest = rest_after(input, end + 2);
            Ok((rest, out))
        },
    }
}

/// Decodes a bulk string at the start of `input`. Returns the unread rest
/// and the content, which has exactly the declared number of bytes.
pub fn parse_bulk_string<'a>(input: &'a str) -> (r: Result<(&'a str, &'a str), ProtocolError>)
    ensures
        match decode_bulk(input.spec_bytes()) {
            Ok((text, k)) => r matches Ok((rest, out)) && out.spec_bytes() == text
                && rest.spec_bytes() == input.spec_bytes().skip(k),
            Err(e) => r matches Err(x) && x == e,
        },
{
    let b = input.as_bytes();
    proof {
        assert(b@.skip(0) =~= b@);
    }
    match scan_bulk(b, 0) {
        Err(e) => Err(e),
        Ok((start, end)) => {
            let out = text_between(input, start, end);
            let rest = rest_after(input, end + 2);
            Ok((rest, out))
        },
    }
}

/// Decodes an integer at the start of `input`. Returns the unread rest and
/// the value.
pub fn parse_integer<'a>(input: &'a str) -> (r: Result<(&'a str, i64), ProtocolError>)
    ensures
        match decode_integer(input.spec_bytes()) {
            Ok((value, k)) => r matches Ok((rest, out)) && out == value && rest.spec_bytes()
                == input.spec_bytes().skip(k),
            Err(e) => r matches Err(x) && x == e,
        },
{
    let b = input.as_bytes();
    proof {
        assert(b@.skip(0) =~= b@);
    }
    match scan_integer(b, 0) {
        Err(e) => Err(e),
        Ok((value, next)) => {
            let rest = rest_after(input, next);
            Ok((rest, value))
        },
    }
}

/// Decodes the element at the byte offset `pos` of `input`, whose bytes are
/// `b`. Returns it with the offset after it.
fn parse_element<'a>(input: &'a str, b: &[u8], pos: usize) -> (r: Result<
    (Type<'a>, usize),
    ProtocolError,
>)
    requires
        b@ == input.spec_bytes(),
        pos <= b@.len(),
    ensures
        match decode_element(b@.skip(pos as int)) {
            Ok((item, k)) => r matches Ok((out, next)) && out@ == item && next == pos + k && pos
                < next <= b@.len() && b@[next - 1] == LF,
            Err(e) => r matches Err(x) && x == e,
        },
{
    if pos >= b.len() {
        return Err(ProtocolError::Incomplete);
    }
    proof {
        assert(b@.skip(pos as int)[0] == b@[pos as int]);
    }
    let tag: u8 = b[pos];
    if tag == SIMPLE_TAG {
        match scan_word(b, pos, SIMPLE_TAG) {
            Err(e) => Err(e),
            Ok((start, end)) => {
                let text = text_between(input, start, end);
                Ok((Type::String(Cow::Borrowed(text), StrType::Basic), end + 2))
            },
        }
    } else if tag == BULK_TAG {
        match scan_bulk(b, pos) {
            Err(e) => Err(e),
            Ok((start, end)) => {
                let text = text_between(input, start, end);
                Ok((Type::String(Cow::Borrowed(text), StrType::Bulk), end + 2))
            },
        }
    } else if tag == INTEGER_TAG {
        match scan_integer(b, pos) {
            Err(e) => Err(e),
            Ok((value, next)) => Ok((Type::Integer(value), next)),
        }
    } else {
        Err(ProtocolError::UnknownType)
    }
}

/// Decodes a request frame at the start of `input`. Returns the unread rest
/// and the elements in order.
pub fn parse_array<'a>(input: &'a str) -> (r: Result<(&'a str, Vec<Type<'a>>), ProtocolError>)
    ensures
        match decode_frame(input.spec_bytes()) {
            Ok((items, k)) => r matches Ok((rest, out)) && elements_of(out@) == items
                && rest.spec_bytes() == input.spec_bytes().skip(k),
            Err(e) => r matches Err(x) && x == e,
        },
{
    let b = input.as_bytes();
    if b.len() == 0 {
        return Err(ProtocolError::Incomplete);
    }
    if b[0] != ARRAY_TAG {
        return Err(ProtocolError::UnknownType);
    }
    let (count, start) = match scan_count(b, 1) {
        Err(e) => {
            return Err(e);
        },
        Ok(found) => found,
    };
    let ghost body = b@.skip(start as int);
    let mut out: Vec<Type<'a>> = Vec::new();
    let mut pos: usize = start;
    let mut i: u32 = 0;
    proof {
        assert(elements_of(out@) =~= Seq::<Element>::empty());
    }
    while i < count
        invariant
            b@ == input.spec_bytes(),
            body == b@.skip(start as int),
            b@.len() > 0 && b@[0] == ARRAY_TAG,
            decode_count(b@.skip(1)) == Ok::<(nat, int), ProtocolError>(
                (count as nat, start - 1),
            ),
            0 < start <= pos <= b@.len(),
            b@[pos - 1] == LF,
            i <= count,
            decode_elements(body, i as nat) == Ok::<(Seq<Element>, int), ProtocolError>(
                (elements_of(out@), pos - start),
            ),
        decreases count - i,
    {
        proof {
            assert(body.skip(pos - start) =~= b@.skip(pos as int));
        }
        match parse_element(input, b, pos) {
            Err(e) => {
                proof {
                    assert(decode_elements(body, (i + 1) as nat) == Err::<
                        (Seq<Element>, int),
                        ProtocolError,
                    >(e));
                    lemma_decode_elements_error(body, (i + 1) as nat, count as nat);
                }
                return Err(e);
            },
            Ok((item, next)) => {
                proof {
                    assert(elements_of(out@.push(item)) =~= elements_of(out@).push(item@));
                }
                out.push(item);
                pos = next;
                i = i + 1;
            },
        }
    }
    let rest = rest_after(input, pos);
    Ok((rest, out))
}

/// Decodes one request frame: see [`parse_array`].
pub fn parse_resp<'a>(input: &'a str) -> (r: Result<(&'a str, Vec<Type<'a>>), ProtocolError>)
    ensures
        match decode_frame(input.spec_bytes()) {
            Ok((items, k)) => r matches Ok((rest, out)) && elements_of(out@) == items
                && rest.spec_bytes() == input.spec_bytes().skip(k),
            Err(e) => r matches Err(x) && x == e,
        },
{
    parse_array(input)
}

} // verus!
