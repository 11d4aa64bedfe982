//! The snapshot decoder. A snapshot is a nine-byte header (`REDIS` and
//! four digits of version), any bytes up to the database selector `0xFB`,
//! two length-encoded size hints, and as many key-value pairs as the first
//! hint says.
//!
//! The format is stated over bytes, as spec functions that give the decoded
//! value and the number of bytes it took, or the error. The decoder reads
//! bytes with `nom`'s binary parsers and returns the unread rest beside
//! each value.

use crate::ascii::{
    all_digits, decimal_digits, decimal_value, is_digit, lemma_decimal_digits, read_decimal,
    write_decimal,
};
use crate::store::{after_load, pairs_of, Store};
use crate::text::{lemma_ascii_is_utf8, lemma_str_bytes, str_from_utf8, str_or_null, text_or_null};
use vstd::prelude::*;
use vstd::utf8::{decode_utf8, encode_utf8, is_ascii_chars_encode_utf8};

verus! {

/// The opcode that selects the database; the size hints follow it.
pub const SELECTOR: u8 = 0xFB;

/// The tag of a value stored as a plain string, the only one supported.
pub const STRING_VALUE: u8 = 0;

/// Why bytes are no snapshot.
#[derive(Debug, PartialEq, Eq, Copy, Clone)]
pub enum SnapshotError {
    /// The first nine bytes are not `REDIS` and four digits.
    BadHeader,
    /// The bytes end before the selector, or inside a length, a string or a
    /// number.
    Truncated,
    /// A pair starts with a tag other than that of a plain string.
    UnsupportedValueType(u8),
    /// A packed integer names a width other than one, two or four bytes.
    UnsupportedIntWidth,
    /// Where a length stands, the top two bits of its first byte are `10`
    /// or `11`.
    UnsupportedLengthForm,
}

/// A decoded string: a view into the snapshot, or text made from a packed
/// integer.
pub enum OwnedOrBorrowed<'a> {
    Owned(String),
    Borrowed(&'a str),
}

impl<'a> View for OwnedOrBorrowed<'a> {
    type V = Seq<char>;

    open spec fn view(&self) -> Seq<char> {
        match *self {
            OwnedOrBorrowed::Owned(s) => s@,
            OwnedOrBorrowed::Borrowed(s) => s@,
        }
    }
}

impl<'a> OwnedOrBorrowed<'a> {
    /// The text, whichever way it is held.
    pub fn as_str(&self) -> (r: &str)
        ensures
            r@ == self@,
    {
        match self {
            OwnedOrBorrowed::Owned(s) => s.as_str(),
            OwnedOrBorrowed::Borrowed(s) => s,
        }
    }
}

/// The first five bytes of a snapshot.
pub open spec fn magic() -> Seq<u8> {
    encode_utf8("REDIS"@)
}

/// The header: `REDIS`, then exactly four ASCII digits, the version in
/// decimal. Gives the version; the header takes nine bytes.
pub open spec fn decode_header(s: Seq<u8>) -> Result<(nat, int), SnapshotError> {
    if s.len() >= 9 && s.take(5) == magic() && all_digits(s.subrange(5, 9)) {
        Ok((decimal_value(s.subrange(5, 9)), 9))
    } else {
        Err(SnapshotError::BadHeader)
    }
}

/// A length. The top two bits of the first byte give the form: `00`, the
/// other six bits are the length; `01`, they are the high bits of a length
/// of fourteen bits whose low eight bits are the next byte.
pub open spec fn decode_length(s: Seq<u8>) -> Result<(nat, int), SnapshotError> {
    if s.len() == 0 {
        Err(SnapshotError::Truncated)
    } else if s[0] / 64 == 0 {
        Ok(((s[0] % 64) as nat, 1))
    } else if s[0] / 64 == 1 {
        if s.len() < 2 {
            Err(SnapshotError::Truncated)
        } else {
            Ok((((s[0] % 64) * 256 + s[1]) as nat, 2))
        }
    } else {
        Err(SnapshotError::UnsupportedLengthForm)
    }
}

/// A length-encoded string: a length, then that many bytes.
pub open spec fn decode_blob(s: Seq<u8>) -> Result<(Seq<u8>, int), SnapshotError> {
    match decode_length(s) {
        Err(e) => Err(e),
        Ok((len, k)) => if s.len() - k < len {
            Err(SnapshotError::Truncated)
        } else {
            Ok((s.subrange(k, k + len), k + len))
        },
    }
}

/// The number that `s` holds as a big-endian unsigned integer.
pub open spec fn big_endian(s: Seq<u8>) -> nat
    decreases s.len(),
{
    if s.len() == 0 {
        0
    } else {
        256 * big_endian(s.drop_last()) + s.last() as nat
    }
}

/// A packed integer: a first byte whose top two bits are `11` and whose
/// other six bits give the width (`0`: one byte, `1`: two bytes, `2`: four
/// bytes), then the number, big-endian.
pub open spec fn decode_packed(s: Seq<u8>) -> Result<(nat, int), SnapshotError> {
    let width: int = if s[0] % 64 == 0 {
        1
    } else if s[0] % 64 == 1 {
        2
    } else if s[0] % 64 == 2 {
        4
    } else {
        0
    };
    if width == 0 {
        Err(SnapshotError::UnsupportedIntWidth)
    } else if s.len() < 1 + width {
        Err(SnapshotError::Truncated)
    } else {
        Ok((big_endian(s.subrange(1, 1 + width)), 1 + width))
    }
}

/// A value: a packed integer, which reads as its decimal numeral, or a
/// length-encoded string.
pub open spec fn decode_value(s: Seq<u8>) -> Result<(Seq<char>, int), SnapshotError> {
    if s.len() == 0 {
        Err(SnapshotError::Truncated)
    } else if s[0] / 64 == 3 {
        match decode_packed(s) {
            Err(e) => Err(e),
            Ok((n, k)) => Ok((decode_utf8(decimal_digits(n)), k)),
        }
    } else {
        match decode_blob(s) {
            Err(e) => Err(e),
            Ok((bytes, k)) => Ok((text_or_null(bytes), k)),
        }
    }
}

/// A pair: the tag of a plain string value, the key as a length-encoded
/// string, the value.
pub open spec fn decode_pair(s: Seq<u8>) -> Result<((Seq<char>, Seq<char>), int), SnapshotError> {
    if s.len() == 0 {
        Err(SnapshotError::Truncated)
    } else if s[0] != STRING_VALUE {
        Err(SnapshotError::UnsupportedValueType(s[0]))
    } else {
        match decode_blob(s.skip(1)) {
            Err(e) => Err(e),
            Ok((key, k)) => match decode_value(s.skip(1 + k)) {
                Err(e) => Err(e),
                Ok((value, m)) => Ok(((text_or_null(key), value), 1 + k + m)),
            },
        }
    }
}

/// The number of bytes before the first selector in `s`, or the length of
/// `s` where it holds none.
pub open spec fn selector_offset(s: Seq<u8>) -> nat
    decreases s.len(),
{
    if s.len() > 0 && s[0] != SELECTOR {
        1 + selector_offset(s.drop_first())
    } else {
        0
    }
}

/// The size hints: whatever comes before the first selector is skipped;
/// after the selector stand two lengths, the number of keys and the number
/// of keys that expire.
pub open spec fn decode_sizes(s: Seq<u8>) -> Result<((nat, nat), int), SnapshotError> {
    let n = selector_offset(s) as int;
    if n == s.len() {
        Err(SnapshotError::Truncated)
    } else {
        match decode_length(s.skip(n + 1)) {
            Err(e) => Err(e),
            Ok((keys, k)) => match decode_length(s.skip(n + 1 + k)) {
                Err(e) => Err(e),
                Ok((expires, m)) => Ok(((keys, expires), n + 1 + k + m)),
            },
        }
    }
}

/// `n` pairs one after the other, in order; the first pair that fails gives
/// its error.
pub open spec fn decode_pairs(s: Seq<u8>, n: nat) -> Result<
    (Seq<(Seq<char>, Seq<char>)>, int),
    SnapshotError,
>
    decreases n,
{
    if n == 0 {
        Ok((Seq::empty(), 0))
    } else {
        match decode_pairs(s, (n - 1) as nat) {
            Err(e) => Err(e),
            Ok((pairs, k)) => match decode_pair(s.skip(k)) {
                Err(e) => Err(e),
                Ok((pair, m)) => Ok((pairs.push(pair), k + m)),
            },
        }
    }
}

/// A snapshot: the header, the size hints, and as many pairs as the first
/// hint says. What follows the last pair is not read.
pub open spec fn decode_snapshot(s: Seq<u8>) -> Result<Seq<(Seq<char>, Seq<char>)>, SnapshotError> {
    match decode_header(s) {
        Err(e) => Err(e),
        Ok((_version, h)) => match decode_sizes(s.skip(h)) {
            Err(e) => Err(e),
            Ok((hints, k)) => match decode_pairs(s.skip(h + k), hints.0) {
                Err(e) => Err(e),
                Ok((pairs, _m)) => Ok(pairs),
            },
        },
    }
}

/// Once a pair fails, every longer list fails with the same error.
pub proof fn lemma_decode_pairs_error(s: Seq<u8>, i: nat, n: nat)
    requires
        i <= n,
        decode_pairs(s, i) is Err,
    ensures
        decode_pairs(s, n) == decode_pairs(s, i),
    decreases n,
{
    if i < n {
        lemma_decode_pairs_error(s, i, (n - 1) as nat);
    }
}

/// A run of length `n` is a prefix without selector that stops at one or at
/// the end.
proof fn lemma_selector_offset_is(s: Seq<u8>, n: int)
    requires
        0 <= n <= s.len(),
        forall|i: int| 0 <= i < n ==> #[trigger] s[i] != SELECTOR,
        n == s.len() || s[n] == SELECTOR,
    ensures
        selector_offset(s) == n,
    decreases n,
{
    if n > 0 {
        let t = s.drop_first();
        assert forall|i: int| 0 <= i < n - 1 implies #[trigger] t[i] != SELECTOR by {
            assert(t[i] == s[i + 1]);
        }
        lemma_selector_offset_is(t, n - 1);
    }
}

/// One byte.
///
/// Trusted: calls `nom::number::complete::be_u8` on a byte slice. It fails
/// on an empty slice; else it gives the first byte and the slice after it.
#[verifier::external_body]
fn be_u8<'a>(input: &'a [u8]) -> (r: Option<(&'a [u8], u8)>)
    ensures
        match r {
            Some((rest, v)) => input@.len() >= 1 && rest@ == input@.skip(1) && v == input@[0],
            None => input@.len() < 1,
        },
{
    nom::number::complete::be_u8::<&[u8], nom::error::Error<&[u8]>>(input).ok()
}

/// Two bytes as a big-endian number.
///
/// Trusted: calls `nom::number::complete::be_u16` on a byte slice. It
/// fails on fewer than two bytes; else it gives the first byte times 256
/// plus the second, and the slice after them.
#[verifier::external_body]
fn be_u16<'a>(input: &'a [u8]) -> (r: Option<(&'a [u8], u16)>)
    ensures
        match r {
            Some((rest, v)) => input@.len() >= 2 && rest@ == input@.skip(2) && v == input@[0]
                * 256 + input@[1],
            None => input@.len() < 2,
        },
{
    nom::number::complete::be_u16::<&[u8], nom::error::Error<&[u8]>>(input).ok()
}

/// Four bytes as a big-endian number.
///
/// Trusted: calls `nom::number::complete::be_u32` on a byte slice. It
/// fails on fewer than four bytes; else it gives the number whose digits
/// in base 256 are the first four bytes, most significant first, and the
/// slice after them.
#[verifier::external_body]
fn be_u32<'a>(input: &'a [u8]) -> (r: Option<(&'a [u8], u32)>)
    ensures
        match r {
            Some((rest, v)) => input@.len() >= 4 && rest@ == input@.skip(4) && v == ((input@[0]
                * 256 + input@[1]) * 256 + input@[2]) * 256 + input@[3],
            None => input@.len() < 4,
        },
{
    nom::number::complete::be_u32::<&[u8], nom::error::Error<&[u8]>>(input).ok()
}

/// The first `count` bytes.
///
/// Trusted: calls `nom::bytes::complete::take` on a byte slice. It fails
/// where the slice is shorter than `count`; else it splits the slice at
/// `count` and gives the part after it and the part before it.
#[verifier::external_body]
fn take<'a>(count: usize, input: &'a [u8]) -> (r: Option<(&'a [u8], &'a [u8])>)
    ensures
        match r {
            Some((rest, taken)) => input@.len() >= count && rest@ == input@.skip(count as int)
                && taken@ == input@.take(count as int),
            None => input@.len() < count,
        },
{
    nom::bytes::complete::take::<usize, &[u8], nom::error::Error<&[u8]>>(count)(input).ok()
}

/// The bytes of `pattern` at the start of `input`.
///
/// Trusted: calls `nom::bytes::complete::tag` on byte slices. It succeeds
/// exactly where `input` starts with `pattern`, and then gives the part of
/// `input` after the pattern and the part that matched.
#[verifier::external_body]
fn tag<'a>(pattern: &[u8], input: &'a [u8]) -> (r: Option<(&'a [u8], &'a [u8])>)
    ensures
        match r {
            Some((rest, found)) => input@.len() >= pattern@.len() && input@.take(
                pattern@.len() as int,
            ) == pattern@ && rest@ == input@.skip(pattern@.len() as int) && found@ == pattern@,
            None => !(input@.len() >= pattern@.len() && input@.take(pattern@.len() as int)
                == pattern@),
        },
{
    nom::bytes::complete::tag::<&[u8], &[u8], nom::error::Error<&[u8]>>(pattern)(input).ok()
}

/// Whether the bytes of `b` are all ASCII digits.
fn only_digits(b: &[u8]) -> (r: bool)
    ensures
        r == all_digits(b@),
{
    let mut i: usize = 0;
    while i < b.len()
        invariant
            0 <= i <= b@.len(),
            forall|j: int| 0 <= j < i ==> is_digit(#[trigger] b@[j]),
        decreases b@.len() - i,
    {
        if b[i] < 48 || b[i] > 57 {
            return false;
        }
        i = i + 1;
    }
    true
}

/// Decodes the header at the start of `input`. Returns the unread rest and
/// the version.
pub fn parse_rdb_header<'a>(input: &'a [u8]) -> (r: Result<(&'a [u8], u32), SnapshotError>)
    ensures
        match decode_header(input@) {
            Ok((version, k)) => r matches Ok((rest, v)) && v == version && rest@ == input@.skip(k)
                && 0 <= k <= input@.len(),
            Err(e) => r matches Err(x) && x == e,
        },
{
    proof {
        reveal_strlit("REDIS");
        is_ascii_chars_encode_utf8("REDIS"@);
    }
    let (rest, _found) = match tag("REDIS".as_bytes(), input) {
        None => {
            return Err(SnapshotError::BadHeader);
        },
        Some(found) => found,
    };
    let (rest, digits) = match take(4, rest) {
        None => {
            return Err(SnapshotError::BadHeader);
        },
        Some(found) => found,
    };
    proof {
        assert(digits@ =~= input@.subrange(5, 9));
        assert(rest@ =~= input@.skip(9));
    }
    if !only_digits(digits) {
        return Err(SnapshotError::BadHeader);
    }
    proof {
        assert(digits@.subrange(0, 4) =~= digits@);
    }
    match read_decimal(digits, 0, 4, 0xffff_ffff) {
        None => {
            proof {
                lemma_four_digits(digits@);
            }
            Err(SnapshotError::BadHeader)
        },
        Some(version) => Ok((rest, version as u32)),
    }
}

/// Four digits write a number under ten thousand.
proof fn lemma_four_digits(s: Seq<u8>)
    requires
        s.len() == 4,
        all_digits(s),
    ensures
        decimal_value(s) <= 9999,
{
    let s3 = s.drop_last();
    let s2 = s3.drop_last();
    let s1 = s2.drop_last();
    let s0 = s1.drop_last();
    assert(s0.len() == 0);
    assert(s1.last() == s[0] && s2.last() == s[1] && s3.last() == s[2] && s.last() == s[3]);
    assert(decimal_value(s0) == 0);
    assert(decimal_value(s1) <= 9);
    assert(decimal_value(s2) <= 99);
    assert(decimal_value(s3) <= 999);
}

/// Decodes a length at the start of `input`. Returns the unread rest and
/// the length.
pub fn parse_length<'a>(input: &'a [u8]) -> (r: Result<(&'a [u8], usize), SnapshotError>)
    ensures
        match decode_length(input@) {
            Ok((len, k)) => r matches Ok((rest, n)) && n == len && rest@ == input@.skip(k) && 0
                <= k <= input@.len(),
            Err(e) => r matches Err(x) && x == e,
        },
{
    let (rest, first) = match be_u8(input) {
        None => {
            return Err(SnapshotError::Truncated);
        },
        Some(found) => found,
    };
    let form: u8 = first / 64;
    if form == 0 {
        Ok((rest, (first % 64) as usize))
    } else if form == 1 {
        let (rest, second) = match be_u8(rest) {
            None => {
                return Err(SnapshotError::Truncated);
            },
            Some(found) => found,
        };
        proof {
            assert(rest@ =~= input@.skip(2));
        }
        Ok((rest, (first % 64) as usize * 256 + second as usize))
    } else {
        Err(SnapshotError::UnsupportedLengthForm)
    }
}

/// Decodes a length-encoded string at the start of `input`. Returns the
/// unread rest and the bytes of the string.
pub fn parse_blob<'a>(input: &'a [u8]) -> (r: Result<(&'a [u8], &'a [u8]), SnapshotError>)
    ensures
        match decode_blob(input@) {
            Ok((bytes, k)) => r matches Ok((rest, out)) && out@ == bytes && rest@ == input@.skip(k)
                && 0 <= k <= input@.len(),
            Err(e) => r matches Err(x) && x == e,
        },
{
    let (rest, len) = match parse_length(input) {
        Err(e) => {
            return Err(e);
        },
        Ok(found) => found,
    };
    match take(len, rest) {
        None => Err(SnapshotError::Truncated),
        Some((after, bytes)) => {
            proof {
                let k = decode_length(input@)->Ok_0.1;
                assert(bytes@ =~= input@.subrange(k, k + len));
                assert(after@ =~= input@.skip(k + len));
            }
            Ok((after, bytes))
        },
    }
}

/// Decodes the size hints: skips to the first selector and reads the two
/// lengths after it. Returns the unread rest and the hints.
pub fn parse_resize_db<'a>(input: &'a [u8]) -> (r: Result<
    (&'a [u8], (usize, usize)),
    SnapshotError,
>)
    ensures
        match decode_sizes(input@) {
            Ok((hints, k)) => r matches Ok((rest, found)) && found.0 == hints.0 && found.1
                == hints.1 && rest@ == input@.skip(k) && 0 <= k <= input@.len(),
            Err(e) => r matches Err(x) && x == e,
        },
{
    let mut n: usize = 0;
    while n < input.len() && input[n] != SELECTOR
        invariant
            0 <= n <= input@.len(),
            forall|i: int| 0 <= i < n ==> #[trigger] input@[i] != SELECTOR,
        decreases input@.len() - n,
    {
        n = n + 1;
    }
    proof {
        lemma_selector_offset_is(input@, n as int);
    }
    if n == input.len() {
        return Err(SnapshotError::Truncated);
    }
    let rest: &[u8] = match take(n + 1, input) {
        None => {
            return Err(SnapshotError::Truncated);
        },
        Some((rest, _skipped)) => rest,
    };
    let (rest, hash_size) = match parse_length(rest) {
        Err(e) => {
            return Err(e);
        },
        Ok(found) => found,
    };
    let ghost k = decode_length(input@.skip(n + 1))->Ok_0.1;
    proof {
        assert(rest@ =~= input@.skip(n + 1 + k));
    }
    let (rest, expire_size) = match parse_length(rest) {
        Err(e) => {
            return Err(e);
        },
        Ok(found) => found,
    };
    proof {
        let m = decode_length(input@.skip(n + 1 + k))->Ok_0.1;
        assert(rest@ =~= input@.skip(n + 1 + k + m));
    }
    Ok((rest, (hash_size, expire_size)))
}

/// The decimal numeral of `n` as text.
fn numeral(n: u64) -> (r: String)
    ensures
        r@ == decode_utf8(decimal_digits(n as nat)),
{
    let mut digits: Vec<u8> = Vec::new();
    write_decimal(n, &mut digits);
    proof {
        lemma_decimal_digits(n as nat);
        assert(digits@ =~= decimal_digits(n as nat));
        assert forall|i: int| 0 <= i < digits@.len() implies #[trigger] digits@[i] < 128 by {
            assert(is_digit(digits@[i]));
        }
        lemma_ascii_is_utf8(digits@);
    }
    match str_from_utf8(digits.as_slice()) {
        Some(s) => {
            proof {
                lemma_str_bytes(s@);
            }
            s.to_owned()
        },
        None => String::new(),
    }
}

/// Decodes a packed integer at the start of `input`, whose first byte has
/// its top two bits set. Returns the unread rest and the number.
fn parse_packed<'a>(input: &'a [u8]) -> (r: Result<(&'a [u8], u64), SnapshotError>)
    requires
        input@.len() > 0,
    ensures
        match decode_packed(input@) {
            Ok((n, k)) => r matches Ok((rest, v)) && v == n && rest@ == input@.skip(k) && 0 <= k
                <= input@.len(),
            Err(e) => r matches Err(x) && x == e,
        },
{
    let (rest, first) = match be_u8(input) {
        None => {
            return Err(SnapshotError::Truncated);
        },
        Some(found) => found,
    };
    let width: u8 = first % 64;
    if width == 0 {
        match be_u8(rest) {
            None => Err(SnapshotError::Truncated),
            Some((after, v)) => {
                proof {
                    assert(after@ =~= input@.skip(2));
                    lemma_big_endian(input@.subrange(1, 2));
                }
                Ok((after, v as u64))
            },
        }
    } else if width == 1 {
        match be_u16(rest) {
            None => Err(SnapshotError::Truncated),
            Some((after, v)) => {
                proof {
                    assert(after@ =~= input@.skip(3));
                    lemma_big_endian(input@.subrange(1, 3));
                }
                Ok((after, v as u64))
            },
        }
    } else if width == 2 {
        match be_u32(rest) {
            None => Err(SnapshotError::Truncated),
            Some((after, v)) => {
                proof {
                    assert(after@ =~= input@.skip(5));
                    lemma_big_endian(input@.subrange(1, 5));
                }
                Ok((after, v as u64))
            },
        }
    } else {
        Err(SnapshotError::UnsupportedIntWidth)
    }
}

/// The big-endian number of one, two and four bytes, written out.
proof fn lemma_big_endian(s: Seq<u8>)
    ensures
        s.len() == 1 ==> big_endian(s) == s[0],
        s.len() == 2 ==> big_endian(s) == s[0] * 256 + s[1],
        s.len() == 4 ==> big_endian(s) == ((s[0] * 256 + s[1]) * 256 + s[2]) * 256 + s[3],
{
    reveal_with_fuel(big_endian, 5);
    if s.len() == 1 {
        assert(s.drop_last().len() == 0);
    } else if s.len() == 2 {
        let s1 = s.drop_last();
        assert(s1.last() == s[0]);
        assert(s1.drop_last().len() == 0);
    } else if s.len() == 4 {
        let s3 = s.drop_last();
        let s2 = s3.drop_last();
        let s1 = s2.drop_last();
        assert(s3.last() == s[2] && s2.last() == s[1] && s1.last() == s[0]);
        assert(s1.drop_last().len() == 0);
    }
}

/// Decodes a value at the start of `input`. Returns the unread rest and
/// the text.
pub fn parse_value<'a>(input: &'a [u8]) -> (r: Result<
    (&'a [u8], OwnedOrBorrowed<'a>),
    SnapshotError,
>)
    ensures
        match decode_value(input@) {
            Ok((text, k)) => r matches Ok((rest, out)) && out@ == text && rest@ == input@.skip(k)
                && 0 <= k <= input@.len(),
            Err(e) => r matches Err(x) && x == e,
        },
{
    if input.len() == 0 {
        return Err(SnapshotError::Truncated);
    }
    if input[0] / 64 == 3 {
        match parse_packed(input) {
            Err(e) => Err(e),
            Ok((rest, n)) => Ok((rest, OwnedOrBorrowed::Owned(numeral(n)))),
        }
    } else {
        match parse_blob(input) {
            Err(e) => Err(e),
            Ok((rest, bytes)) => Ok((rest, OwnedOrBorrowed::Borrowed(str_or_null(bytes)))),
        }
    }
}

/// Decodes a pair at the start of `input`. Returns the unread rest, the
/// key and the value.
pub fn parse_key_value_pair<'a>(input: &'a [u8]) -> (r: Result<
    (&'a [u8], (&'a str, OwnedOrBorrowed<'a>)),
    SnapshotError,
>)
    ensures
        match decode_pair(input@) {
            Ok((pair, k)) => r matches Ok((rest, out)) && out.0@ == pair.0 && out.1@ == pair.1
                && rest@ == input@.skip(k) && 0 <= k <= input@.len(),
            Err(e) => r matches Err(x) && x == e,
        },
{
    let (rest, value_type) = match be_u8(input) {
        None => {
            return Err(SnapshotError::Truncated);
        },
        Some(found) => found,
    };
    if value_type != STRING_VALUE {
        return Err(SnapshotError::UnsupportedValueType(value_type));
    }
    let (rest, key_bytes) = match parse_blob(rest) {
        Err(e) => {
            return Err(e);
        },
        Ok(found) => found,
    };
    let ghost k = decode_blob(input@.skip(1))->Ok_0.1;
    proof {
        assert(rest@ =~= input@.skip(1 + k));
    }
    let key: &str = str_or_null(key_bytes);
    let (rest, value) = match parse_value(rest) {
        Err(e) => {
            return Err(e);
        },
        Ok(found) => found,
    };
    proof {
        let m = decode_value(input@.skip(1 + k))->Ok_0.1;
        assert(rest@ =~= input@.skip(1 + k + m));
    }
    Ok((rest, (key, value)))
}

/// Decodes a snapshot. Returns its pairs in order.
pub fn parse_snapshot(bytes: &[u8]) -> (r: Result<Vec<(String, String)>, SnapshotError>)
    ensures
        match decode_snapshot(bytes@) {
            Ok(pairs) => r matches Ok(out) && pairs_of(out@) == pairs,
            Err(e) => r matches Err(x) && x == e,
        },
{
    let (rest, _version) = match parse_rdb_header(bytes) {
        Err(e) => {
            return Err(e);
        },
        Ok(found) => found,
    };
    let (body, sizes) = match parse_resize_db(rest) {
        Err(e) => {
            return Err(e);
        },
        Ok(found) => found,
    };
    let hash_size: usize = sizes.0;
    let ghost k = decode_sizes(bytes@.skip(9))->Ok_0.1;
    proof {
        assert(body@ =~= bytes@.skip(9 + k));
    }
    let mut out: Vec<(String, String)> = Vec::new();
    let mut rest_of_bytes: &[u8] = body;
    let mut i: usize = 0;
    let ghost mut used: int = 0;
    proof {
        assert(pairs_of(out@) =~= Seq::<(Seq<char>, Seq<char>)>::empty());
        assert(body@.skip(0) =~= body@);
    }
    while i < hash_size
        invariant
            0 <= i <= hash_size,
            decode_header(bytes@) is Ok,
            decode_sizes(bytes@.skip(9)) matches Ok((hints, n)) && hints.0 == hash_size && n == k,
            body@ == bytes@.skip(9 + k),
            0 <= used <= body@.len(),
            rest_of_bytes@ == body@.skip(used),
            decode_pairs(body@, i as nat) == Ok::<
                (Seq<(Seq<char>, Seq<char>)>, int),
                SnapshotError,
            >((pairs_of(out@), used)),
        decreases hash_size - i,
    {
        match parse_key_value_pair(rest_of_bytes) {
            Err(e) => {
                proof {
                    assert(decode_pairs(body@, (i + 1) as nat) == Err::<
                        (Seq<(Seq<char>, Seq<char>)>, int),
                        SnapshotError,
                    >(e));
                    lemma_decode_pairs_error(body@, (i + 1) as nat, hash_size as nat);
                }
                return Err(e);
            },
            Ok((rest, (key, value))) => {
                let pair: (String, String) = (key.to_owned(), value.as_str().to_owned());
                proof {
                    assert(pairs_of(out@.push(pair)) =~= pairs_of(
                        out@,
                    ).push((key@, value@)));
                    let m = decode_pair(body@.skip(used))->Ok_0.1;
                    assert(rest@ =~= body@.skip(used + m));
                    used = used + m;
                }
                out.push(pair);
                rest_of_bytes = rest;
                i = i + 1;
            },
        }
    }
    Ok(out)
}

/// Loads a snapshot into the store: decodes every pair first, then sets
/// them in order, none with a deadline. Where the snapshot fails to decode,
/// the store is left as it was.
pub fn load_from_rdb(bytes: &[u8], state: &mut Store) -> (r: Result<(), SnapshotError>)
    ensures
        match decode_snapshot(bytes@) {
            Ok(pairs) => r is Ok && final(state)@ == after_load(old(state)@, pairs),
            Err(e) => r matches Err(x) && x == e && final(state)@ == old(state)@,
        },
{
    match parse_snapshot(bytes) {
        Err(e) => Err(e),
        Ok(pairs) => {
            state.load(pairs);
            Ok(())
        },
    }
}

} // verus!
