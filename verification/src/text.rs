//! Text held as UTF-8: cutting a `str` at byte offsets, comparing and
//! building strings.

use crate::ascii::{bytes_eq_ignore_case, eq_ignore_case};
use vstd::prelude::*;
use vstd::string::StringSliceAdditionalSpecFns;
use vstd::utf8::*;

verus! {

/// The bytes of a string are valid UTF-8, and decoding them gives the
/// string back.
pub proof fn lemma_str_bytes(chars: Seq<char>)
    ensures
        valid_utf8(encode_utf8(chars)),
        decode_utf8(encode_utf8(chars)) == chars,
{
    encode_utf8_valid_utf8(chars);
    encode_utf8_decode_utf8(chars);
}

/// Two strings with the same bytes are the same string.
pub proof fn lemma_same_bytes(a: Seq<char>, b: Seq<char>)
    requires
        encode_utf8(a) == encode_utf8(b),
    ensures
        a == b,
{
    lemma_str_bytes(a);
    lemma_str_bytes(b);
}

/// In valid UTF-8 an ASCII byte is a character of its own: a character
/// starts at it and another one, or the end, follows it.
pub proof fn lemma_ascii_boundary(bytes: Seq<u8>, i: int)
    requires
        valid_utf8(bytes),
        0 <= i < bytes.len(),
        bytes[i] < 128,
    ensures
        is_char_boundary(bytes, i),
        is_char_boundary(bytes, i + 1),
    decreases bytes.len(),
{
    let n = length_of_first_scalar(bytes);
    let rest = pop_first_scalar(bytes);
    if i < n {
        // a byte under 128 inside the first character is that character
        assert(i == 0 && n == 1);
        assert(is_char_boundary(rest, 0));
    } else {
        assert(rest[i - n] == bytes[i]);
        lemma_ascii_boundary(rest, i - n);
    }
}

/// A character boundary of a string is one of each prefix that reaches it.
pub proof fn lemma_boundary_in_prefix(bytes: Seq<u8>, from: int, to: int)
    requires
        valid_utf8(bytes),
        0 <= from <= to <= bytes.len(),
        is_char_boundary(bytes, from),
        is_char_boundary(bytes, to),
    ensures
        valid_utf8(bytes.subrange(0, to)),
        is_char_boundary(bytes.subrange(0, to), from),
{
    let head = bytes.subrange(0, to);
    valid_utf8_split(bytes, to);
    if from == to {
        is_char_boundary_start_end_of_seq(head);
    } else if from == 0 {
    } else {
        is_char_boundary_iff_not_is_continuation_byte(bytes, from);
        assert(head[from] == bytes[from]);
        is_char_boundary_iff_not_is_continuation_byte(head, from);
    }
}

/// The part of `s` between the byte offsets `from` and `to`, which lie on
/// character boundaries.
pub(crate) fn substr<'a>(s: &'a str, from: usize, to: usize) -> (r: &'a str)
    requires
        from <= to <= s.spec_bytes().len(),
        is_char_boundary(s.spec_bytes(), from as int),
        is_char_boundary(s.spec_bytes(), to as int),
    ensures
        r.spec_bytes() == s.spec_bytes().subrange(from as int, to as int),
        r@ == decode_utf8(s.spec_bytes().subrange(from as int, to as int)),
{
    proof {
        lemma_str_bytes(s@);
        lemma_boundary_in_prefix(s.spec_bytes(), from as int, to as int);
    }
    let (head, _tail) = s.split_at(to);
    let (_lead, mid) = head.split_at(from);
    proof {
        assert(mid.spec_bytes() =~= s.spec_bytes().subrange(from as int, to as int));
        lemma_str_bytes(mid@);
    }
    mid
}

/// Whether two byte strings are equal.
pub fn bytes_eq(a: &[u8], b: &[u8]) -> (r: bool)
    ensures
        r == (a@ == b@),
{
    if a.len() != b.len() {
        return false;
    }
    let mut i: usize = 0;
    while i < a.len()
        invariant
            a@.len() == b@.len(),
            0 <= i <= a@.len(),
            forall|j: int| 0 <= j < i ==> a@[j] == b@[j],
        decreases a@.len() - i,
    {
        if a[i] != b[i] {
            return false;
        }
        i = i + 1;
    }
    proof {
        assert(a@ =~= b@);
    }
    true
}

/// Whether two strings are equal.
pub fn str_eq(a: &str, b: &str) -> (r: bool)
    ensures
        r == (a@ == b@),
{
    let same = bytes_eq(a.as_bytes(), b.as_bytes());
    proof {
        if same {
            lemma_same_bytes(a@, b@);
        }
    }
    same
}

/// The string that `bytes` encode, where they are valid UTF-8.
///
/// Trusted: calls `std::str::from_utf8`, which succeeds exactly on a slice
/// that is valid UTF-8 and then hands the same bytes back as a `str`. The
/// contract says that and no more.
#[verifier::external_body]
pub(crate) fn str_from_utf8<'a>(bytes: &'a [u8]) -> (r: Option<&'a str>)
    ensures
        r is Some <==> valid_utf8(bytes@),
        r matches Some(s) ==> s.spec_bytes() == bytes@,
{
    std::str::from_utf8(bytes).ok()
}

/// `text` is the word `word`, whatever the case of its ASCII letters.
pub open spec fn is_word(text: Seq<char>, word: Seq<char>) -> bool {
    eq_ignore_case(encode_utf8(text), encode_utf8(word))
}

/// Whether `text` is the word `word`, whatever the case of its ASCII
/// letters.
pub fn same_word(text: &str, word: &str) -> (r: bool)
    ensures
        r == is_word(text@, word@),
{
    bytes_eq_ignore_case(text.as_bytes(), word.as_bytes())
}

/// Bytes under 128 are valid UTF-8: each is a character of its own.
pub proof fn lemma_ascii_is_utf8(bytes: Seq<u8>)
    requires
        forall|i: int| 0 <= i < bytes.len() ==> #[trigger] bytes[i] < 128,
    ensures
        valid_utf8(bytes),
{
    assert(bytes.subrange(0, 0) =~= Seq::<u8>::empty());
    assert(valid_utf8(bytes.subrange(0, 0)));
    assert(partial_valid_utf8(bytes, 0));
    assert forall|i: int| 0 <= 0 <= i < bytes.len() <= bytes.len() implies #[trigger] is_leading_byte_width_1(bytes[i]) by {
        assert(bytes[i] < 128);
    }
    partial_valid_utf8_extend_ascii_block(bytes, 0, bytes.len() as int);
    assert(bytes.subrange(0, bytes.len() as int) =~= bytes);
}

/// The text that `bytes` encode where they are valid UTF-8, and the word
/// `NULL` where they are not.
pub open spec fn text_or_null(bytes: Seq<u8>) -> Seq<char> {
    if valid_utf8(bytes) {
        decode_utf8(bytes)
    } else {
        "NULL"@
    }
}

/// Reads `bytes` as text; bytes that are no valid UTF-8 read as `NULL`.
pub fn str_or_null<'a>(bytes: &'a [u8]) -> (r: &'a str)
    ensures
        r@ == text_or_null(bytes@),
{
    match str_from_utf8(bytes) {
        Some(s) => {
            proof {
                lemma_str_bytes(s@);
            }
            s
        },
        None => "NULL",
    }
}

} // verus!
