//! The encoder and the decoder agree: what the reply encoder writes for a
//! list of bulk strings, a bulk string or a simple line of letters, the
//! request decoder reads back as the same values, whatever bytes follow.

use crate::ascii::{
    all_letters, decimal_digits, is_digit, is_letter, lemma_decimal_digits, lemma_digit_run_is,
    lemma_letter_run_is,
};
use crate::reply::{array_wire, bulk_wire, bulks_wire, crlf, simple_wire};
use crate::resp::{
    decode_bulk, decode_count, decode_element, decode_elements, decode_frame, decode_simple,
    has_crlf, Element, ProtocolError, ARRAY_TAG, BULK_TAG, SIMPLE_TAG,
};
use crate::text::lemma_str_bytes;
use vstd::prelude::*;
use vstd::utf8::encode_utf8;

verus! {

/// The bulk strings that hold the texts of `items`.
pub open spec fn bulks_of(items: Seq<Seq<char>>) -> Seq<Element> {
    Seq::new(items.len(), |i: int| Element::Bulk(items[i]))
}

/// A count written in decimal and ended by `\r\n` reads back as the count.
pub proof fn lemma_count_round_trip(n: nat, rest: Seq<u8>)
    requires
        n <= u32::MAX,
    ensures
        decode_count(decimal_digits(n) + crlf() + rest) == Ok::<(nat, int), ProtocolError>(
            (n, decimal_digits(n).len() as int + 2),
        ),
{
    let digits = decimal_digits(n);
    let s = digits + crlf() + rest;
    let len = digits.len() as int;
    lemma_decimal_digits(n);
    assert forall|i: int| 0 <= i < len implies is_digit(#[trigger] s[i]) by {
        assert(s[i] == digits[i]);
    }
    assert(s[len] == crlf()[0]);
    assert(s[len + 1] == crlf()[1]);
    lemma_digit_run_is(s, len);
    assert(s.take(len) =~= digits);
    assert(has_crlf(s.skip(len)));
}

/// An encoded bulk string reads back as its text, and the decoder stops
/// where the encoding ends.
pub proof fn lemma_bulk_round_trip(text: Seq<char>, rest: Seq<u8>)
    requires
        encode_utf8(text).len() <= u32::MAX,
    ensures
        decode_bulk(bulk_wire(text) + rest) == Ok::<(Seq<u8>, int), ProtocolError>(
            (encode_utf8(text), bulk_wire(text).len() as int),
        ),
        decode_element(bulk_wire(text) + rest) == Ok::<(Element, int), ProtocolError>(
            (Element::Bulk(text), bulk_wire(text).len() as int),
        ),
{
    let bytes = encode_utf8(text);
    let digits = decimal_digits(bytes.len());
    let s = bulk_wire(text) + rest;
    let tail = bytes + crlf() + rest;
    lemma_decimal_digits(bytes.len());
    lemma_count_round_trip(bytes.len(), tail);
    assert(s[0] == BULK_TAG);
    assert(s.skip(1) =~= digits + crlf() + tail);
    let k = digits.len() as int + 2;
    let body = s.skip(1 + k);
    assert(body =~= tail);
    assert(body.take(bytes.len() as int) =~= bytes);
    assert(body.skip(bytes.len() as int) =~= crlf() + rest);
    assert(has_crlf(body.skip(bytes.len() as int)));
    assert(bulk_wire(text).len() == 1 + k + bytes.len() + 2);
    lemma_str_bytes(text);
}

/// An encoded simple line of letters reads back as its text.
pub proof fn lemma_simple_round_trip(text: Seq<char>, rest: Seq<u8>)
    requires
        encode_utf8(text).len() > 0,
        all_letters(encode_utf8(text)),
    ensures
        decode_simple(simple_wire(text) + rest) == Ok::<(Seq<u8>, int), ProtocolError>(
            (encode_utf8(text), simple_wire(text).len() as int),
        ),
        decode_element(simple_wire(text) + rest) == Ok::<(Element, int), ProtocolError>(
            (Element::Simple(text), simple_wire(text).len() as int),
        ),
{
    let bytes = encode_utf8(text);
    let s = simple_wire(text) + rest;
    let len = bytes.len() as int;
    let t = s.skip(1);
    assert(s[0] == SIMPLE_TAG);
    assert(t =~= bytes + crlf() + rest);
    assert forall|i: int| 0 <= i < len implies is_letter(#[trigger] t[i]) by {
        assert(t[i] == bytes[i]);
    }
    assert(t[len] == crlf()[0]);
    assert(t[len + 1] == crlf()[1]);
    lemma_letter_run_is(t, len);
    assert(s.skip(1 + len) =~= crlf() + rest);
    assert(has_crlf(s.skip(1 + len)));
    assert(s.subrange(1, 1 + len) =~= bytes);
    lemma_str_bytes(text);
}

/// Encoded bulk strings, one after the other, read back in order.
pub proof fn lemma_bulks_round_trip(items: Seq<Seq<char>>, rest: Seq<u8>)
    requires
        forall|i: int| 0 <= i < items.len() ==> encode_utf8(#[trigger] items[i]).len() <= u32::MAX,
    ensures
        decode_elements(bulks_wire(items) + rest, items.len()) == Ok::<
            (Seq<Element>, int),
            ProtocolError,
        >((bulks_of(items), bulks_wire(items).len() as int)),
    decreases items.len(),
{
    let s = bulks_wire(items) + rest;
    if items.len() == 0 {
        assert(bulks_of(items) =~= Seq::<Element>::empty());
    } else {
        let head = items.drop_last();
        let last = items.last();
        let tail = bulk_wire(last) + rest;
        assert forall|i: int| 0 <= i < head.len() implies encode_utf8(#[trigger] head[i]).len()
            <= u32::MAX by {
            assert(head[i] == items[i]);
        }
        lemma_bulks_round_trip(head, tail);
        assert(s =~= bulks_wire(head) + tail);
        let k = bulks_wire(head).len() as int;
        assert(s.skip(k) =~= tail);
        assert(items[items.len() - 1] == last);
        lemma_bulk_round_trip(last, rest);
        assert(bulks_of(items) =~= bulks_of(head).push(Element::Bulk(last)));
    }
}

/// An encoded list of bulk strings is a request frame that decodes to the
/// same strings, in order, and ends where the encoding ends.
pub proof fn lemma_array_round_trip(items: Seq<Seq<char>>, rest: Seq<u8>)
    requires
        items.len() <= u32::MAX,
        forall|i: int| 0 <= i < items.len() ==> encode_utf8(#[trigger] items[i]).len() <= u32::MAX,
    ensures
        decode_frame(array_wire(items) + rest) == Ok::<(Seq<Element>, int), ProtocolError>(
            (bulks_of(items), array_wire(items).len() as int),
        ),
{
    let digits = decimal_digits(items.len());
    let s = array_wire(items) + rest;
    let tail = bulks_wire(items) + rest;
    lemma_count_round_trip(items.len(), tail);
    assert(s[0] == ARRAY_TAG);
    assert(s.skip(1) =~= digits + crlf() + tail);
    let k = digits.len() as int + 2;
    assert(s.skip(1 + k) =~= tail);
    lemma_bulks_round_trip(items, rest);
}

} // verus!
