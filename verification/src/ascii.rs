//! ASCII classes and decimal numerals over byte sequences.

use vstd::prelude::*;

verus! {

/// Carriage return, the first byte of a line end.
pub const CR: u8 = 13;

/// Line feed, the second byte of a line end.
pub const LF: u8 = 10;

/// The sign `+`.
pub const PLUS: u8 = 43;

/// The sign `-`.
pub const MINUS: u8 = 45;

/// `b` is one of the ASCII digits `0` to `9`.
pub open spec fn is_digit(b: u8) -> bool {
    48 <= b <= 57
}

/// `b` is an ASCII letter, upper or lower case.
pub open spec fn is_letter(b: u8) -> bool {
    (65 <= b <= 90) || (97 <= b <= 122)
}

/// `b` with an upper-case ASCII letter replaced by its lower-case form.
pub open spec fn fold_case(b: u8) -> u8 {
    if 65 <= b <= 90 {
        (b + 32) as u8
    } else {
        b
    }
}

/// Two byte strings are equal up to the case of their ASCII letters.
pub open spec fn eq_ignore_case(a: Seq<u8>, b: Seq<u8>) -> bool {
    &&& a.len() == b.len()
    &&& forall|i: int| 0 <= i < a.len() ==> fold_case(#[trigger] a[i]) == fold_case(b[i])
}

/// Every byte of `s` is an ASCII digit.
pub open spec fn all_digits(s: Seq<u8>) -> bool {
    forall|i: int| 0 <= i < s.len() ==> is_digit(#[trigger] s[i])
}

/// Every byte of `s` is an ASCII letter.
pub open spec fn all_letters(s: Seq<u8>) -> bool {
    forall|i: int| 0 <= i < s.len() ==> is_letter(#[trigger] s[i])
}

/// The length of the longest prefix of `s` made of ASCII digits.
pub open spec fn digit_run(s: Seq<u8>) -> nat
    decreases s.len(),
{
    if s.len() > 0 && is_digit(s[0]) {
        1 + digit_run(s.drop_first())
    } else {
        0
    }
}

/// The length of the longest prefix of `s` made of ASCII letters.
pub open spec fn letter_run(s: Seq<u8>) -> nat
    decreases s.len(),
{
    if s.len() > 0 && is_letter(s[0]) {
        1 + letter_run(s.drop_first())
    } else {
        0
    }
}

/// The number that the digits of `s` write in base ten, most significant
/// digit first. The empty string stands for zero.
pub open spec fn decimal_value(s: Seq<u8>) -> nat
    decreases s.len(),
{
    if s.len() == 0 {
        0
    } else {
        10 * decimal_value(s.drop_last()) + (s.last() - 48) as nat
    }
}

/// The shortest base-ten numeral of `n`: no leading zero, except for zero
/// itself, which is written `0`.
pub open spec fn decimal_digits(n: nat) -> Seq<u8>
    decreases n,
{
    if n < 10 {
        seq![(48 + n) as u8]
    } else {
        decimal_digits(n / 10).push((48 + n % 10) as u8)
    }
}

/// A run of length `n` is a prefix of digits that cannot be extended.
pub proof fn lemma_digit_run_is(s: Seq<u8>, n: int)
    requires
        0 <= n <= s.len(),
        forall|i: int| 0 <= i < n ==> is_digit(#[trigger] s[i]),
        n == s.len() || !is_digit(s[n]),
    ensures
        digit_run(s) == n,
    decreases n,
{
    if n > 0 {
        let t = s.drop_first();
        assert forall|i: int| 0 <= i < n - 1 implies is_digit(#[trigger] t[i]) by {
            assert(t[i] == s[i + 1]);
        }
        lemma_digit_run_is(t, n - 1);
    }
}

/// The digit run of `s` lies inside `s`, holds digits only, and stops at
/// the end of `s` or at a byte that is no digit.
pub proof fn lemma_digit_run_props(s: Seq<u8>)
    ensures
        digit_run(s) <= s.len(),
        all_digits(s.take(digit_run(s) as int)),
        digit_run(s) == s.len() || !is_digit(s[digit_run(s) as int]),
    decreases s.len(),
{
    if s.len() > 0 && is_digit(s[0]) {
        let t = s.drop_first();
        lemma_digit_run_props(t);
        let n = digit_run(s) as int;
        assert forall|i: int| 0 <= i < n implies is_digit(#[trigger] s.take(n)[i]) by {
            if i > 0 {
                assert(s.take(n)[i] == t.take(n - 1)[i - 1]);
            }
        }
        if n < s.len() {
            assert(s[n] == t[n - 1]);
        }
    }
}

/// A run of length `n` is a prefix of letters that cannot be extended.
pub proof fn lemma_letter_run_is(s: Seq<u8>, n: int)
    requires
        0 <= n <= s.len(),
        forall|i: int| 0 <= i < n ==> is_letter(#[trigger] s[i]),
        n == s.len() || !is_letter(s[n]),
    ensures
        letter_run(s) == n,
    decreases n,
{
    if n > 0 {
        let t = s.drop_first();
        assert forall|i: int| 0 <= i < n - 1 implies is_letter(#[trigger] t[i]) by {
            assert(t[i] == s[i + 1]);
        }
        lemma_letter_run_is(t, n - 1);
    }
}

/// A numeral's value is at least the value of each of its prefixes.
pub proof fn lemma_decimal_value_prefix(s: Seq<u8>, k: int)
    requires
        0 <= k <= s.len(),
        all_digits(s),
    ensures
        decimal_value(s.take(k)) <= decimal_value(s),
    decreases s.len() - k,
{
    if k < s.len() {
        let t = s.take(k + 1);
        assert(t.drop_last() =~= s.take(k));
        assert(t.last() == s[k]);
        lemma_decimal_value_prefix(s, k + 1);
    } else {
        assert(s.take(k) =~= s);
    }
}

/// The numeral of `n` is made of digits, is not empty, and writes `n`.
pub proof fn lemma_decimal_digits(n: nat)
    ensures
        decimal_digits(n).len() >= 1,
        all_digits(decimal_digits(n)),
        decimal_value(decimal_digits(n)) == n,
    decreases n,
{
    if n < 10 {
        let s = decimal_digits(n);
        assert(s.drop_last() =~= Seq::<u8>::empty());
        assert(decimal_value(s.drop_last()) == 0);
    } else {
        lemma_decimal_digits(n / 10);
        let s = decimal_digits(n);
        let p = decimal_digits(n / 10);
        assert(s.drop_last() =~= p);
        assert(s.last() == (48 + n % 10) as u8);
    }
}

/// The length of the digit run at `from` in `b`.
pub(crate) fn count_digits(b: &[u8], from: usize) -> (n: usize)
    requires
        from <= b@.len(),
    ensures
        n == digit_run(b@.skip(from as int)),
        from + n <= b@.len() <= usize::MAX,
{
    let mut i: usize = from;
    while i < b.len() && b[i] >= 48 && b[i] <= 57
        invariant
            from <= i <= b@.len(),
            forall|j: int| from <= j < i ==> is_digit(#[trigger] b@[j]),
        decreases b@.len() - i,
    {
        i = i + 1;
    }
    proof {
        let s = b@.skip(from as int);
        assert forall|j: int| 0 <= j < i - from implies is_digit(#[trigger] s[j]) by {
            assert(s[j] == b@[from + j]);
        }
        lemma_digit_run_is(s, i - from);
    }
    i - from
}

/// The length of the letter run at `from` in `b`.
pub(crate) fn count_letters(b: &[u8], from: usize) -> (n: usize)
    requires
        from <= b@.len(),
    ensures
        n == letter_run(b@.skip(from as int)),
        from + n <= b@.len() <= usize::MAX,
{
    let mut i: usize = from;
    while i < b.len() && ((b[i] >= 65 && b[i] <= 90) || (b[i] >= 97 && b[i] <= 122))
        invariant
            from <= i <= b@.len(),
            forall|j: int| from <= j < i ==> is_letter(#[trigger] b@[j]),
        decreases b@.len() - i,
    {
        i = i + 1;
    }
    proof {
        let s = b@.skip(from as int);
        assert forall|j: int| 0 <= j < i - from implies is_letter(#[trigger] s[j]) by {
            assert(s[j] == b@[from + j]);
        }
        lemma_letter_run_is(s, i - from);
    }
    i - from
}

/// Reads the numeral `b[from..to]`, which holds digits only. Returns its
/// value where that is at most `limit`, and `None` where it is larger.
pub(crate) fn read_decimal(b: &[u8], from: usize, to: usize, limit: u64) -> (r: Option<u64>)
    requires
        from <= to <= b@.len(),
        all_digits(b@.subrange(from as int, to as int)),
    ensures
        r == (if decimal_value(b@.subrange(from as int, to as int)) <= limit {
            Some(decimal_value(b@.subrange(from as int, to as int)) as u64)
        } else {
            None
        }),
{
    let ghost s = b@.subrange(from as int, to as int);
    let mut acc: u64 = 0;
    let mut i: usize = from;
    proof {
        assert(s.take(0) =~= Seq::<u8>::empty());
    }
    while i < to
        invariant
            from <= i <= to <= b@.len(),
            s == b@.subrange(from as int, to as int),
            all_digits(s),
            acc == decimal_value(s.take(i - from)),
            acc <= limit,
        decreases to - i,
    {
        proof {
            let t = s.take(i - from + 1);
            assert(t.drop_last() =~= s.take(i - from));
            assert(t.last() == s[i - from]);
            assert(s[i - from] == b@[i as int]);
            assert(is_digit(s[i - from]));
            lemma_decimal_value_prefix(s, i - from + 1);
        }
        let d: u64 = (b[i] - 48) as u64;
        if limit < d || acc > (limit - d) / 10 {
            return None;
        }
        acc = acc * 10 + d;
        i = i + 1;
    }
    proof {
        assert(s.take(to - from) =~= s);
    }
    Some(acc)
}

/// Appends the base-ten numeral of `n` to `out`.
pub fn write_decimal(n: u64, out: &mut Vec<u8>)
    ensures
        final(out)@ == old(out)@ + decimal_digits(n as nat),
    decreases n,
{
    if n >= 10 {
        write_decimal(n / 10, out);
    }
    let d: u8 = (n % 10) as u8;
    out.push(48 + d);
    assert(out@ =~= old(out)@ + decimal_digits(n as nat));
}

/// The number that `s` writes as an unsigned decimal numeral: an optional
/// `+`, then one or more digits and nothing else. `None` where `s` is no
/// such numeral.
pub open spec fn decode_unsigned(s: Seq<u8>) -> Option<nat> {
    let d = if s.len() > 0 && s[0] == PLUS {
        s.skip(1)
    } else {
        s
    };
    if d.len() > 0 && all_digits(d) {
        Some(decimal_value(d))
    } else {
        None
    }
}

/// The number that `s` writes, where it is an unsigned decimal numeral of at
/// most `u64::MAX`.
pub open spec fn decode_u64(s: Seq<u8>) -> Option<u64> {
    match decode_unsigned(s) {
        Some(v) => if v <= u64::MAX {
            Some(v as u64)
        } else {
            None
        },
        None => None,
    }
}

/// `b` with an upper-case ASCII letter made lower case.
pub fn to_lower(b: u8) -> (r: u8)
    ensures
        r == fold_case(b),
{
    if b >= 65 && b <= 90 {
        b + 32
    } else {
        b
    }
}

/// Whether two byte strings are equal up to the case of ASCII letters.
pub fn bytes_eq_ignore_case(a: &[u8], b: &[u8]) -> (r: bool)
    ensures
        r == eq_ignore_case(a@, b@),
{
    if a.len() != b.len() {
        return false;
    }
    let mut i: usize = 0;
    while i < a.len()
        invariant
            a@.len() == b@.len(),
            0 <= i <= a@.len(),
            forall|j: int| 0 <= j < i ==> fold_case(#[trigger] a@[j]) == fold_case(b@[j]),
        decreases a@.len() - i,
    {
        if to_lower(a[i]) != to_lower(b[i]) {
            return false;
        }
        i = i + 1;
    }
    true
}

/// Reads `b` as an unsigned decimal numeral of at most `u64::MAX`.
pub fn parse_u64(b: &[u8]) -> (r: Option<u64>)
    ensures
        r == decode_u64(b@),
{
    let first: usize = if b.len() > 0 && b[0] == PLUS {
        1
    } else {
        0
    };
    let n: usize = count_digits(b, first);
    proof {
        let d = b@.skip(first as int);
        if first == 0 {
            assert(d =~= b@);
        }
        lemma_digit_run_props(d);
        if first + n == b@.len() {
            assert(d.take(n as int) =~= d);
            assert(d =~= b@.subrange(first as int, first + n));
        } else {
            assert(!is_digit(d[n as int]));
            assert(!all_digits(d));
        }
    }
    if n == 0 || first + n != b.len() {
        return None;
    }
    read_decimal(b, first, first + n, u64::MAX)
}

} // verus!
