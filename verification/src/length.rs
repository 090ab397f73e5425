//! The number on the length line: decimal digits, with white space around
//! them that does not count.

use vstd::prelude::*;

use crate::wire::{decimal, DIGIT_0};

verus! {

/// The digit `9`.
pub const DIGIT_9: u8 = 0x39;

/// The sign `+`.
pub const PLUS: u8 = 0x2B;

/// A decimal digit.
pub open spec fn is_digit(b: u8) -> bool {
    DIGIT_0 <= b <= DIGIT_9
}

/// Whether `s` holds decimal digits and nothing else.
pub open spec fn all_digits(s: Seq<u8>) -> bool {
    forall|i: int| 0 <= i < s.len() ==> is_digit(#[trigger] s[i])
}

/// The number that a run of decimal digits denotes.
pub open spec fn digits_value(s: Seq<u8>) -> nat
    decreases s.len(),
{
    if s.len() == 0 {
        0
    } else {
        digits_value(s.drop_last()) * 10 + (s.last() - DIGIT_0) as nat
    }
}

/// A white-space character that UTF-8 encodes in one byte: tab, line feed,
/// vertical tab, form feed, carriage return or space.
pub open spec fn space1(a: u8) -> bool {
    (0x09 <= a <= 0x0D) || a == 0x20
}

/// A white-space character that UTF-8 encodes in two bytes: U+0085 or U+00A0.
pub open spec fn space2(a: u8, b: u8) -> bool {
    a == 0xC2 && (b == 0x85 || b == 0xA0)
}

/// A white-space character that UTF-8 encodes in three bytes: U+1680,
/// U+2000 to U+200A, U+2028, U+2029, U+202F, U+205F or U+3000.
pub open spec fn space3(a: u8, b: u8, c: u8) -> bool {
    ||| a == 0xE1 && b == 0x9A && c == 0x80
    ||| a == 0xE2 && b == 0x80 && ((0x80 <= c <= 0x8A) || c == 0xA8 || c == 0xA9 || c == 0xAF)
    ||| a == 0xE2 && b == 0x81 && c == 0x9F
    ||| a == 0xE3 && b == 0x80 && c == 0x80
}

/// The length of the white-space character that starts `s`, or 0 where `s`
/// starts with none.
pub open spec fn leading_space(s: Seq<u8>) -> int {
    if s.len() >= 1 && space1(s[0]) {
        1
    } else if s.len() >= 2 && space2(s[0], s[1]) {
        2
    } else if s.len() >= 3 && space3(s[0], s[1], s[2]) {
        3
    } else {
        0
    }
}

/// The length of the white-space character that ends `s`, or 0 where `s`
/// ends with none.
pub open spec fn trailing_space(s: Seq<u8>) -> int {
    let n = s.len() as int;
    if n >= 1 && space1(s[n - 1]) {
        1
    } else if n >= 2 && space2(s[n - 2], s[n - 1]) {
        2
    } else if n >= 3 && space3(s[n - 3], s[n - 2], s[n - 1]) {
        3
    } else {
        0
    }
}

/// `s` without the white space at its start.
pub open spec fn trim_start(s: Seq<u8>) -> Seq<u8>
    decreases s.len(),
{
    if leading_space(s) > 0 {
        trim_start(s.skip(leading_space(s)))
    } else {
        s
    }
}

/// `s` without the white space at its end.
pub open spec fn trim_end(s: Seq<u8>) -> Seq<u8>
    decreases s.len(),
{
    if trailing_space(s) > 0 {
        trim_end(s.take(s.len() - trailing_space(s)))
    } else {
        s
    }
}

/// `s` without the white space at either end.
pub open spec fn trim(s: Seq<u8>) -> Seq<u8> {
    trim_end(trim_start(s))
}

/// The number that `s` denotes: an optional `+` and then at least one decimal
/// digit, with a value that fits a `usize`. Anything else denotes none.
pub open spec fn parse_decimal(s: Seq<u8>) -> Option<usize> {
    let d = if s.len() > 0 && s[0] == PLUS {
        s.drop_first()
    } else {
        s
    };
    if d.len() > 0 && all_digits(d) && digits_value(d) <= usize::MAX {
        Some(digits_value(d) as usize)
    } else {
        None
    }
}

/// The body length that the rest of a length line declares: the number left
/// when the white space around it is taken away.
pub open spec fn declared_length(s: Seq<u8>) -> Option<usize> {
    parse_decimal(trim(s))
}

/// A run of digits is worth at least as much as each of its prefixes.
pub proof fn lemma_digits_value_prefix(s: Seq<u8>, k: int)
    requires
        all_digits(s),
        0 <= k <= s.len(),
    ensures
        digits_value(s.take(k)) <= digits_value(s),
    decreases s.len() - k,
{
    if k == s.len() {
        assert(s.take(k) == s);
    } else {
        assert(s.drop_last().take(k) == s.take(k));
        assert(all_digits(s.drop_last()));
        lemma_digits_value_prefix(s.drop_last(), k);
    }
}

fn leading_space_at(bytes: &[u8], from: usize, to: usize) -> (k: usize)
    requires
        from <= to <= bytes.len(),
    ensures
        k == leading_space(bytes@.subrange(from as int, to as int)),
        from + k <= to,
{
    let n = to - from;
    if n >= 1 && is_space1(bytes[from]) {
        1
    } else if n >= 2 && is_space2(bytes[from], bytes[from + 1]) {
        2
    } else if n >= 3 && is_space3(bytes[from], bytes[from + 1], bytes[from + 2]) {
        3
    } else {
        0
    }
}

fn trailing_space_at(bytes: &[u8], from: usize, to: usize) -> (k: usize)
    requires
        from <= to <= bytes.len(),
    ensures
        k == trailing_space(bytes@.subrange(from as int, to as int)),
        from + k <= to,
{
    let n = to - from;
    if n >= 1 && is_space1(bytes[to - 1]) {
        1
    } else if n >= 2 && is_space2(bytes[to - 2], bytes[to - 1]) {
        2
    } else if n >= 3 && is_space3(bytes[to - 3], bytes[to - 2], bytes[to - 1]) {
        3
    } else {
        0
    }
}

fn is_space1(a: u8) -> (r: bool)
    ensures
        r == space1(a),
{
    (0x09 <= a && a <= 0x0D) || a == 0x20
}

fn is_space2(a: u8, b: u8) -> (r: bool)
    ensures
        r == space2(a, b),
{
    a == 0xC2 && (b == 0x85 || b == 0xA0)
}

fn is_space3(a: u8, b: u8, c: u8) -> (r: bool)
    ensures
        r == space3(a, b, c),
{
    (a == 0xE1 && b == 0x9A && c == 0x80)
        || (a == 0xE2 && b == 0x80 && ((0x80 <= c && c <= 0x8A) || c == 0xA8 || c == 0xA9
        || c == 0xAF))
        || (a == 0xE2 && b == 0x81 && c == 0x9F)
        || (a == 0xE3 && b == 0x80 && c == 0x80)
}

/// Reads the number written in `bytes[from..to]`.
fn parse_digits(bytes: &[u8], from: usize, to: usize) -> (r: Option<usize>)
    requires
        from <= to <= bytes.len(),
    ensures
        r == parse_decimal(bytes@.subrange(from as int, to as int)),
{
    let ghost s = bytes@.subrange(from as int, to as int);
    let first: usize = if from < to && bytes[from] == PLUS {
        from + 1
    } else {
        from
    };
    let ghost d = bytes@.subrange(first as int, to as int);
    assert(d == if s.len() > 0 && s[0] == PLUS {
        s.drop_first()
    } else {
        s
    });
    if first == to {
        return None;
    }
    let ghost wanted = parse_decimal(s);
    let mut value: usize = 0;
    let mut i: usize = first;
    while i < to
        invariant
            from <= first <= i <= to <= bytes.len(),
            d == bytes@.subrange(first as int, to as int),
            wanted == parse_decimal(bytes@.subrange(from as int, to as int)),
            wanted == if all_digits(d) && digits_value(d) <= usize::MAX {
                Some(digits_value(d) as usize)
            } else {
                None
            },
            all_digits(d.take(i - first)),
            value == digits_value(d.take(i - first)),
        decreases to - i,
    {
        let b = bytes[i];
        if !(DIGIT_0 <= b && b <= DIGIT_9) {
            assert(!is_digit(d[i - first]));
            return None;
        }
        let ghost next = d.take(i - first + 1);
        proof {
            assert(next.drop_last() == d.take(i - first));
            assert(next.last() == b);
            assert(all_digits(next));
            assert(digits_value(next) == value * 10 + (b - DIGIT_0));
            if all_digits(d) {
                lemma_digits_value_prefix(d, i - first + 1);
            }
        }
        let shifted = value.checked_mul(10);
        if shifted.is_none() {
            return None;
        }
        let sum = shifted.unwrap().checked_add((b - DIGIT_0) as usize);
        if sum.is_none() {
            return None;
        }
        value = sum.unwrap();
        i += 1;
    }
    assert(d.take(i - first) == d);
    Some(value)
}

/// Reads the body length that the rest of a length line declares. White space
/// around the number is ignored; a `+` may stand before the digits.
pub fn parse_length(bytes: &[u8]) -> (r: Option<usize>)
    ensures
        r == declared_length(bytes@),
{
    let len = bytes.len();
    let mut from: usize = 0;
    assert(bytes@.skip(0) == bytes@);
    assert(bytes@.subrange(0, len as int) == bytes@);
    let mut k = leading_space_at(bytes, 0, len);
    while k != 0
        invariant
            len == bytes.len(),
            from + k <= len,
            k == leading_space(bytes@.skip(from as int)),
            trim_start(bytes@.skip(from as int)) == trim_start(bytes@),
        decreases len - from,
    {
        assert(bytes@.skip(from as int).skip(k as int) == bytes@.skip(from + k));
        from += k;
        assert(bytes@.subrange(from as int, len as int) == bytes@.skip(from as int));
        k = leading_space_at(bytes, from, len);
    }
    let ghost rest = bytes@.skip(from as int);
    assert(rest == trim_start(bytes@));
    let mut to: usize = len;
    assert(bytes@.subrange(from as int, len as int) == rest);
    k = trailing_space_at(bytes, from, to);
    while k != 0
        invariant
            from + k <= to <= len,
            len == bytes.len(),
            k == trailing_space(bytes@.subrange(from as int, to as int)),
            trim_end(bytes@.subrange(from as int, to as int)) == trim_end(rest),
        decreases to - from,
    {
        assert(bytes@.subrange(from as int, to as int).take(to - from - k) == bytes@.subrange(
            from as int,
            to - k,
        ));
        to -= k;
        k = trailing_space_at(bytes, from, to);
    }
    parse_digits(bytes, from, to)
}

/// What `decimal` writes is a non-empty run of digits worth `n`.
pub proof fn lemma_decimal_digits(n: nat)
    ensures
        decimal(n).len() >= 1,
        all_digits(decimal(n)),
        digits_value(decimal(n)) == n,
    decreases n,
{
    let s = decimal(n);
    if n < 10 {
        assert(s.drop_last().len() == 0);
        assert(digits_value(s.drop_last()) == 0);
        assert(s.last() == DIGIT_0 + n);
    } else {
        lemma_decimal_digits(n / 10);
        assert(s.drop_last() == decimal(n / 10));
        assert(s.last() == DIGIT_0 + n % 10);
    }
    assert(digits_value(s) == digits_value(s.drop_last()) * 10 + (s.last() - DIGIT_0));
}

/// White space behind a run of digits is trimmed away, and nothing else.
pub proof fn lemma_trim_digits(d: Seq<u8>, tail: Seq<u8>)
    requires
        d.len() >= 1,
        all_digits(d),
        forall|i: int| 0 <= i < tail.len() ==> space1(#[trigger] tail[i]),
    ensures
        trim(d + tail) == d,
    decreases tail.len(),
{
    let s = d + tail;
    assert(is_digit(d[0]));
    assert(s[0] == d[0]);
    assert(leading_space(s) == 0);
    assert(trim_start(s) == s);
    if tail.len() == 0 {
        assert(s == d);
        assert(is_digit(d[d.len() - 1]));
        assert(trailing_space(d) == 0);
    } else {
        assert(s[s.len() - 1] == tail[tail.len() - 1]);
        assert(trailing_space(s) == 1);
        assert(s.take(s.len() - 1) == d + tail.drop_last());
        assert forall|i: int| 0 <= i < tail.drop_last().len() implies space1(
            #[trigger] tail.drop_last()[i],
        ) by {
            assert(tail.drop_last()[i] == tail[i]);
        }
        lemma_trim_digits(d, tail.drop_last());
        assert(trim_start(d + tail.drop_last()) == d + tail.drop_last());
    }
}

/// The length that `decimal` wrote is the length that is read back, whatever
/// line ending follows the digits.
pub proof fn lemma_declared_length_of_decimal(n: nat, tail: Seq<u8>)
    requires
        n <= usize::MAX,
        forall|i: int| 0 <= i < tail.len() ==> space1(#[trigger] tail[i]),
    ensures
        declared_length(decimal(n) + tail) == Some(n as usize),
{
    lemma_decimal_digits(n);
    lemma_trim_digits(decimal(n), tail);
    let d = decimal(n);
    assert(is_digit(d[0]));
}

} // verus!
