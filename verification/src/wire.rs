//! The wire format shared by the blocking framer and the incremental codec.
//!
//! A frame is the header `Content-Length: <n>\r\n`, an empty line `\r\n`, and
//! then exactly `n` bytes of UTF-8 text.

use vstd::prelude::*;
use vstd::utf8::encode_utf8;

verus! {

/// Carriage return.
pub const CR: u8 = 0x0D;

/// Line feed.
pub const LF: u8 = 0x0A;

/// The digit `0`.
pub const DIGIT_0: u8 = 0x30;

/// The length of the header prefix.
pub const PREFIX_LEN: usize = 16;

/// The bytes `Content-Length: ` that open every frame, the space included.
pub open spec fn header_prefix() -> Seq<u8> {
    seq![
        0x43u8, 0x6F, 0x6E, 0x74, 0x65, 0x6E, 0x74, 0x2D,
        0x4C, 0x65, 0x6E, 0x67, 0x74, 0x68, 0x3A, 0x20,
    ]
}

/// The end of the length line followed by the empty line: `\r\n\r\n`.
pub open spec fn header_end() -> Seq<u8> {
    seq![CR, LF, CR, LF]
}

/// The decimal digits of `n`, most significant first, without leading zeros.
pub open spec fn decimal(n: nat) -> Seq<u8>
    decreases n,
{
    if n < 10 {
        seq![(DIGIT_0 + n) as u8]
    } else {
        decimal(n / 10).push((DIGIT_0 + n % 10) as u8)
    }
}

/// The header that declares a body of `n` bytes: the length line and the
/// empty line.
pub open spec fn header(n: nat) -> Seq<u8> {
    header_prefix() + decimal(n) + header_end()
}

/// The frame that carries `body`.
pub open spec fn frame(body: Seq<u8>) -> Seq<u8> {
    header(body.len()) + body
}

/// Whether `s` starts with the header prefix.
pub open spec fn has_prefix(s: Seq<u8>) -> bool {
    s.len() >= PREFIX_LEN && s.take(PREFIX_LEN as int) == header_prefix()
}

/// The number of carriage returns and line feeds that `s` starts with.
pub open spec fn padding(s: Seq<u8>) -> nat
    decreases s.len(),
{
    if s.len() > 0 && (s[0] == CR || s[0] == LF) {
        1 + padding(s.drop_first())
    } else {
        0
    }
}

/// `s` without the carriage returns and line feeds at its start.
pub open spec fn strip(s: Seq<u8>) -> Seq<u8> {
    s.skip(padding(s) as int)
}

/// The index of the first `b` in `s`, or the length of `s` where it holds none.
pub open spec fn position_of(s: Seq<u8>, b: u8) -> nat
    decreases s.len(),
{
    if s.len() == 0 || s[0] == b {
        0
    } else {
        1 + position_of(s.drop_first(), b)
    }
}

/// `padding` counts a run of carriage returns and line feeds that ends at
/// the first other byte, or at the end of `s`.
pub proof fn lemma_padding(s: Seq<u8>)
    ensures
        padding(s) <= s.len(),
        forall|i: int| 0 <= i < padding(s) ==> #[trigger] s[i] == CR || s[i] == LF,
        padding(s) < s.len() ==> s[padding(s) as int] != CR && s[padding(s) as int] != LF,
    decreases s.len(),
{
    if s.len() > 0 && (s[0] == CR || s[0] == LF) {
        let t = s.drop_first();
        lemma_padding(t);
        assert forall|i: int| 0 <= i < padding(s) implies #[trigger] s[i] == CR || s[i] == LF by {
            if i > 0 {
                assert(s[i] == t[i - 1]);
            }
        }
    }
}

/// A run of `k` carriage returns and line feeds that stops at another byte,
/// or at the end, is the padding.
pub proof fn lemma_padding_is(s: Seq<u8>, k: int)
    requires
        0 <= k <= s.len(),
        forall|i: int| 0 <= i < k ==> #[trigger] s[i] == CR || s[i] == LF,
        k < s.len() ==> s[k] != CR && s[k] != LF,
    ensures
        padding(s) == k,
    decreases s.len(),
{
    if k > 0 {
        let t = s.drop_first();
        assert forall|i: int| 0 <= i < k - 1 implies #[trigger] t[i] == CR || t[i] == LF by {
            assert(t[i] == s[i + 1]);
        }
        lemma_padding_is(t, k - 1);
    }
}

/// `position_of` is the least index that holds `b`.
pub proof fn lemma_position_of(s: Seq<u8>, b: u8)
    ensures
        position_of(s, b) <= s.len(),
        forall|i: int| 0 <= i < position_of(s, b) ==> #[trigger] s[i] != b,
        position_of(s, b) < s.len() ==> s[position_of(s, b) as int] == b,
    decreases s.len(),
{
    if !(s.len() == 0 || s[0] == b) {
        let t = s.drop_first();
        lemma_position_of(t, b);
        assert forall|i: int| 0 <= i < position_of(s, b) implies #[trigger] s[i] != b by {
            if i > 0 {
                assert(s[i] == t[i - 1]);
            }
        }
    }
}

/// An index that holds the first `b`, or the length where there is none, is
/// what `position_of` gives.
pub proof fn lemma_position_is(s: Seq<u8>, b: u8, k: int)
    requires
        0 <= k <= s.len(),
        forall|i: int| 0 <= i < k ==> #[trigger] s[i] != b,
        k < s.len() ==> s[k] == b,
    ensures
        position_of(s, b) == k,
    decreases s.len(),
{
    if k > 0 {
        let t = s.drop_first();
        assert forall|i: int| 0 <= i < k - 1 implies #[trigger] t[i] != b by {
            assert(t[i] == s[i + 1]);
        }
        lemma_position_is(t, b, k - 1);
    }
}

/// Counts the carriage returns and line feeds that `bytes` starts with.
pub fn padding_len(bytes: &[u8]) -> (k: usize)
    ensures
        k == padding(bytes@),
        k <= bytes.len(),
{
    let mut k: usize = 0;
    while k < bytes.len() && (bytes[k] == CR || bytes[k] == LF)
        invariant
            k <= bytes.len(),
            forall|i: int| 0 <= i < k ==> #[trigger] bytes@[i] == CR || bytes@[i] == LF,
        decreases bytes.len() - k,
    {
        k += 1;
    }
    proof {
        lemma_padding_is(bytes@, k as int);
    }
    k
}

/// Finds the first `b` in `bytes`; gives the length where there is none.
pub fn find_byte(bytes: &[u8], b: u8) -> (k: usize)
    ensures
        k == position_of(bytes@, b),
        k <= bytes.len(),
{
    let mut k: usize = 0;
    while k < bytes.len() && bytes[k] != b
        invariant
            k <= bytes.len(),
            forall|i: int| 0 <= i < k ==> #[trigger] bytes@[i] != b,
        decreases bytes.len() - k,
    {
        k += 1;
    }
    proof {
        lemma_position_is(bytes@, b, k as int);
    }
    k
}

/// Tells whether `bytes` starts with the header prefix.
pub fn starts_with_prefix(bytes: &[u8]) -> (r: bool)
    ensures
        r == has_prefix(bytes@),
{
    let prefix = header_prefix_bytes();
    if bytes.len() < prefix.len() {
        return false;
    }
    let mut i: usize = 0;
    while i < prefix.len()
        invariant
            i <= prefix.len() <= bytes.len(),
            prefix@ == header_prefix(),
            forall|j: int| 0 <= j < i ==> bytes@[j] == #[trigger] prefix@[j],
        decreases prefix.len() - i,
    {
        if bytes[i] != prefix[i] {
            assert(bytes@.take(prefix@.len() as int)[i as int] != prefix@[i as int]);
            return false;
        }
        i += 1;
    }
    assert(bytes@.take(prefix@.len() as int) == prefix@);
    true
}

/// The header prefix as a slice.
pub fn header_prefix_bytes() -> (r: &'static [u8])
    ensures
        r@ == header_prefix(),
        r@.len() == PREFIX_LEN,
{
    let text = "Content-Length: ";
    proof {
        reveal_strlit("Content-Length: ");
        vstd::string::is_ascii_spec_bytes(text);
    }
    let r = text.as_bytes();
    assert(r@ =~= header_prefix());
    r
}

/// Appends `bytes` to `output`.
pub fn push_all(output: &mut Vec<u8>, bytes: &[u8])
    ensures
        final(output)@ == old(output)@ + bytes@,
{
    let mut i: usize = 0;
    while i < bytes.len()
        invariant
            i <= bytes.len(),
            output@ == old(output)@ + bytes@.take(i as int),
        decreases bytes.len() - i,
    {
        output.push(bytes[i]);
        assert(bytes@.take(i + 1) == bytes@.take(i as int).push(bytes@[i as int]));
        i += 1;
    }
    assert(bytes@.take(i as int) == bytes@);
}

/// Appends the decimal digits of `n` to `output`.
pub fn push_decimal(output: &mut Vec<u8>, n: usize)
    ensures
        final(output)@ == old(output)@ + decimal(n as nat),
    decreases n,
{
    if n >= 10 {
        push_decimal(output, n / 10);
    }
    output.push(DIGIT_0 + (n % 10) as u8);
}

/// Appends to `output` the frame that carries `response`: the length line
/// with the length of `response` in bytes, the empty line, and the text.
pub fn write_message_str(output: &mut Vec<u8>, response: &str)
    ensures
        final(output)@ == old(output)@ + frame(encode_utf8(response@)),
{
    let body = response.as_bytes();
    push_all(output, header_prefix_bytes());
    push_decimal(output, body.len());
    output.push(CR);
    output.push(LF);
    output.push(CR);
    output.push(LF);
    push_all(output, body);
}

} // verus!
