//! The incremental codec: frames out of a buffer that fills chunk by chunk,
//! and frames into a buffer that is drained elsewhere.

use bytes::BytesMut;
use vstd::prelude::*;
use vstd::slice::{slice_subrange, slice_to_vec};
use vstd::utf8::{
    decode_utf8, encode_utf8, encode_utf8_decode_utf8, encode_utf8_valid_utf8, valid_utf8,
};

use crate::length::{
    declared_length, is_digit, lemma_decimal_digits, lemma_declared_length_of_decimal,
    parse_length,
};
use crate::text::{lemma_first_byte, string_from_utf8};
use crate::wire::{
    decimal, find_byte, frame, has_prefix, header, header_end, header_prefix, lemma_padding,
    lemma_padding_is, lemma_position_is, lemma_position_of, padding, padding_len, position_of,
    starts_with_prefix, strip, write_message_str, CR, LF, PREFIX_LEN,
};

verus! {

/// `bytes::BytesMut`, taken as it is: nothing inside it is read here, and
/// what it holds is spoken of through `buffered`.
#[verifier::external_type_specification]
#[verifier::external_body]
pub struct ExBytesMut(BytesMut);

/// The bytes that a buffer holds, first to last: what `BytesMut` shows as
/// its slice.
pub uninterp spec fn buffered(buf: BytesMut) -> Seq<u8>;

/// The contents of a buffer as a slice.
///
/// Trusted: calls `<BytesMut as AsRef<[u8]>>::as_ref`, which borrows the
/// bytes between the buffer's start and its length.
#[verifier::external_body]
fn buffer_bytes(buf: &BytesMut) -> (bytes: &[u8])
    ensures
        bytes@ == buffered(*buf),
{
    buf.as_ref()
}

/// Takes the first `at` bytes out of a buffer.
///
/// Trusted: calls `BytesMut::split_to`. Afterwards the buffer holds the
/// bytes from `at` on and the result holds those before `at`. It panics
/// where `at` is beyond the length, which `requires` rules out.
#[verifier::external_body]
fn buffer_split_to(buf: &mut BytesMut, at: usize) -> (head: BytesMut)
    requires
        at <= buffered(*old(buf)).len(),
    ensures
        buffered(head) == buffered(*old(buf)).take(at as int),
        buffered(*final(buf)) == buffered(*old(buf)).skip(at as int),
{
    buf.split_to(at)
}

/// Appends bytes to a buffer, which grows where it has to.
///
/// Trusted: calls `BytesMut::extend_from_slice`, which reserves room for
/// the bytes and then copies them behind those that the buffer holds. The
/// reservation panics where the new capacity overflows; `requires` keeps
/// the new length within `isize::MAX`, the most that one allocation holds.
#[verifier::external_body]
fn buffer_extend(buf: &mut BytesMut, bytes: &[u8])
    requires
        buffered(*old(buf)).len() + bytes@.len() <= isize::MAX,
    ensures
        buffered(*final(buf)) == buffered(*old(buf)) + bytes@,
{
    buf.extend_from_slice(bytes)
}

/// The most bytes that one allocation holds.
pub const MAX_LEN: usize = isize::MAX as usize;

/// Why a buffer could not be decoded.
#[derive(Debug, PartialEq, Eq, Clone, Copy)]
pub enum DecodeError {
    /// The length line holds no number that fits a `usize`.
    InvalidLength,
    /// The body is not UTF-8.
    InvalidText,
}

/// Why a message could not be encoded.
#[derive(Debug, PartialEq, Eq, Clone, Copy)]
pub enum EncodeError {
    /// The buffer would grow beyond what one allocation holds.
    TooLong,
}

/// What one call of the decoder found.
pub ghost enum Decoded {
    /// No frame is complete yet.
    NeedMore,
    /// A frame with this body.
    Message(Seq<u8>),
    /// A length line that declares no length.
    BadLength,
}

/// The outcome of one call of the decoder: the state it leaves, the bytes
/// it leaves in the buffer, and what it found.
pub ghost struct Step {
    pub state: Option<usize>,
    pub rest: Seq<u8>,
    pub found: Decoded,
}

/// One call of the decoder while it waits for the `n` bytes of a body.
///
/// With fewer than `n` bytes buffered nothing changes. Otherwise the carriage
/// returns and line feeds at the start are dropped; if `n` bytes are still
/// there, they are the body.
pub open spec fn decode_body(n: usize, buf: Seq<u8>) -> Step {
    if buf.len() < n {
        Step { state: Some(n), rest: buf, found: Decoded::NeedMore }
    } else if strip(buf).len() < n {
        Step { state: Some(n), rest: strip(buf), found: Decoded::NeedMore }
    } else {
        Step {
            state: None,
            rest: strip(buf).skip(n as int),
            found: Decoded::Message(strip(buf).take(n as int)),
        }
    }
}

/// One call of the decoder in state `state` on the buffer `buf`.
///
/// While it waits for a header, the carriage returns and line feeds at the
/// start are dropped. If the header prefix follows and the line's carriage
/// return has arrived, the line is parsed and taken out, and the decoder goes
/// on with the body.
pub open spec fn decode_step(state: Option<usize>, buf: Seq<u8>) -> Step {
    match state {
        Some(n) => decode_body(n, buf),
        None => {
            let b = strip(buf);
            let end = position_of(b, CR) as int;
            if !has_prefix(b) || end >= b.len() {
                Step { state: None, rest: b, found: Decoded::NeedMore }
            } else {
                match declared_length(b.subrange(PREFIX_LEN as int, end + 1)) {
                    None => Step { state: None, rest: b, found: Decoded::BadLength },
                    Some(n) => decode_body(n, b.skip(end + 1)),
                }
            }
        },
    }
}

/// Whether `r` reports what the decoder found: a message as the text that
/// its body encodes, or the error where the body encodes none.
pub open spec fn reports(r: Result<Option<String>, DecodeError>, found: Decoded) -> bool {
    match found {
        Decoded::NeedMore => r == Ok::<Option<String>, DecodeError>(None),
        Decoded::BadLength => r == Err::<Option<String>, DecodeError>(DecodeError::InvalidLength),
        Decoded::Message(body) => if valid_utf8(body) {
            r matches Ok(Some(text)) && text@ == decode_utf8(body)
        } else {
            r == Err::<Option<String>, DecodeError>(DecodeError::InvalidText)
        },
    }
}

/// Decoder of frames that arrive in chunks of any size.
#[derive(Debug)]
pub struct LanguageServerDecoder {
    message_length: Option<usize>,
}

impl LanguageServerDecoder {
    /// The body length that the decoder waits for, if a length line has been
    /// read and its body has not.
    pub closed spec fn pending_length(&self) -> Option<usize> {
        self.message_length
    }

    /// A decoder that waits for a header.
    pub fn new() -> (decoder: LanguageServerDecoder)
        ensures
            decoder.pending_length() is None,
    {
        LanguageServerDecoder { message_length: None }
    }

    /// Takes the next message out of `src`, if it is complete.
    pub fn decode(&mut self, src: &mut BytesMut) -> (r: Result<Option<String>, DecodeError>)
        ensures
            final(self).pending_length() == decode_step(
                old(self).pending_length(),
                buffered(*old(src)),
            ).state,
            buffered(*final(src)) == decode_step(
                old(self).pending_length(),
                buffered(*old(src)),
            ).rest,
            reports(r, decode_step(old(self).pending_length(), buffered(*old(src))).found),
    {
        let ghost before = buffered(*src);
        let n = match self.message_length {
            Some(n) => n,
            None => {
                let skip = padding_len(buffer_bytes(src));
                if skip > 0 {
                    let _ = buffer_split_to(src, skip);
                }
                let bytes = buffer_bytes(src);
                assert(bytes@ == strip(before));
                if !starts_with_prefix(bytes) {
                    return Ok(None);
                }
                let end = find_byte(bytes, CR);
                if end >= bytes.len() {
                    return Ok(None);
                }
                proof {
                    lemma_line_end_after_prefix(bytes@);
                }
                match parse_length(slice_subrange(bytes, PREFIX_LEN, end + 1)) {
                    None => {
                        return Err(DecodeError::InvalidLength);
                    },
                    Some(n) => {
                        let _ = buffer_split_to(src, end + 1);
                        self.message_length = Some(n);
                        n
                    },
                }
            },
        };
        let ghost body_from = buffered(*src);
        assert(decode_step(old(self).pending_length(), before) == decode_body(n, body_from));
        if buffer_bytes(src).len() < n {
            return Ok(None);
        }
        let skip = padding_len(buffer_bytes(src));
        if skip > 0 {
            let _ = buffer_split_to(src, skip);
        }
        assert(buffered(*src) == strip(body_from));
        if buffer_bytes(src).len() < n {
            return Ok(None);
        }
        let body = buffer_split_to(src, n);
        self.message_length = None;
        match string_from_utf8(slice_to_vec(buffer_bytes(&body))) {
            Some(text) => Ok(Some(text)),
            None => Err(DecodeError::InvalidText),
        }
    }
}

/// Encoder of messages into frames.
#[derive(Debug)]
pub struct LanguageServerEncoder;

impl LanguageServerEncoder {
    /// Appends the frame that carries `item` to `dst`. Where that would make
    /// `dst` longer than `isize::MAX`, the most that one allocation holds,
    /// `dst` stays as it is.
    pub fn encode(&mut self, item: String, dst: &mut BytesMut) -> (r: Result<(), EncodeError>)
        ensures
            r is Ok <==> buffered(*old(dst)).len() + frame(encode_utf8(item@)).len() <= isize::MAX,
            r is Ok ==> buffered(*final(dst)) == buffered(*old(dst)) + frame(encode_utf8(item@)),
            r is Err ==> buffered(*final(dst)) == buffered(*old(dst)),
    {
        let mut bytes: Vec<u8> = Vec::new();
        write_message_str(&mut bytes, item.as_str());
        assert(bytes@ == frame(encode_utf8(item@)));
        let held = buffer_bytes(dst).len();
        if held > MAX_LEN || bytes.len() > MAX_LEN - held {
            return Err(EncodeError::TooLong);
        }
        buffer_extend(dst, bytes.as_slice());
        Ok(())
    }
}

/// The header prefix holds no carriage return, so the first one in a buffer
/// that starts with the prefix lies behind it.
pub proof fn lemma_line_end_after_prefix(b: Seq<u8>)
    requires
        has_prefix(b),
    ensures
        position_of(b, CR) >= PREFIX_LEN,
{
    lemma_position_of(b, CR);
    let end = position_of(b, CR) as int;
    if end < PREFIX_LEN {
        assert(b[end] == b.take(PREFIX_LEN as int)[end]);
    }
}

/// A buffer that starts with a header starts with the header prefix, has no
/// padding, and has its first carriage return at the end of the length
/// line, which declares the length of the header.
pub proof fn lemma_header(n: nat, rest: Seq<u8>)
    requires
        n <= usize::MAX,
    ensures
        has_prefix(header(n) + rest),
        strip(header(n) + rest) == header(n) + rest,
        position_of(header(n) + rest, CR) == PREFIX_LEN + decimal(n).len(),
        declared_length(
            (header(n) + rest).subrange(PREFIX_LEN as int, PREFIX_LEN + decimal(n).len() + 1),
        ) == Some(n as usize),
        (header(n) + rest).skip(PREFIX_LEN + decimal(n).len() + 1) == seq![LF, CR, LF] + rest,
        padding(seq![LF, CR, LF] + rest) == 3 + padding(rest),
{
    let f = header(n) + rest;
    let d = decimal(n);
    lemma_decimal_digits(n);
    assert(f.take(PREFIX_LEN as int) == header_prefix());
    assert(f[0] == header_prefix()[0]);
    assert(padding(f) == 0);
    assert(f.skip(0) == f);
    let k = PREFIX_LEN + d.len();
    assert forall|i: int| 0 <= i < k implies #[trigger] f[i] != CR by {
        if i < PREFIX_LEN {
            assert(f[i] == header_prefix()[i]);
        } else {
            assert(f[i] == d[i - PREFIX_LEN]);
            assert(is_digit(d[i - PREFIX_LEN]));
        }
    }
    assert(f[k as int] == header_end()[0]);
    lemma_position_is(f, CR, k as int);
    assert(f.subrange(PREFIX_LEN as int, k + 1) == d + seq![CR]);
    lemma_declared_length_of_decimal(n, seq![CR]);
    let tail = seq![LF, CR, LF] + rest;
    assert(f.skip(k + 1) == tail);
    lemma_padding(rest);
    let run = 3 + padding(rest);
    assert forall|i: int| 0 <= i < run implies #[trigger] tail[i] == CR || tail[i] == LF by {
        if i >= 3 {
            assert(tail[i] == rest[i - 3]);
        }
    }
    if run < tail.len() {
        assert(tail[run as int] == rest[padding(rest) as int]);
    }
    lemma_padding_is(tail, run as int);
}

/// Decoding a frame gives back its body and leaves what follows the frame,
/// unless the body starts with a carriage return or a line feed: the
/// decoder takes those for padding.
pub proof fn lemma_decode_frame(body: Seq<u8>, more: Seq<u8>)
    requires
        body.len() <= usize::MAX,
        body.len() > 0 ==> body[0] != CR && body[0] != LF,
        body.len() == 0 && more.len() > 0 ==> more[0] != CR && more[0] != LF,
    ensures
        decode_step(None, frame(body) + more) == (Step {
            state: None,
            rest: more,
            found: Decoded::Message(body),
        }),
{
    let n = body.len();
    let rest = body + more;
    assert(frame(body) + more == header(n) + rest);
    lemma_header(n, rest);
    assert(padding(rest) == 0);
    let tail = seq![LF, CR, LF] + rest;
    assert(strip(tail) == rest);
    assert(rest.skip(n as int) == more);
    assert(rest.take(n as int) == body);
}

/// A body of which less has arrived than was declared is not given out:
/// the decoder wants more and leaves its state and the buffer as they are,
/// so that every further call finds the same.
pub proof fn lemma_short_body_waits(n: usize, buf: Seq<u8>)
    requires
        buf.len() < n,
    ensures
        decode_step(Some(n), buf) == (Step {
            state: Some(n),
            rest: buf,
            found: Decoded::NeedMore,
        }),
{
}

/// A header that declares more than has arrived behind it is taken out of
/// the buffer, and the decoder wants more: no part of the body is given out.
pub proof fn lemma_short_frame_waits(n: usize, part: Seq<u8>)
    requires
        part.len() < n,
    ensures
        decode_step(None, header(n as nat) + part).found is NeedMore,
        decode_step(None, header(n as nat) + part).state == Some(n),
        strip(decode_step(None, header(n as nat) + part).rest) == strip(part),
{
    lemma_header(n as nat, part);
    lemma_padding(part);
    let tail = seq![LF, CR, LF] + part;
    assert(strip(tail) == strip(part));
    if tail.len() < n {
        assert(tail.skip(padding(tail) as int) == part.skip(padding(part) as int));
    } else {
        assert(strip(strip(part)) == strip(part)) by {
            let t = strip(part);
            if t.len() > 0 {
                assert(t[0] == part[padding(part) as int]);
            }
            assert(t.skip(0) == t);
        }
    }
}

/// What is encoded is decoded again: the frame of a text decodes to that
/// text, and nothing is left over. The text must not start with a carriage
/// return or a line feed, which the decoder would take for padding.
pub proof fn lemma_encode_then_decode(text: Seq<char>)
    requires
        encode_utf8(text).len() <= usize::MAX,
        text.len() > 0 ==> text[0] != '\r' && text[0] != '\n',
    ensures
        decode_step(None, frame(encode_utf8(text))).found == Decoded::Message(encode_utf8(text)),
        decode_step(None, frame(encode_utf8(text))).state is None,
        decode_step(None, frame(encode_utf8(text))).rest.len() == 0,
        valid_utf8(encode_utf8(text)),
        decode_utf8(encode_utf8(text)) == text,
{
    if text.len() > 0 {
        lemma_first_byte(text);
    }
    assert(frame(encode_utf8(text)) + Seq::<u8>::empty() == frame(encode_utf8(text)));
    lemma_decode_frame(encode_utf8(text), Seq::empty());
    encode_utf8_valid_utf8(text);
    encode_utf8_decode_utf8(text);
}

} // verus!
