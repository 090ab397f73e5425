//! The blocking framer: one message out of a source that is read line by
//! line and then by the count.
//!
//! What the framer decides is `advance`: from what it waits for and what was
//! read to what it waits for next, or to the result. Whoever owns a source
//! reads what `ReadState::wants` asks for and hands it to `advance`.
//! `read_message` does so for a source in memory.

use vstd::prelude::*;
use vstd::slice::{slice_subrange, slice_to_vec};
use vstd::utf8::{
    decode_utf8, encode_utf8, encode_utf8_decode_utf8, encode_utf8_valid_utf8, valid_utf8,
};

use crate::length::{
    declared_length, is_digit, lemma_decimal_digits, lemma_declared_length_of_decimal,
    parse_length,
};
use crate::text::{lemma_ascii_is_utf8, string_from_utf8};
use crate::wire::{
    decimal, find_byte, frame, has_prefix, header_end, header_prefix, lemma_position_is,
    position_of, starts_with_prefix, CR, LF, PREFIX_LEN,
};

verus! {

/// Why no message could be read.
#[derive(Debug, PartialEq, Eq)]
pub enum ReadError {
    /// The first line does not start with the header prefix. Holds the line.
    InvalidMessage(String),
    /// The length line holds no number that fits a `usize`.
    InvalidLength,
    /// A header line or the body is not UTF-8.
    InvalidText,
    /// The source ended inside a message.
    Truncated,
}

/// What the framer waits for.
#[derive(Debug, PartialEq, Eq, Clone, Copy)]
pub enum ReadState {
    /// The length line.
    Header,
    /// The next header line of a message whose body has this length.
    Fields(usize),
    /// A body of this length.
    Body(usize),
}

/// What the framer asks its source for.
#[derive(Debug, PartialEq, Eq, Clone, Copy)]
pub enum Wanted {
    /// The bytes up to and with the next line feed, or up to the end of the
    /// source where no line feed is left; nothing at the end of the source.
    Line,
    /// Exactly this many bytes.
    Bytes(usize),
}

/// What the framer does after a read.
#[derive(Debug, PartialEq, Eq)]
pub enum ReadStep {
    /// It waits for more, in this state.
    Continue(ReadState),
    /// It is done: with a message, with none because the source had ended
    /// before the message began, or with an error.
    Done(Result<Option<String>, ReadError>),
}

/// How a read ends.
pub ghost enum Outcome {
    /// The source had ended before a message began.
    End,
    /// A message with this text.
    Message(Seq<char>),
    /// A first line, this one, that does not start with the header prefix.
    InvalidMessage(Seq<char>),
    /// A length line that declares no length.
    InvalidLength,
    /// A header line or a body that is not UTF-8.
    InvalidText,
    /// A source that ended inside a message.
    Truncated,
}

/// What the framer does after a read, over plain values.
pub ghost enum Next {
    /// It waits for more, in this state.
    Continue(ReadState),
    /// It is done, with this outcome.
    Done(Outcome),
}

/// The outcome that a result stands for.
pub open spec fn outcome_of(r: Result<Option<String>, ReadError>) -> Outcome {
    match r {
        Ok(None) => Outcome::End,
        Ok(Some(text)) => Outcome::Message(text@),
        Err(ReadError::InvalidMessage(line)) => Outcome::InvalidMessage(line@),
        Err(ReadError::InvalidLength) => Outcome::InvalidLength,
        Err(ReadError::InvalidText) => Outcome::InvalidText,
        Err(ReadError::Truncated) => Outcome::Truncated,
    }
}

/// The empty line that ends the header.
pub open spec fn blank_line() -> Seq<u8> {
    seq![CR, LF]
}

/// What the framer does in state `state` once `input` was read.
///
/// A first line has to be UTF-8, start with the header prefix and declare a
/// length; no first line at all means that the source has ended in good
/// order. The header lines that follow are passed over, up to the empty
/// line. The body has to be there in full and be UTF-8.
pub open spec fn next(state: ReadState, input: Seq<u8>) -> Next {
    match state {
        ReadState::Header => if input.len() == 0 {
            Next::Done(Outcome::End)
        } else if !valid_utf8(input) {
            Next::Done(Outcome::InvalidText)
        } else if !has_prefix(input) {
            Next::Done(Outcome::InvalidMessage(decode_utf8(input)))
        } else {
            match declared_length(input.skip(PREFIX_LEN as int)) {
                None => Next::Done(Outcome::InvalidLength),
                Some(n) => Next::Continue(ReadState::Fields(n)),
            }
        },
        ReadState::Fields(n) => if input.len() == 0 {
            Next::Done(Outcome::Truncated)
        } else if !valid_utf8(input) {
            Next::Done(Outcome::InvalidText)
        } else if input == blank_line() {
            Next::Continue(ReadState::Body(n))
        } else {
            Next::Continue(ReadState::Fields(n))
        },
        ReadState::Body(n) => if input.len() != n {
            Next::Done(Outcome::Truncated)
        } else if !valid_utf8(input) {
            Next::Done(Outcome::InvalidText)
        } else {
            Next::Done(Outcome::Message(decode_utf8(input)))
        },
    }
}

/// Whether `step` is what `next` says.
pub open spec fn follows(step: ReadStep, next: Next) -> bool {
    match step {
        ReadStep::Continue(state) => next == Next::Continue(state),
        ReadStep::Done(r) => next == Next::Done(outcome_of(r)),
    }
}

impl ReadState {
    /// The state in which a message begins.
    pub fn new() -> (state: ReadState)
        ensures
            state == ReadState::Header,
    {
        ReadState::Header
    }

    /// What has to be read next.
    pub fn wants(&self) -> (wanted: Wanted)
        ensures
            wanted == match *self {
                ReadState::Body(n) => Wanted::Bytes(n),
                _ => Wanted::Line,
            },
    {
        match self {
            ReadState::Body(n) => Wanted::Bytes(*n),
            _ => Wanted::Line,
        }
    }
}

/// Decides what the framer does in state `state` once `input` was read.
pub fn advance(state: ReadState, input: Vec<u8>) -> (step: ReadStep)
    ensures
        follows(step, next(state, input@)),
{
    match state {
        ReadState::Header => {
            if input.len() == 0 {
                return ReadStep::Done(Ok(None));
            }
            let line = match string_from_utf8(slice_to_vec(input.as_slice())) {
                None => {
                    return ReadStep::Done(Err(ReadError::InvalidText));
                },
                Some(line) => line,
            };
            if !starts_with_prefix(input.as_slice()) {
                return ReadStep::Done(Err(ReadError::InvalidMessage(line)));
            }
            assert(input@.subrange(PREFIX_LEN as int, input@.len() as int) == input@.skip(
                PREFIX_LEN as int,
            ));
            match parse_length(slice_subrange(input.as_slice(), PREFIX_LEN, input.len())) {
                None => ReadStep::Done(Err(ReadError::InvalidLength)),
                Some(n) => ReadStep::Continue(ReadState::Fields(n)),
            }
        },
        ReadState::Fields(n) => {
            if input.len() == 0 {
                return ReadStep::Done(Err(ReadError::Truncated));
            }
            let blank = input.len() == 2 && input[0] == CR && input[1] == LF;
            assert(blank == (input@ == blank_line())) by {
                if blank {
                    assert(input@ =~= blank_line());
                } else if input@ == blank_line() {
                    assert(blank_line().len() == 2);
                    assert(blank_line()[0] == CR && blank_line()[1] == LF);
                }
            }
            if string_from_utf8(input).is_none() {
                ReadStep::Done(Err(ReadError::InvalidText))
            } else if blank {
                ReadStep::Continue(ReadState::Body(n))
            } else {
                ReadStep::Continue(ReadState::Fields(n))
            }
        },
        ReadState::Body(n) => {
            if input.len() != n {
                return ReadStep::Done(Err(ReadError::Truncated));
            }
            match string_from_utf8(input) {
                None => ReadStep::Done(Err(ReadError::InvalidText)),
                Some(text) => ReadStep::Done(Ok(Some(text))),
            }
        },
    }
}

/// The length of the first line of `source`: up to and with the first line
/// feed, or all of `source` where it holds no line feed.
pub open spec fn line_len(source: Seq<u8>) -> nat {
    let at = position_of(source, LF);
    if at < source.len() {
        at + 1
    } else {
        source.len()
    }
}

/// How reading ends, and what is left of the source then.
pub ghost struct Read {
    pub outcome: Outcome,
    pub rest: Seq<u8>,
}

/// Reading from `source` in state `state`: the framer is handed what it
/// asks for until it is done. A body that the source holds only in part
/// uses the source up. The framer is done after a body and after a line
/// that is empty, so that the two branches without a value are never
/// taken.
pub open spec fn read_from(state: ReadState, source: Seq<u8>) -> Read
    decreases source.len(),
{
    match state {
        ReadState::Body(n) => if source.len() < n {
            Read { outcome: Outcome::Truncated, rest: Seq::empty() }
        } else {
            match next(state, source.take(n as int)) {
                Next::Done(outcome) => Read { outcome, rest: source.skip(n as int) },
                Next::Continue(_) => arbitrary(),
            }
        },
        _ => {
            let k = line_len(source) as int;
            match next(state, source.take(k)) {
                Next::Done(outcome) => Read { outcome, rest: source.skip(k) },
                Next::Continue(state) => if k > 0 {
                    read_from(state, source.skip(k))
                } else {
                    arbitrary()
                },
            }
        },
    }
}

/// Reads one message from `reader`, which is left at the first byte behind
/// what was read.
pub fn read_message<'a>(reader: &mut &'a [u8]) -> (r: Result<Option<String>, ReadError>)
    ensures
        outcome_of(r) == read_from(ReadState::Header, old(reader)@).outcome,
        final(reader)@ == read_from(ReadState::Header, old(reader)@).rest,
{
    let mut state = ReadState::new();
    loop
        invariant
            read_from(state, reader@) == read_from(ReadState::Header, old(reader)@),
        decreases reader@.len(), if state is Body { 0int } else { 1int },
    {
        let source: &'a [u8] = *reader;
        let count = match state.wants() {
            Wanted::Bytes(n) => {
                if source.len() < n {
                    *reader = slice_subrange(source, source.len(), source.len());
                    return Err(ReadError::Truncated);
                }
                n
            },
            Wanted::Line => {
                let at = find_byte(source, LF);
                if at < source.len() {
                    at + 1
                } else {
                    at
                }
            },
        };
        let input = slice_to_vec(slice_subrange(source, 0, count));
        assert(input@ == source@.take(count as int));
        *reader = slice_subrange(source, count, source.len());
        assert(reader@ == source@.skip(count as int));
        match advance(state, input) {
            ReadStep::Done(r) => {
                return r;
            },
            ReadStep::Continue(state_after) => {
                state = state_after;
            },
        }
    }
}

/// The first line of a frame is its length line, and the line after it is
/// the empty line.
pub proof fn lemma_frame_lines(body: Seq<u8>, more: Seq<u8>)
    ensures
        line_len(frame(body) + more) == PREFIX_LEN + decimal(body.len()).len() + 2,
        (frame(body) + more).take(line_len(frame(body) + more) as int) == header_prefix() + decimal(
            body.len(),
        ) + blank_line(),
        (frame(body) + more).skip(line_len(frame(body) + more) as int) == blank_line() + body
            + more,
        line_len(blank_line() + body + more) == 2,
{
    let source = frame(body) + more;
    let d = decimal(body.len());
    lemma_decimal_digits(body.len());
    let at: int = (PREFIX_LEN + d.len() + 1) as int;
    assert forall|i: int| 0 <= i < at implies #[trigger] source[i] != LF by {
        if i < PREFIX_LEN {
            assert(source[i] == header_prefix()[i]);
        } else if i < PREFIX_LEN + d.len() {
            assert(source[i] == d[i - PREFIX_LEN]);
            assert(is_digit(d[i - PREFIX_LEN]));
        } else {
            assert(source[i] == header_end()[0]);
        }
    }
    assert(source[at] == header_end()[1]);
    lemma_position_is(source, LF, at);
    assert(source.take(at + 1) =~= header_prefix() + d + blank_line());
    assert(source.skip(at + 1) =~= blank_line() + body + more);
    let tail = blank_line() + body + more;
    assert(tail[0] == CR);
    assert(tail[1] == LF);
    lemma_position_is(tail, LF, 1);
}

/// What `write_message_str` wrote is read back: reading a frame gives the
/// text of its body, whatever that text is, and leaves what follows the
/// frame.
pub proof fn lemma_read_frame(body: Seq<u8>, more: Seq<u8>)
    requires
        body.len() <= usize::MAX,
        valid_utf8(body),
    ensures
        read_from(ReadState::Header, frame(body) + more) == (Read {
            outcome: Outcome::Message(decode_utf8(body)),
            rest: more,
        }),
{
    let source = frame(body) + more;
    let d = decimal(body.len());
    let n = body.len() as usize;
    lemma_frame_lines(body, more);
    lemma_decimal_digits(body.len());
    let first = header_prefix() + d + blank_line();
    assert(first.take(PREFIX_LEN as int) =~= header_prefix());
    assert(first.skip(PREFIX_LEN as int) =~= d + blank_line());
    assert forall|i: int| 0 <= i < first.len() implies #[trigger] first[i] < 128 by {
        if i < PREFIX_LEN {
            assert(first[i] == header_prefix()[i]);
        } else if i < PREFIX_LEN + d.len() {
            assert(first[i] == d[i - PREFIX_LEN]);
            assert(is_digit(d[i - PREFIX_LEN]));
        } else {
            assert(first[i] == blank_line()[i - PREFIX_LEN - d.len()]);
        }
    }
    lemma_ascii_is_utf8(first);
    lemma_declared_length_of_decimal(body.len(), blank_line());
    assert(next(ReadState::Header, first) == Next::Continue(ReadState::Fields(n)));
    let second = blank_line() + body + more;
    assert(second.take(2) =~= blank_line());
    lemma_ascii_is_utf8(blank_line());
    assert(next(ReadState::Fields(n), blank_line()) == Next::Continue(ReadState::Body(n)));
    let third = second.skip(2);
    assert(third =~= body + more);
    assert(third.take(n as int) =~= body);
    assert(third.skip(n as int) =~= more);
    assert(read_from(ReadState::Body(n), third) == (Read {
        outcome: Outcome::Message(decode_utf8(body)),
        rest: more,
    }));
    assert(read_from(ReadState::Fields(n), second) == read_from(ReadState::Body(n), third));
    assert(read_from(ReadState::Header, source) == read_from(ReadState::Fields(n), second));
}

/// Writing a text and reading it gives the text back, be it empty or full
/// of line ends.
pub proof fn lemma_write_then_read(text: Seq<char>, more: Seq<u8>)
    requires
        encode_utf8(text).len() <= usize::MAX,
    ensures
        read_from(ReadState::Header, frame(encode_utf8(text)) + more) == (Read {
            outcome: Outcome::Message(text),
            rest: more,
        }),
{
    encode_utf8_valid_utf8(text);
    encode_utf8_decode_utf8(text);
    lemma_read_frame(encode_utf8(text), more);
}

} // verus!
