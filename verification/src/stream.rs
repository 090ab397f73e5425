//! What a decoder gives over a stream that arrives in chunks, and why the
//! chunks do not matter.

use vstd::prelude::*;
use vstd::utf8::{decode_utf8, valid_utf8};

use crate::codec::{
    decode_body, decode_step, lemma_decode_frame, lemma_line_end_after_prefix, Decoded, Step,
};
use crate::length::declared_length;
use crate::wire::{
    frame, has_prefix, header_prefix, lemma_padding, lemma_padding_is, lemma_position_is,
    lemma_position_of, padding, position_of, strip, CR, LF, PREFIX_LEN,
};

verus! {

/// What came of decoding until the decoder wanted more or failed: the state
/// and the buffer that are left, the texts of the messages in their order,
/// and whether decoding ended in an error.
pub ghost struct Drained {
    pub state: Option<usize>,
    pub rest: Seq<u8>,
    pub messages: Seq<Seq<char>>,
    pub failed: bool,
}

/// Whether a step that found a message left less to do than there was: a
/// shorter buffer, or the same buffer and no body to wait for.
pub open spec fn shrinks(state: Option<usize>, buf: Seq<u8>, step: Step) -> bool {
    step.rest.len() < buf.len() || (step.rest.len() == buf.len() && state is Some
        && step.state is None)
}

/// Decoding in state `state` on the buffer `buf`, call after call, until
/// the decoder wants more or fails. Every step that finds a message
/// shrinks what is left to do (`lemma_step_shrinks`), so that the calls
/// come to an end.
pub open spec fn drain(state: Option<usize>, buf: Seq<u8>) -> Drained
    decreases buf.len(), (if state is Some { 1int } else { 0int }),
{
    let step = decode_step(state, buf);
    match step.found {
        Decoded::NeedMore => Drained {
            state: step.state,
            rest: step.rest,
            messages: Seq::empty(),
            failed: false,
        },
        Decoded::BadLength => Drained {
            state: step.state,
            rest: step.rest,
            messages: Seq::empty(),
            failed: true,
        },
        Decoded::Message(body) => if !valid_utf8(body) {
            Drained { state: step.state, rest: step.rest, messages: Seq::empty(), failed: true }
        } else if shrinks(state, buf, step) {
            let later = drain(step.state, step.rest);
            Drained { messages: seq![decode_utf8(body)] + later.messages, ..later }
        } else {
            arbitrary()
        },
    }
}

/// Decoding a stream that arrives in the chunks `chunks`: each chunk is put
/// behind what the buffer holds, and the decoder is called until it wants
/// more. An error ends the session.
pub open spec fn feed(state: Option<usize>, buf: Seq<u8>, chunks: Seq<Seq<u8>>) -> Drained
    decreases chunks.len(),
{
    if chunks.len() == 0 {
        Drained { state, rest: buf, messages: Seq::empty(), failed: false }
    } else {
        let first = drain(state, buf + chunks[0]);
        if first.failed {
            first
        } else {
            let later = feed(first.state, first.rest, chunks.drop_first());
            Drained { messages: first.messages + later.messages, ..later }
        }
    }
}

/// The chunks put together.
pub open spec fn joined(chunks: Seq<Seq<u8>>) -> Seq<u8>
    decreases chunks.len(),
{
    if chunks.len() == 0 {
        Seq::empty()
    } else {
        chunks[0] + joined(chunks.drop_first())
    }
}

/// Stripping is done once: what is stripped has no padding.
proof fn lemma_strip_twice(b: Seq<u8>)
    ensures
        padding(strip(b)) == 0,
        strip(strip(b)) == strip(b),
        strip(b).len() <= b.len(),
{
    lemma_padding(b);
    let t = strip(b);
    if t.len() > 0 {
        assert(t[0] == b[padding(b) as int]);
    }
    assert(t.skip(0) == t);
}

/// Stripping a buffer with more behind it: where something is left of the
/// buffer, the rest follows it untouched; where nothing is left, the rest
/// is stripped in turn.
proof fn lemma_strip_append(b: Seq<u8>, c: Seq<u8>)
    ensures
        strip(b + c) == if strip(b).len() > 0 {
            strip(b) + c
        } else {
            strip(c)
        },
{
    lemma_padding(b);
    lemma_padding(c);
    let k = padding(b) as int;
    let all = b + c;
    if strip(b).len() > 0 {
        assert forall|i: int| 0 <= i < k implies #[trigger] all[i] == CR || all[i] == LF by {
            assert(all[i] == b[i]);
        }
        assert(all[k] == b[k]);
        lemma_padding_is(all, k);
        assert(all.skip(k) =~= b.skip(k) + c);
    } else {
        let j = padding(c) as int;
        assert forall|i: int| 0 <= i < k + j implies #[trigger] all[i] == CR || all[i] == LF by {
            if i < k {
                assert(all[i] == b[i]);
            } else {
                assert(all[i] == c[i - k]);
            }
        }
        if k + j < all.len() {
            assert(all[k + j] == c[j]);
        }
        lemma_padding_is(all, k + j);
        assert(all.skip(k + j) =~= c.skip(j));
    }
}

/// Buffers that are the same once stripped stay so with more behind them.
proof fn lemma_strip_append_alike(b1: Seq<u8>, b2: Seq<u8>, c: Seq<u8>)
    requires
        strip(b1) == strip(b2),
    ensures
        strip(b1 + c) == strip(b2 + c),
{
    lemma_strip_append(b1, c);
    lemma_strip_append(b2, c);
}

/// Two steps that found the same and left the same state, and buffers that
/// are the same once stripped.
pub open spec fn step_alike(a: Step, b: Step) -> bool {
    a.found == b.found && a.state == b.state && strip(a.rest) == strip(b.rest)
}

/// Two sessions that gave the same messages and ended alike: both in an
/// error, or both in the same state with buffers that are the same once
/// stripped.
pub open spec fn alike(a: Drained, b: Drained) -> bool {
    &&& a.messages == b.messages
    &&& a.failed == b.failed
    &&& !a.failed ==> a.state == b.state && strip(a.rest) == strip(b.rest)
}

/// `later` with `messages` before its own.
pub open spec fn after(messages: Seq<Seq<char>>, later: Drained) -> Drained {
    Drained { messages: messages + later.messages, ..later }
}

/// A step that finds a message leaves less to do.
pub proof fn lemma_step_shrinks(state: Option<usize>, buf: Seq<u8>)
    requires
        decode_step(state, buf).found is Message,
    ensures
        shrinks(state, buf, decode_step(state, buf)),
        decode_step(state, buf).state is None,
{
    lemma_strip_twice(buf);
    match state {
        Some(n) => {},
        None => {
            let b = strip(buf);
            let end = position_of(b, CR) as int;
            lemma_strip_twice(b.skip(end + 1));
        },
    }
}

/// While it waits for a body, the decoder does alike on buffers that are
/// the same once stripped.
proof fn lemma_body_alike(n: usize, b1: Seq<u8>, b2: Seq<u8>)
    requires
        strip(b1) == strip(b2),
    ensures
        step_alike(decode_body(n, b1), decode_body(n, b2)),
{
    lemma_strip_twice(b1);
    lemma_strip_twice(b2);
}

/// In any state, the decoder does alike on buffers that are the same once
/// stripped.
proof fn lemma_step_alike(state: Option<usize>, b1: Seq<u8>, b2: Seq<u8>)
    requires
        strip(b1) == strip(b2),
    ensures
        step_alike(decode_step(state, b1), decode_step(state, b2)),
{
    match state {
        Some(n) => {
            lemma_body_alike(n, b1, b2);
        },
        None => {
            assert(decode_step(state, b1) == decode_step(state, b2));
        },
    }
}

/// While it waits for a header, the decoder drains buffers that are the
/// same once stripped to the very same end.
proof fn lemma_drain_header_same(b1: Seq<u8>, b2: Seq<u8>)
    requires
        strip(b1) == strip(b2),
    ensures
        drain(None, b1) == drain(None, b2),
{
    assert(decode_step(None, b1) == decode_step(None, b2));
    if decode_step(None, b1).found is Message {
        lemma_step_shrinks(None, b1);
        lemma_step_shrinks(None, b2);
    }
}

/// Where the first steps are alike, so are the sessions.
proof fn lemma_drain_of_alike_steps(
    s1: Option<usize>,
    b1: Seq<u8>,
    s2: Option<usize>,
    b2: Seq<u8>,
)
    requires
        step_alike(decode_step(s1, b1), decode_step(s2, b2)),
    ensures
        alike(drain(s1, b1), drain(s2, b2)),
{
    let st1 = decode_step(s1, b1);
    let st2 = decode_step(s2, b2);
    if st1.found is Message {
        lemma_step_shrinks(s1, b1);
        lemma_step_shrinks(s2, b2);
        lemma_drain_header_same(st1.rest, st2.rest);
    }
}

/// In any state, buffers that are the same once stripped drain alike.
proof fn lemma_drain_alike(state: Option<usize>, b1: Seq<u8>, b2: Seq<u8>)
    requires
        strip(b1) == strip(b2),
    ensures
        alike(drain(state, b1), drain(state, b2)),
{
    lemma_step_alike(state, b1, b2);
    lemma_drain_of_alike_steps(state, b1, state, b2);
}

/// How a step on a buffer with more behind it relates to the step on the
/// buffer alone: a step that waited goes on from where it stopped, and a
/// step that found something finds it again.
pub open spec fn resumes(before: Step, both: Step, state: Option<usize>, c: Seq<u8>) -> bool {
    if before.found is NeedMore {
        step_alike(both, decode_step(before.state, before.rest + c))
    } else {
        both.found == before.found && both.state == before.state && strip(both.rest) == strip(
            before.rest + c,
        )
    }
}

/// While it waits for a body, the decoder is not misled by a body that
/// arrives in parts.
proof fn lemma_body_append(n: usize, b: Seq<u8>, c: Seq<u8>)
    ensures
        resumes(decode_body(n, b), decode_body(n, b + c), Some(n), c),
{
    let st = decode_body(n, b);
    lemma_strip_twice(b);
    lemma_strip_twice(c);
    lemma_strip_twice(b + c);
    lemma_strip_append(b, c);
    if st.found is NeedMore {
        lemma_strip_append_alike(strip(b), b, c);
        lemma_body_alike(n, b + c, st.rest + c);
    } else {
        if strip(b).len() > 0 {
            assert((strip(b) + c).take(n as int) =~= strip(b).take(n as int));
            assert((strip(b) + c).skip(n as int) =~= strip(b).skip(n as int) + c);
        } else {
            assert(strip(c).take(0) =~= strip(b).take(0));
            assert(strip(c).skip(0) =~= strip(c));
            assert(strip(b).skip(0) + c =~= c);
        }
    }
}

/// In any state, the decoder is not misled by a buffer that arrives in
/// parts.
proof fn lemma_step_append(state: Option<usize>, b: Seq<u8>, c: Seq<u8>)
    ensures
        resumes(decode_step(state, b), decode_step(state, b + c), state, c),
{
    match state {
        Some(n) => {
            lemma_body_append(n, b, c);
        },
        None => {
            let head = strip(b);
            let end = position_of(head, CR) as int;
            lemma_strip_twice(b);
            lemma_strip_append(b, c);
            lemma_position_of(head, CR);
            if !has_prefix(head) || end >= head.len() {
                lemma_strip_append_alike(b, head, c);
                lemma_step_alike(None, b + c, head + c);
            } else {
                let all = head + c;
                lemma_line_end_after_prefix(head);
                assert(strip(b + c) == all);
                assert(all.take(PREFIX_LEN as int) =~= head.take(PREFIX_LEN as int));
                assert forall|i: int| 0 <= i < end implies #[trigger] all[i] != CR by {
                    assert(all[i] == head[i]);
                }
                assert(all[end] == head[end]);
                lemma_position_is(all, CR, end);
                assert(all.subrange(PREFIX_LEN as int, end + 1) =~= head.subrange(
                    PREFIX_LEN as int,
                    end + 1,
                ));
                assert(all.skip(end + 1) =~= head.skip(end + 1) + c);
                match declared_length(head.subrange(PREFIX_LEN as int, end + 1)) {
                    None => {},
                    Some(n) => {
                        lemma_body_append(n, head.skip(end + 1), c);
                    },
                }
            }
        },
    }
}

/// A session that ended without an error ended on a step that wanted more,
/// and the same step wants more again.
proof fn lemma_drained_waits(state: Option<usize>, buf: Seq<u8>)
    requires
        !drain(state, buf).failed,
    ensures
        decode_step(drain(state, buf).state, drain(state, buf).rest).found is NeedMore,
    decreases buf.len(), (if state is Some { 1int } else { 0int }),
{
    let st = decode_step(state, buf);
    lemma_strip_twice(buf);
    match st.found {
        Decoded::NeedMore => {
            match state {
                Some(n) => {},
                None => {
                    let head = strip(buf);
                    let end = position_of(head, CR) as int;
                    lemma_strip_twice(head);
                    if has_prefix(head) && end < head.len() {
                        lemma_strip_twice(head.skip(end + 1));
                    }
                },
            }
        },
        Decoded::BadLength => {},
        Decoded::Message(body) => {
            lemma_step_shrinks(state, buf);
            lemma_drained_waits(st.state, st.rest);
        },
    }
}

/// Draining a buffer with more behind it is draining the buffer, putting
/// the rest behind what is left, and draining again. An error that the
/// buffer alone runs into is the error of the whole.
proof fn lemma_drain_append(state: Option<usize>, buf: Seq<u8>, c: Seq<u8>)
    ensures
        drain(state, buf).failed ==> drain(state, buf + c).failed && drain(state, buf + c).messages
            == drain(state, buf).messages,
        !drain(state, buf).failed ==> alike(
            drain(state, buf + c),
            after(
                drain(state, buf).messages,
                drain(drain(state, buf).state, drain(state, buf).rest + c),
            ),
        ),
    decreases buf.len(), (if state is Some { 1int } else { 0int }),
{
    let st = decode_step(state, buf);
    let both = decode_step(state, buf + c);
    let d = drain(state, buf);
    let full = drain(state, buf + c);
    lemma_step_append(state, buf, c);
    match st.found {
        Decoded::NeedMore => {
            lemma_drain_of_alike_steps(state, buf + c, st.state, st.rest + c);
            let again = drain(st.state, st.rest + c);
            assert(after(d.messages, again).messages =~= again.messages);
        },
        Decoded::BadLength => {},
        Decoded::Message(body) => {
            if valid_utf8(body) {
                lemma_step_shrinks(state, buf);
                lemma_step_shrinks(state, buf + c);
                let later = drain(None, st.rest);
                let text = seq![decode_utf8(body)];
                assert(d == after(text, later));
                assert(full == after(text, drain(None, both.rest)));
                lemma_drain_header_same(both.rest, st.rest + c);
                lemma_drain_append(None, st.rest, c);
                if !later.failed {
                    let again = drain(later.state, later.rest + c);
                    assert(after(d.messages, again).messages =~= text + after(
                        later.messages,
                        again,
                    ).messages);
                }
            }
        },
    }
}

/// Chunk by chunk or all at once, a decoder that waits gives the same
/// messages and ends alike.
proof fn lemma_feed(state: Option<usize>, b1: Seq<u8>, b2: Seq<u8>, chunks: Seq<Seq<u8>>)
    requires
        strip(b1) == strip(b2),
        decode_step(state, b1).found is NeedMore,
    ensures
        feed(state, b1, chunks).messages == drain(state, b2 + joined(chunks)).messages,
        feed(state, b1, chunks).failed == drain(state, b2 + joined(chunks)).failed,
    decreases chunks.len(),
{
    if chunks.len() == 0 {
        assert(b2 + joined(chunks) =~= b2);
        lemma_drain_alike(state, b1, b2);
    } else {
        let c0 = chunks[0];
        let rest = chunks.drop_first();
        let d0 = drain(state, b1 + c0);
        let d2 = drain(state, b2 + c0);
        lemma_strip_append_alike(b1, b2, c0);
        lemma_drain_alike(state, b1 + c0, b2 + c0);
        assert(b2 + joined(chunks) =~= (b2 + c0) + joined(rest));
        lemma_drain_append(state, b2 + c0, joined(rest));
        if !d0.failed {
            lemma_drained_waits(state, b1 + c0);
            lemma_feed(d0.state, d0.rest, d2.rest, rest);
        }
    }
}

/// The frames of the bodies `bodies`, one behind the other.
pub open spec fn frames(bodies: Seq<Seq<u8>>) -> Seq<u8>
    decreases bodies.len(),
{
    if bodies.len() == 0 {
        Seq::empty()
    } else {
        frame(bodies[0]) + frames(bodies.drop_first())
    }
}

/// The texts that the bodies `bodies` encode.
pub open spec fn texts(bodies: Seq<Seq<u8>>) -> Seq<Seq<char>> {
    Seq::new(bodies.len(), |i: int| decode_utf8(bodies[i]))
}

/// A body that the decoder gives back as it was written: UTF-8, of a length
/// that a `usize` holds, and without a carriage return or a line feed at
/// its start, which the decoder would take for padding.
pub open spec fn decodable(body: Seq<u8>) -> bool {
    &&& valid_utf8(body)
    &&& body.len() <= usize::MAX
    &&& body.len() > 0 ==> body[0] != CR && body[0] != LF
}

/// A run of frames decodes to the texts of its bodies, in their order, and
/// nothing is left in the buffer.
pub proof fn lemma_frames_decode(bodies: Seq<Seq<u8>>)
    requires
        forall|i: int| 0 <= i < bodies.len() ==> decodable(#[trigger] bodies[i]),
    ensures
        drain(None, frames(bodies)) == (Drained {
            state: None,
            rest: Seq::empty(),
            messages: texts(bodies),
            failed: false,
        }),
    decreases bodies.len(),
{
    let empty = Seq::<u8>::empty();
    if bodies.len() == 0 {
        lemma_strip_twice(empty);
        assert(strip(empty) == empty);
        assert(!has_prefix(empty));
        assert(texts(bodies) =~= Seq::<Seq<char>>::empty());
    } else {
        let first = bodies[0];
        let rest = bodies.drop_first();
        let more = frames(rest);
        assert(decodable(first));
        assert forall|i: int| 0 <= i < rest.len() implies decodable(#[trigger] rest[i]) by {
            assert(rest[i] == bodies[i + 1]);
        }
        if rest.len() > 0 {
            assert(more[0] == header_prefix()[0]);
        }
        lemma_decode_frame(first, more);
        lemma_step_shrinks(None, frames(bodies));
        lemma_frames_decode(rest);
        assert(texts(bodies) =~= seq![decode_utf8(first)] + texts(rest));
    }
}

/// However a stream is cut into chunks, the decoder gives the messages that
/// it gives for the stream in one piece, and fails where it fails for the
/// stream in one piece.
pub proof fn lemma_chunks_do_not_matter(chunks: Seq<Seq<u8>>)
    ensures
        feed(None, Seq::empty(), chunks).messages == feed(
            None,
            Seq::empty(),
            seq![joined(chunks)],
        ).messages,
        feed(None, Seq::empty(), chunks).failed == feed(
            None,
            Seq::empty(),
            seq![joined(chunks)],
        ).failed,
{
    let empty = Seq::<u8>::empty();
    let whole = seq![joined(chunks)];
    assert(strip(empty) == empty) by {
        lemma_strip_twice(empty);
    }
    lemma_feed(None, empty, empty, chunks);
    lemma_feed(None, empty, empty, whole);
    assert(whole.drop_first() =~= Seq::<Seq<u8>>::empty());
    assert(joined(whole) =~= joined(chunks)) by {
        assert(joined(whole.drop_first()) =~= empty);
    }
}

/// However a run of frames is cut into chunks, in the middle of a header
/// or of a body, the decoder gives the texts of all its bodies, in their
/// order, and does not fail.
pub proof fn lemma_chunked_frames_decode(chunks: Seq<Seq<u8>>, bodies: Seq<Seq<u8>>)
    requires
        joined(chunks) == frames(bodies),
        forall|i: int| 0 <= i < bodies.len() ==> decodable(#[trigger] bodies[i]),
    ensures
        feed(None, Seq::empty(), chunks).messages == texts(bodies),
        !feed(None, Seq::empty(), chunks).failed,
{
    let empty = Seq::<u8>::empty();
    assert(strip(empty) == empty) by {
        lemma_strip_twice(empty);
    }
    lemma_feed(None, empty, empty, chunks);
    assert(empty + joined(chunks) =~= frames(bodies));
    lemma_frames_decode(bodies);
}

} // verus!
