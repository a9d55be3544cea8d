//! The decoder run over a whole byte stream, and the laws that tie it to the
//! encoder: frames round-trip, keep-alives vanish, and the way the bytes are
//! split into reads does not change the messages that come out.
use vstd::prelude::*;

use crate::peer::frame_bytes;
use crate::peer::frame_step;
use crate::peer::shift_step;
use crate::peer::tag_byte;
use crate::peer::tag_of_byte;
use crate::peer::FrameError;
use crate::peer::FrameStep;
use crate::peer::MessageTag;
use crate::peer::MAX_FRAME_LEN;
use crate::wire::be32_at;
use crate::wire::be32_bytes;
use crate::wire::lemma_be32_round_trip;

verus! {

/// The messages decoded from a buffer, what is left of it, and whether the
/// stream was refused.
pub struct Drained {
    pub messages: Seq<(MessageTag, Seq<u8>)>,
    pub rest: Seq<u8>,
    pub failed: bool,
}

/// The step's bytes fit in the stream it was taken from.
pub proof fn lemma_frame_step_bounds(s: Seq<u8>)
    ensures
        frame_step(s) matches FrameStep::Incomplete { skipped } ==> skipped <= s.len(),
        frame_step(s) matches FrameStep::Complete { consumed, .. } ==> 5 <= consumed <= s.len(),
    decreases s.len(),
{
    if s.len() >= 4 && be32_at(s, 0) == 0 {
        lemma_frame_step_bounds(s.skip(4));
    }
}

/// Decodes every whole frame of `s`, in order, as a reader that empties its
/// buffer does.
pub open spec fn drain(s: Seq<u8>) -> Drained
    decreases s.len(),
    via drain_decreases
{
    match frame_step(s) {
        FrameStep::Incomplete { skipped } => Drained {
            messages: Seq::empty(),
            rest: s.skip(skipped as int),
            failed: false,
        },
        FrameStep::Complete { tag, payload, consumed } => {
            let d = drain(s.skip(consumed as int));
            Drained { messages: seq![(tag, payload)] + d.messages, rest: d.rest, failed: d.failed }
        },
        FrameStep::Failed { .. } => Drained {
            messages: Seq::empty(),
            rest: Seq::empty(),
            failed: true,
        },
    }
}

#[via_fn]
proof fn drain_decreases(s: Seq<u8>) {
    lemma_frame_step_bounds(s);
}

/// What a reader holds after more bytes `b` arrived in the state `d`: it
/// decodes what the new buffer holds. A refused stream stays refused.
pub open spec fn feed(d: Drained, b: Seq<u8>) -> Drained {
    if d.failed {
        d
    } else {
        let e = drain(d.rest + b);
        Drained { messages: d.messages + e.messages, rest: e.rest, failed: e.failed }
    }
}

/// Feeds the bytes of `s` to the reader one at a time.
pub open spec fn feed_each_byte(d: Drained, s: Seq<u8>) -> Drained
    decreases s.len(),
{
    if s.len() == 0 {
        d
    } else {
        feed_each_byte(feed(d, seq![s[0]]), s.skip(1))
    }
}

/// The state of a reader that has read nothing yet.
pub open spec fn fresh_reader() -> Drained {
    Drained { messages: Seq::empty(), rest: Seq::empty(), failed: false }
}

proof fn lemma_shift_zero(f: FrameStep)
    ensures
        shift_step(0, f) == f,
{
}

proof fn lemma_shift_shift(j: nat, k: nat, f: FrameStep)
    ensures
        shift_step(k, shift_step(j, f)) == shift_step(j + k, f),
{
}

/// The step taken on a buffer is kept, or continued, when more bytes follow it.
pub proof fn lemma_frame_step_extend(a: Seq<u8>, b: Seq<u8>)
    ensures
        frame_step(a) is Complete ==> frame_step(a + b) == frame_step(a),
        frame_step(a) is Failed ==> frame_step(a + b) == frame_step(a),
        frame_step(a) matches FrameStep::Incomplete { skipped } ==> skipped <= a.len()
            && frame_step(a + b) == shift_step(skipped, frame_step(a.skip(skipped as int) + b)),
    decreases a.len(),
{
    let s = a + b;
    lemma_frame_step_bounds(a);
    if a.len() < 4 {
        assert(a.skip(0) + b =~= s);
        lemma_shift_zero(frame_step(s));
    } else {
        let n = be32_at(a, 0);
        assert(be32_at(s, 0) == n);
        if n == 0 {
            let a4 = a.skip(4);
            assert(s.skip(4) =~= a4 + b);
            lemma_frame_step_extend(a4, b);
            match frame_step(a4) {
                FrameStep::Incomplete { skipped } => {
                    assert(a4.skip(skipped as int) =~= a.skip(skipped + 4int));
                    lemma_shift_shift(skipped, 4, frame_step(a4.skip(skipped as int) + b));
                },
                _ => {},
            }
        } else if n > MAX_FRAME_LEN {
        } else if a.len() < 4 + n {
            assert(a.skip(0) + b =~= s);
            lemma_shift_zero(frame_step(s));
        } else {
            assert(s[4] == a[4]);
            assert(s.subrange(5, 4 + n as int) =~= a.subrange(5, 4 + n as int));
        }
    }
}

proof fn lemma_drain_after_skip(s: Seq<u8>, k: nat)
    requires
        k <= s.len(),
        frame_step(s) == shift_step(k, frame_step(s.skip(k as int))),
    ensures
        drain(s) == drain(s.skip(k as int)),
{
    let t = s.skip(k as int);
    lemma_frame_step_bounds(t);
    match frame_step(t) {
        FrameStep::Incomplete { skipped } => {
            assert(t.skip(skipped as int) =~= s.skip(skipped + k as int));
        },
        FrameStep::Complete { consumed, .. } => {
            assert(t.skip(consumed as int) =~= s.skip(consumed + k as int));
        },
        FrameStep::Failed { .. } => {},
    }
}

/// Decoding a buffer at once is decoding its front, then what is left of it
/// followed by the rest.
pub proof fn lemma_drain_split(a: Seq<u8>, b: Seq<u8>)
    ensures
        drain(a + b) == feed(drain(a), b),
    decreases a.len(),
{
    lemma_frame_step_bounds(a);
    lemma_frame_step_extend(a, b);
    match frame_step(a) {
        FrameStep::Incomplete { skipped } => {
            let t = a.skip(skipped as int) + b;
            assert((a + b).skip(skipped as int) =~= t);
            lemma_drain_after_skip(a + b, skipped);
            assert(Seq::<(MessageTag, Seq<u8>)>::empty() + drain(t).messages =~= drain(t).messages);
        },
        FrameStep::Complete { tag, payload, consumed } => {
            let a2 = a.skip(consumed as int);
            assert((a + b).skip(consumed as int) =~= a2 + b);
            lemma_drain_split(a2, b);
            let d = drain(a2);
            if !d.failed {
                let e = drain(d.rest + b);
                assert(seq![(tag, payload)] + (d.messages + e.messages) =~= (seq![(tag, payload)]
                    + d.messages) + e.messages);
            }
        },
        FrameStep::Failed { .. } => {},
    }
}

proof fn lemma_feed_each_byte_from(a: Seq<u8>, s: Seq<u8>)
    ensures
        feed_each_byte(drain(a), s) == drain(a + s),
    decreases s.len(),
{
    if s.len() == 0 {
        assert(a + s =~= a);
    } else {
        lemma_drain_split(a, seq![s[0]]);
        lemma_feed_each_byte_from(a + seq![s[0]], s.skip(1));
        assert(a + seq![s[0]] + s.skip(1) =~= a + s);
    }
}

/// Feeding the decoder one byte at a time yields the same messages, the same
/// leftover bytes and the same refusal as feeding it the whole buffer at once.
pub proof fn lemma_byte_at_a_time(s: Seq<u8>)
    ensures
        feed_each_byte(fresh_reader(), s) == drain(s),
{
    let e = Seq::<u8>::empty();
    assert(frame_step(e) == FrameStep::Incomplete { skipped: 0 });
    assert(e.skip(0) =~= e);
    assert(drain(e) == fresh_reader());
    lemma_feed_each_byte_from(e, s);
    assert(e + s =~= s);
}

/// Encoding a message whose frame fits, then decoding, gives the message back,
/// whatever follows it in the stream.
pub proof fn lemma_frame_round_trip(tag: MessageTag, payload: Seq<u8>, rest: Seq<u8>)
    requires
        payload.len() + 1 <= MAX_FRAME_LEN,
    ensures
        frame_step(frame_bytes(tag, payload) + rest) == (FrameStep::Complete {
            tag,
            payload,
            consumed: payload.len() + 5,
        }),
{
    let n = (payload.len() + 1) as u32;
    let s = frame_bytes(tag, payload) + rest;
    lemma_be32_round_trip(n);
    assert(be32_at(s, 0) == be32_at(be32_bytes(n), 0));
    assert(s[4] == tag_byte(tag));
    assert(tag_of_byte(tag_byte(tag)) == Some(tag));
    assert(s.subrange(5, 4 + n as int) =~= payload);
}

/// Keep-alive frames before a message are dropped: the stream yields the
/// message alone.
pub proof fn lemma_keep_alive_dropped(tag: MessageTag, payload: Seq<u8>)
    requires
        payload.len() + 1 <= MAX_FRAME_LEN,
    ensures
        drain(seq![0u8, 0u8, 0u8, 0u8] + frame_bytes(tag, payload)) == (Drained {
            messages: seq![(tag, payload)],
            rest: Seq::empty(),
            failed: false,
        }),
{
    let f = frame_bytes(tag, payload);
    let s = seq![0u8, 0u8, 0u8, 0u8] + f;
    assert(be32_at(s, 0) == 0);
    assert(s.skip(4) =~= f + Seq::empty());
    lemma_frame_round_trip(tag, payload, Seq::empty());
    lemma_be32_round_trip((payload.len() + 1) as u32);
    assert(frame_step(s.skip(4)) == FrameStep::Complete {
        tag,
        payload,
        consumed: payload.len() + 5,
    });
    assert(frame_step(s) == FrameStep::Complete { tag, payload, consumed: payload.len() + 9 });
    let e = Seq::<u8>::empty();
    assert(s.skip((payload.len() + 9) as int) =~= e);
    assert(frame_step(e) == FrameStep::Incomplete { skipped: 0 });
    assert(e.skip(0) =~= e);
    assert(drain(e) == fresh_reader());
    assert(seq![(tag, payload)] + Seq::<(MessageTag, Seq<u8>)>::empty() =~= seq![(tag, payload)]);
}

/// A frame whose length prefix exceeds `MAX_FRAME_LEN` is refused as soon as
/// the prefix is read, whatever follows it.
pub proof fn lemma_oversize_refused(s: Seq<u8>)
    requires
        s.len() >= 4,
        be32_at(s, 0) > MAX_FRAME_LEN,
    ensures
        frame_step(s) == (FrameStep::Failed {
            error: FrameError::FrameTooLarge(be32_at(s, 0) as usize),
        }),
{
}

} // verus!
