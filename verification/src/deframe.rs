//! The decoder as a state machine over byte sequences: what it holds, how one
//! byte moves it, and what a run of bytes makes it hand out.

use vstd::prelude::*;
use crate::framing::{frame_len, lemma_unescaped_sync_free, sync_free, unescaped, HEADER_LEN, SYNC};

verus! {

/// A frame as the decoder hands it on: its type byte and its payload, the
/// escapes undone.
pub struct RawFrame {
    pub message_type: u8,
    pub payload: Seq<u8>,
}

/// What a decoder may hold between two bytes: nothing while it looks for a
/// sync byte; a lone sync byte while it waits for the type byte; or the
/// header of a known type and less payload than the type asks for, with no
/// sync byte behind the first.
pub open spec fn in_progress(pending: Seq<u8>) -> bool {
    ||| pending.len() == 0
    ||| pending =~= seq![SYNC]
    ||| {
        &&& pending.len() >= 2
        &&& pending[0] == SYNC
        &&& frame_len(pending[1]) matches Some(n)
        &&& pending.len() < n
        &&& sync_free(pending.skip(1))
    }
}

/// The outcome of handing one byte to the decoder: what it holds afterwards
/// and the frame that the byte completed, if it completed one.
pub struct Step {
    pub pending: Seq<u8>,
    pub frame: Option<RawFrame>,
}

/// How the decoder moves on one byte.
///
/// Holding nothing, it keeps a sync byte and drops any other. Holding the sync
/// byte alone, it takes the byte as the frame's type: a known type is kept, any
/// other byte (a sync byte too) makes it drop everything. Holding a header, a
/// sync byte makes it drop everything and start over from that byte; any
/// other byte is added, and when that fills the frame to the length of its
/// type, the payload region is unescaped and handed on, and nothing is kept.
pub open spec fn step(pending: Seq<u8>, byte: u8) -> Step {
    if pending.len() == 0 {
        Step { pending: if byte == SYNC { seq![SYNC] } else { Seq::empty() }, frame: None }
    } else if pending.len() == 1 {
        Step {
            pending: if frame_len(byte) is Some { pending.push(byte) } else { Seq::empty() },
            frame: None,
        }
    } else if byte == SYNC {
        Step { pending: seq![SYNC], frame: None }
    } else if frame_len(pending[1]) == Some(pending.len() + 1) {
        Step {
            pending: Seq::empty(),
            frame: match unescaped(pending.push(byte).skip(HEADER_LEN as int)) {
                Some(payload) => Some(RawFrame { message_type: pending[1], payload }),
                None => None,
            },
        }
    } else {
        Step { pending: pending.push(byte), frame: None }
    }
}

/// What the decoder holds after it took every byte of `input` in turn,
/// starting from `pending`.
pub open spec fn run(pending: Seq<u8>, input: Seq<u8>) -> Seq<u8>
    decreases input.len(),
{
    if input.len() == 0 {
        pending
    } else {
        step(run(pending, input.drop_last()), input.last()).pending
    }
}

/// The frames that the decoder hands out while it takes every byte of `input`
/// in turn, starting from `pending`, in the order in which they are completed.
pub open spec fn frames(pending: Seq<u8>, input: Seq<u8>) -> Seq<RawFrame>
    decreases input.len(),
{
    if input.len() == 0 {
        Seq::empty()
    } else {
        let earlier = frames(pending, input.drop_last());
        match step(run(pending, input.drop_last()), input.last()).frame {
            Some(frame) => earlier.push(frame),
            None => earlier,
        }
    }
}

/// A frame of a known type whose payload has the length that the type asks
/// for and holds no sync byte.
pub open spec fn well_framed(frame: RawFrame) -> bool {
    &&& frame_len(frame.message_type) == Some((frame.payload.len() + HEADER_LEN) as nat)
    &&& sync_free(frame.payload)
}

/// One byte keeps the decoder within `in_progress`. It completes a frame
/// exactly when it is no sync byte and fills a header's frame to the length of
/// its type; the frame is then the header's type with the bytes that followed
/// the header, unchanged.
pub proof fn lemma_step(pending: Seq<u8>, byte: u8)
    requires
        in_progress(pending),
    ensures
        in_progress(step(pending, byte).pending),
        step(pending, byte).frame is Some <==> pending.len() >= 2 && byte != SYNC && frame_len(
            pending[1],
        ) == Some(pending.len() + 1),
        step(pending, byte).frame matches Some(frame) ==> frame == (RawFrame {
            message_type: pending[1],
            payload: pending.skip(HEADER_LEN as int).push(byte),
        }) && well_framed(frame),
{
    if pending.len() >= 2 && byte != SYNC {
        let grown = pending.push(byte);
        assert forall|i: int| 0 <= i < grown.skip(1).len() implies grown.skip(1)[i] != SYNC by {
            if i < pending.skip(1).len() {
                assert(grown.skip(1)[i] == pending.skip(1)[i]);
            }
        }
        if frame_len(pending[1]) == Some(pending.len() + 1) {
            let region = grown.skip(HEADER_LEN as int);
            assert forall|i: int| 0 <= i < region.len() implies region[i] != SYNC by {
                assert(region[i] == grown.skip(1)[i + 1]);
            }
            lemma_unescaped_sync_free(region);
            assert(region =~= pending.skip(HEADER_LEN as int).push(byte));
        }
    }
}

/// Bytes taken in two parts move the decoder as the same bytes taken at once,
/// and the frames of the two parts, in order, are those of the whole.
pub proof fn lemma_run_split(pending: Seq<u8>, first: Seq<u8>, second: Seq<u8>)
    ensures
        run(pending, first + second) == run(run(pending, first), second),
        frames(pending, first + second) == frames(pending, first) + frames(
            run(pending, first),
            second,
        ),
    decreases second.len(),
{
    if second.len() == 0 {
        assert(first + second =~= first);
        assert(frames(pending, first) + Seq::<RawFrame>::empty() =~= frames(pending, first));
    } else {
        let whole = first + second;
        assert(whole.drop_last() =~= first + second.drop_last());
        assert(whole.last() == second.last());
        lemma_run_split(pending, first, second.drop_last());
        let earlier = frames(run(pending, first), second.drop_last());
        if let Some(frame) = step(run(pending, whole.drop_last()), whole.last()).frame {
            assert((frames(pending, first) + earlier).push(frame) =~= frames(pending, first)
                + earlier.push(frame));
        }
    }
}

/// Whatever bytes come, the decoder stays within `in_progress`, and every
/// frame that it hands out is of a known type and has the payload length of
/// that type: never a shorter one.
pub proof fn lemma_frames_well_framed(pending: Seq<u8>, input: Seq<u8>)
    requires
        in_progress(pending),
    ensures
        in_progress(run(pending, input)),
        forall|i: int| 0 <= i < frames(pending, input).len() ==> well_framed(
            #[trigger] frames(pending, input)[i],
        ),
    decreases input.len(),
{
    if input.len() > 0 {
        lemma_frames_well_framed(pending, input.drop_last());
        lemma_step(run(pending, input.drop_last()), input.last());
        let earlier = frames(pending, input.drop_last());
        assert forall|i: int| 0 <= i < frames(pending, input).len() implies well_framed(
            #[trigger] frames(pending, input)[i],
        ) by {
            if i < earlier.len() {
                assert(frames(pending, input)[i] == earlier[i]);
            }
        }
    }
}

/// Bytes other than the sync byte that reach a decoder holding nothing are
/// dropped: what follows them is decoded as if they had not been there.
pub proof fn lemma_noise_dropped(noise: Seq<u8>, rest: Seq<u8>)
    requires
        sync_free(noise),
    ensures
        run(Seq::empty(), noise + rest) == run(Seq::empty(), rest),
        frames(Seq::empty(), noise + rest) == frames(Seq::empty(), rest),
{
    lemma_noise_leaves_nothing(noise);
    lemma_run_split(Seq::empty(), noise, rest);
    assert(Seq::<RawFrame>::empty() + frames(Seq::empty(), rest) =~= frames(Seq::empty(), rest));
}

proof fn lemma_noise_leaves_nothing(noise: Seq<u8>)
    requires
        sync_free(noise),
    ensures
        run(Seq::empty(), noise) == Seq::<u8>::empty(),
        frames(Seq::empty(), noise) == Seq::<RawFrame>::empty(),
    decreases noise.len(),
{
    if noise.len() > 0 {
        lemma_noise_leaves_nothing(noise.drop_last());
    }
}

/// A byte that is no frame type, where the type byte is due, completes no
/// frame and leaves the decoder holding nothing: what follows is decoded as by
/// a decoder that looks for the next sync byte.
pub proof fn lemma_unknown_type_dropped(byte: u8, rest: Seq<u8>)
    requires
        frame_len(byte) is None,
    ensures
        step(seq![SYNC], byte).frame is None,
        run(seq![SYNC], seq![byte] + rest) == run(Seq::empty(), rest),
        frames(seq![SYNC], seq![byte] + rest) == frames(Seq::empty(), rest),
{
    let one = seq![byte];
    assert(one.drop_last() =~= Seq::<u8>::empty());
    assert(run(seq![SYNC], one.drop_last()) == seq![SYNC]);
    assert(run(seq![SYNC], one) == Seq::<u8>::empty());
    assert(frames(seq![SYNC], one.drop_last()) == Seq::<RawFrame>::empty());
    assert(frames(seq![SYNC], one) == Seq::<RawFrame>::empty());
    lemma_run_split(seq![SYNC], one, rest);
    assert(Seq::<RawFrame>::empty() + frames(Seq::empty(), rest) =~= frames(Seq::empty(), rest));
}

/// A whole frame of a known type whose payload holds no sync byte is handed
/// out as it was sent: one frame, with that type and that payload, after
/// which the decoder holds nothing. This holds wherever the frame arrives,
/// except where a type byte is due (there the frame's sync byte is read as a
/// type, and the frame is lost).
pub proof fn lemma_frame_decoded(pending: Seq<u8>, message_type: u8, payload: Seq<u8>)
    requires
        in_progress(pending),
        pending.len() != 1,
        frame_len(message_type) == Some((payload.len() + HEADER_LEN) as nat),
        sync_free(payload),
    ensures
        run(pending, seq![SYNC, message_type] + payload) == Seq::<u8>::empty(),
        frames(pending, seq![SYNC, message_type] + payload) == seq![
            RawFrame { message_type, payload },
        ],
{
    let header = seq![SYNC, message_type];
    assert(header.drop_last() =~= seq![SYNC]);
    assert(seq![SYNC].drop_last() =~= Seq::<u8>::empty());
    assert(run(pending, seq![SYNC].drop_last()) == pending);
    assert(run(pending, seq![SYNC]) =~= seq![SYNC]);
    assert(frames(pending, seq![SYNC].drop_last()) == Seq::<RawFrame>::empty());
    assert(frames(pending, seq![SYNC]) == Seq::<RawFrame>::empty());
    assert(run(pending, header) =~= header);
    assert(frames(pending, header) == Seq::<RawFrame>::empty());
    lemma_run_split(pending, header, payload);

    let body = payload.drop_last();
    assert(body =~= payload.take(payload.len() - 1));
    lemma_payload_gathered(message_type, payload, body.len());
    let held = header + body;
    assert(forall|i: int| 0 <= i < held.skip(1).len() ==> held.skip(1)[i] != SYNC) by {
        assert forall|i: int| 0 <= i < held.skip(1).len() implies held.skip(1)[i] != SYNC by {
            if i > 0 {
                assert(held.skip(1)[i] == payload[i - 1]);
            }
        }
    }
    lemma_step(held, payload.last());
    assert(held.skip(HEADER_LEN as int).push(payload.last()) =~= payload);
    assert(Seq::<RawFrame>::empty() + seq![RawFrame { message_type, payload }] =~= seq![
        RawFrame { message_type, payload },
    ]);
    assert(Seq::<RawFrame>::empty().push(RawFrame { message_type, payload }) =~= seq![
        RawFrame { message_type, payload },
    ]);
}

/// While a payload is not yet whole, the decoder holds the header and the
/// payload bytes that came, and has handed out nothing.
proof fn lemma_payload_gathered(message_type: u8, payload: Seq<u8>, count: nat)
    requires
        frame_len(message_type) == Some((payload.len() + HEADER_LEN) as nat),
        sync_free(payload),
        count < payload.len(),
    ensures
        run(seq![SYNC, message_type], payload.take(count as int)) == seq![SYNC, message_type]
            + payload.take(count as int),
        frames(seq![SYNC, message_type], payload.take(count as int)) == Seq::<RawFrame>::empty(),
    decreases count,
{
    let header = seq![SYNC, message_type];
    let taken = payload.take(count as int);
    if count == 0 {
        assert(header + taken =~= header);
    } else {
        lemma_payload_gathered(message_type, payload, (count - 1) as nat);
        assert(taken.drop_last() =~= payload.take(count - 1));
        assert(taken.last() == payload[count - 1]);
        assert((header + payload.take(count - 1)).push(taken.last()) =~= header + taken);
    }
}

} // verus!
