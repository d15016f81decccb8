//! The Beast decoder: it takes the bytes of a stream one at a time and hands
//! out the frames they hold.

use vstd::prelude::*;
use vstd::slice::slice_subrange;
use crate::deframe::{frames, in_progress, lemma_step, run, step, well_framed, RawFrame};
use crate::framing::{frame_length, unescape, HEADER_LEN, SYNC};

verus! {

/// A Mode S message as it came off the wire: the frame's type byte and its
/// payload, escapes undone.
#[derive(Debug)]
pub struct ModeSMessage {
    pub message_type: u8,
    pub payload: Vec<u8>,
}

impl View for ModeSMessage {
    type V = RawFrame;

    open spec fn view(&self) -> RawFrame {
        RawFrame { message_type: self.message_type, payload: self.payload@ }
    }
}

/// The bytes of the frame under way. Between two calls they are always
/// `in_progress`.
struct Accumulator {
    bytes: Vec<u8>,
}

impl Accumulator {
    #[verifier::type_invariant]
    spec fn inv(&self) -> bool {
        in_progress(self.bytes@)
    }

    fn new() -> (fresh: Self)
        ensures
            fresh.bytes@ == Seq::<u8>::empty(),
    {
        Accumulator { bytes: Vec::with_capacity(1024) }
    }

    fn accept(&mut self, byte: u8) -> (emitted: Option<ModeSMessage>)
        ensures
            in_progress(old(self).bytes@),
            in_progress(final(self).bytes@),
            final(self).bytes@ == step(old(self).bytes@, byte).pending,
            match emitted {
                Some(message) => step(old(self).bytes@, byte).frame == Some(message@),
                None => step(old(self).bytes@, byte).frame is None,
            },
    {
        proof {
            use_type_invariant(&*self);
        }
        // The bytes are worked on outside `self`: for a moment, when its last
        // byte arrives, a frame is as long as its type asks.
        let mut bytes: Vec<u8> = Vec::new();
        core::mem::swap(&mut self.bytes, &mut bytes);
        let held: usize = bytes.len();
        let mut emitted: Option<ModeSMessage> = None;
        if held == 0 {
            if byte == SYNC {
                bytes.push(byte);
            }
        } else if held == 1 {
            match frame_length(byte) {
                Some(_) => bytes.push(byte),
                None => bytes.clear(),
            }
        } else if byte == SYNC {
            bytes.clear();
            bytes.push(byte);
        } else {
            let message_type: u8 = bytes[1];
            let ghost before = bytes@;
            bytes.push(byte);
            match frame_length(message_type) {
                Some(total) if held + 1 < total => {
                    assert forall|i: int| 0 <= i < bytes@.skip(1).len() implies bytes@.skip(1)[i]
                        != SYNC by {
                        if i < before.skip(1).len() {
                            assert(bytes@.skip(1)[i] == before.skip(1)[i]);
                        }
                    }
                },
                _ => {
                    emitted = match unescape(slice_subrange(bytes.as_slice(), HEADER_LEN, bytes.len())) {
                        Some(payload) => Some(ModeSMessage { message_type, payload }),
                        None => None,
                    };
                    bytes.clear();
                },
            }
        }
        self.bytes = bytes;
        emitted
    }
}

/// Decoder state for one stream, kept together with the stream's reader.
///
/// The decoder never reads: whoever owns it takes a byte from the reader and
/// hands it to `accept`.
pub struct Beast<R> {
    reader: R,
    frame: Accumulator,
}

impl<R> Beast<R> {
    /// The bytes of the frame under way.
    pub closed spec fn pending(&self) -> Seq<u8> {
        self.frame.bytes@
    }

    /// The reader that this decoder was made for.
    pub closed spec fn source(&self) -> R {
        self.reader
    }

    /// A decoder for `reader` that holds nothing yet.
    pub fn new(reader: R) -> (decoder: Self)
        ensures
            decoder.pending() == Seq::<u8>::empty(),
            decoder.source() == reader,
    {
        Beast { reader, frame: Accumulator::new() }
    }

    /// The reader, to take the next byte from.
    pub fn reader_mut(&mut self) -> (reader: &mut R)
        ensures
            *reader == old(self).source(),
            final(self).source() == *final(reader),
            final(self).pending() == old(self).pending(),
            in_progress(final(self).pending()),
    {
        proof {
            use_type_invariant(&self.frame);
        }
        &mut self.reader
    }

    /// Takes the next byte of the stream. Returns the message that the byte
    /// completed, or `None` while the frame under way needs more bytes.
    pub fn accept(&mut self, byte: u8) -> (emitted: Option<ModeSMessage>)
        ensures
            final(self).pending() == step(old(self).pending(), byte).pending,
            in_progress(final(self).pending()),
            match emitted {
                Some(message) => step(old(self).pending(), byte).frame == Some(message@),
                None => step(old(self).pending(), byte).frame is None,
            },
            emitted matches Some(message) ==> well_framed(message@),
            final(self).source() == old(self).source(),
    {
        let emitted = self.frame.accept(byte);
        proof {
            lemma_step(old(self).pending(), byte);
        }
        emitted
    }

    /// Takes every byte of `input` in turn. Returns the messages that they
    /// completed, in the order in which they were completed.
    pub fn decode(&mut self, input: &[u8]) -> (messages: Vec<ModeSMessage>)
        ensures
            final(self).pending() == run(old(self).pending(), input@),
            in_progress(final(self).pending()),
            messages@.map_values(|message: ModeSMessage| message@) == frames(
                old(self).pending(),
                input@,
            ),
            final(self).source() == old(self).source(),
    {
        let ghost start = self.pending();
        let ghost source = self.source();
        let mut messages: Vec<ModeSMessage> = Vec::new();
        let mut i: usize = 0;
        while i < input.len()
            invariant
                i <= input@.len(),
                self.pending() == run(start, input@.take(i as int)),
                messages@.map_values(|message: ModeSMessage| message@) == frames(
                    start,
                    input@.take(i as int),
                ),
                self.source() == source,
            decreases input@.len() - i,
        {
            let ghost seen = messages@.map_values(|message: ModeSMessage| message@);
            proof {
                assert(input@.take(i + 1).drop_last() =~= input@.take(i as int));
            }
            if let Some(message) = self.accept(input[i]) {
                messages.push(message);
                assert(messages@.map_values(|message: ModeSMessage| message@) =~= seen.push(
                    message@,
                ));
            }
            i += 1;
        }
        proof {
            assert(input@.take(i as int) =~= input@);
            use_type_invariant(&self.frame);
        }
        messages
    }
}

} // verus!
