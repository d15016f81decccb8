//! The wire format: which bytes delimit a frame, how long a frame of each type
//! is, and how a payload region is unescaped.

use vstd::prelude::*;

verus! {

/// Byte that opens every frame on the wire.
pub const SYNC: u8 = 0x1A;

/// Amount taken off the byte that follows a sync byte inside a payload region.
pub const ESCAPE_OFFSET: u8 = 0x19;

/// Bytes of a frame that precede its payload: the sync byte and the type byte.
pub const HEADER_LEN: usize = 2;

/// Total length of a frame, header included, by its type byte; `None` for a
/// byte that is no frame type.
pub open spec fn frame_len(message_type: u8) -> Option<nat> {
    if message_type == 0x31 {
        Some(11nat)
    } else if message_type == 0x32 {
        Some(15nat)
    } else if message_type == 0x33 {
        Some(23nat)
    } else {
        None
    }
}

/// Looks up the total length of a frame of the given type.
pub fn frame_length(message_type: u8) -> (len: Option<usize>)
    ensures
        match len {
            Some(n) => frame_len(message_type) == Some(n as nat),
            None => frame_len(message_type) is None,
        },
{
    match message_type {
        0x31 => Some(11),
        0x32 => Some(15),
        0x33 => Some(23),
        _ => None,
    }
}

/// What a payload region stands for once its escapes are undone.
///
/// A byte other than the sync byte stands for itself. A sync byte is an
/// escape: it and the byte after it stand for one byte, the second less
/// `ESCAPE_OFFSET`. A region in which a sync byte comes last, or is followed by
/// a byte below `ESCAPE_OFFSET`, stands for nothing.
pub open spec fn unescaped(region: Seq<u8>) -> Option<Seq<u8>>
    decreases region.len(),
{
    if region.len() == 0 {
        Some(Seq::empty())
    } else if region[0] != SYNC {
        match unescaped(region.skip(1)) {
            Some(rest) => Some(seq![region[0]] + rest),
            None => None,
        }
    } else if region.len() >= 2 && region[1] >= ESCAPE_OFFSET {
        match unescaped(region.skip(2)) {
            Some(rest) => Some(seq![(region[1] - ESCAPE_OFFSET) as u8] + rest),
            None => None,
        }
    } else {
        None
    }
}

/// No byte of `region` is the sync byte.
pub open spec fn sync_free(region: Seq<u8>) -> bool {
    forall|i: int| 0 <= i < region.len() ==> region[i] != SYNC
}

/// The wire form of a payload: every sync byte in it is followed by
/// `SYNC + ESCAPE_OFFSET`, the byte that stands for it behind an escape; every
/// other byte is left as it is.
pub open spec fn escaped(payload: Seq<u8>) -> Seq<u8>
    decreases payload.len(),
{
    if payload.len() == 0 {
        Seq::empty()
    } else if payload[0] == SYNC {
        seq![SYNC, (SYNC + ESCAPE_OFFSET) as u8] + escaped(payload.skip(1))
    } else {
        seq![payload[0]] + escaped(payload.skip(1))
    }
}

/// Undoes the escapes of a payload region.
///
/// Returns `None` exactly when the region holds a sync byte with no byte after
/// it or with a byte below `ESCAPE_OFFSET` after it.
pub fn unescape(region: &[u8]) -> (payload: Option<Vec<u8>>)
    ensures
        match payload {
            Some(bytes) => unescaped(region@) == Some(bytes@),
            None => unescaped(region@) is None,
        },
{
    let mut out: Vec<u8> = Vec::new();
    let mut i: usize = 0;
    proof {
        assert(region@.skip(0) =~= region@);
        assert(Seq::<u8>::empty() + region@ =~= region@);
        if let Some(rest) = unescaped(region@) {
            assert(out@ + rest =~= rest);
        }
    }
    while i < region.len()
        invariant
            i <= region@.len(),
            unescaped(region@) == match unescaped(region@.skip(i as int)) {
                Some(rest) => Some(out@ + rest),
                None => None,
            },
        decreases region@.len() - i,
    {
        let ghost tail = region@.skip(i as int);
        let byte: u8 = region[i];
        if byte != SYNC {
            proof {
                assert(tail.skip(1) == region@.skip(i + 1));
                lemma_concat_assoc(out@, byte, unescaped(tail.skip(1)));
            }
            out.push(byte);
            i += 1;
        } else if i + 1 < region.len() && region[i + 1] >= ESCAPE_OFFSET {
            let literal: u8 = region[i + 1] - ESCAPE_OFFSET;
            proof {
                assert(tail.skip(2) == region@.skip(i + 2));
                lemma_concat_assoc(out@, literal, unescaped(tail.skip(2)));
            }
            out.push(literal);
            i += 2;
        } else {
            return None;
        }
    }
    proof {
        assert(region@.skip(i as int) == Seq::<u8>::empty());
        assert(out@ + Seq::<u8>::empty() == out@);
    }
    Some(out)
}

/// Escaping loses nothing: the wire form of any payload is unescaped to that
/// payload.
pub proof fn lemma_unescaped_escaped(payload: Seq<u8>)
    ensures
        unescaped(escaped(payload)) == Some(payload),
    decreases payload.len(),
{
    if payload.len() == 0 {
        assert(payload =~= Seq::<u8>::empty());
    } else {
        let rest = payload.skip(1);
        let wire = escaped(payload);
        lemma_unescaped_escaped(rest);
        if payload[0] == SYNC {
            assert(wire.skip(2) =~= escaped(rest));
            assert(((SYNC + ESCAPE_OFFSET) as u8 - ESCAPE_OFFSET) as u8 == SYNC);
            assert(seq![SYNC] + rest =~= payload);
        } else {
            assert(wire.skip(1) =~= escaped(rest));
            assert(seq![payload[0]] + rest =~= payload);
        }
    }
}

/// A region without a sync byte holds no escape: it stands for itself.
pub proof fn lemma_unescaped_sync_free(region: Seq<u8>)
    requires
        sync_free(region),
    ensures
        unescaped(region) == Some(region),
    decreases region.len(),
{
    if region.len() > 0 {
        let rest = region.skip(1);
        assert forall|i: int| 0 <= i < rest.len() implies rest[i] != SYNC by {
            assert(rest[i] == region[i + 1]);
        }
        lemma_unescaped_sync_free(rest);
        assert(seq![region[0]] + rest =~= region);
    } else {
        assert(region =~= Seq::<u8>::empty());
    }
}

/// A sync byte and the byte after it come out as one byte, the second less
/// `ESCAPE_OFFSET`; what stands before them, free of sync bytes, comes out
/// unchanged, and what stands after them is unescaped on its own.
pub proof fn lemma_unescaped_pair(before: Seq<u8>, byte: u8, after: Seq<u8>)
    requires
        sync_free(before),
        byte >= ESCAPE_OFFSET,
    ensures
        unescaped(before + seq![SYNC, byte] + after) == match unescaped(after) {
            Some(rest) => Some(before + seq![(byte - ESCAPE_OFFSET) as u8] + rest),
            None => None,
        },
    decreases before.len(),
{
    let region = before + seq![SYNC, byte] + after;
    if before.len() == 0 {
        assert(region.skip(2) =~= after);
        if let Some(rest) = unescaped(after) {
            assert(seq![(byte - ESCAPE_OFFSET) as u8] + rest =~= before + seq![
                (byte - ESCAPE_OFFSET) as u8,
            ] + rest);
        }
    } else {
        let shorter = before.skip(1);
        assert forall|i: int| 0 <= i < shorter.len() implies shorter[i] != SYNC by {
            assert(shorter[i] == before[i + 1]);
        }
        lemma_unescaped_pair(shorter, byte, after);
        assert(region.skip(1) =~= shorter + seq![SYNC, byte] + after);
        assert(region[0] == before[0]);
        if let Some(rest) = unescaped(after) {
            assert(seq![region[0]] + (shorter + seq![(byte - ESCAPE_OFFSET) as u8] + rest)
                =~= before + seq![(byte - ESCAPE_OFFSET) as u8] + rest);
        }
    }
}

/// Putting a byte at the end of `head` or at the front of the rest gives the
/// same whole.
proof fn lemma_concat_assoc(head: Seq<u8>, byte: u8, rest: Option<Seq<u8>>)
    ensures
        rest matches Some(r) ==> head.push(byte) + r == head + (seq![byte] + r),
{
    if let Some(r) = rest {
        assert(head.push(byte) + r =~= head + (seq![byte] + r));
    }
}

} // verus!
