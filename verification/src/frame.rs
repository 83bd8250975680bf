//! The daemon wire framing: a 4-byte little-endian unsigned length `N`
//! followed by exactly `N` bytes of payload, the same shape in both
//! directions of the protocol.

use vstd::bytes::{lemma_auto_spec_u32_to_from_le_bytes, spec_u32_from_le_bytes,
    spec_u32_to_le_bytes, u32_from_le_bytes, u32_to_le_bytes};
use vstd::prelude::*;
use vstd::slice::slice_subrange;

use crate::rewrite::push_range;

verus! {

/// The wire form of a payload: its length as four little-endian bytes,
/// then the payload itself.
pub open spec fn frame_spec(p: Seq<u8>) -> Seq<u8> {
    spec_u32_to_le_bytes(p.len() as u32) + p
}

/// Frames a payload for the wire. Payloads too long for a 32-bit length
/// prefix are refused.
pub fn encode_frame(payload: &Vec<u8>) -> (r: Option<Vec<u8>>)
    ensures
        (payload@.len() <= u32::MAX) <==> (r is Some),
        r matches Some(v) ==> v@ == frame_spec(payload@) && v@.len() == payload@.len() + 4,
{
    let len = payload.len();
    if len > u32::MAX as usize {
        return None;
    }
    let mut v = u32_to_le_bytes(len as u32);
    push_range(&mut v, payload, 0, len);
    proof {
        lemma_auto_spec_u32_to_from_le_bytes();
        assert(payload@.subrange(0, payload@.len() as int) =~= payload@);
    }
    Some(v)
}

/// Reads one frame from the head of `buf`: the payload and the number of
/// bytes consumed, exactly the prefix plus the declared length. A buffer
/// shorter than the header, or shorter than the declared length, is a
/// truncated frame and is refused.
pub fn decode_frame(buf: &Vec<u8>) -> (r: Option<(Vec<u8>, usize)>)
    ensures
        (buf@.len() >= 4 && spec_u32_from_le_bytes(buf@.subrange(0, 4)) + 4 <= buf@.len()) <==> (
        r is Some),
        r matches Some(pr) ==> {
            &&& pr.1 == spec_u32_from_le_bytes(buf@.subrange(0, 4)) + 4
            &&& pr.0@ == buf@.subrange(4, pr.1 as int)
        },
{
    if buf.len() < 4 {
        return None;
    }
    let header = slice_subrange(buf.as_slice(), 0, 4);
    let n32 = u32_from_le_bytes(header);
    let n = n32 as usize;
    if n > buf.len() - 4 {
        return None;
    }
    let mut payload: Vec<u8> = Vec::new();
    push_range(&mut payload, buf, 4, 4 + n);
    proof {
        assert(Seq::<u8>::empty() + buf@.subrange(4, 4 + n as int) =~= buf@.subrange(
            4,
            4 + n as int,
        ));
    }
    Some((payload, n + 4))
}

/// Framing round trip: a payload of length `N` frames to exactly `N + 4`
/// bytes; at the head of any longer stream, the prefix declares `N` and
/// the `N` bytes after it are the payload, so a reader consumes exactly
/// `N + 4` bytes, whatever follows.
pub proof fn lemma_frame_round_trip(p: Seq<u8>, extra: Seq<u8>)
    requires
        p.len() <= u32::MAX,
    ensures
        frame_spec(p).len() == p.len() + 4,
        (frame_spec(p) + extra).subrange(0, 4) == spec_u32_to_le_bytes(p.len() as u32),
        spec_u32_from_le_bytes((frame_spec(p) + extra).subrange(0, 4)) == p.len(),
        (frame_spec(p) + extra).subrange(4, p.len() as int + 4) == p,
{
    lemma_auto_spec_u32_to_from_le_bytes();
    let w = frame_spec(p) + extra;
    assert(w.subrange(0, 4) =~= spec_u32_to_le_bytes(p.len() as u32));
    assert(w.subrange(4, p.len() as int + 4) =~= p);
}

} // verus!
