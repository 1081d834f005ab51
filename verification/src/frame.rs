//! Length-delimited frames.
//!
//! Every record in a segment is framed: an eight-byte little-endian length
//! prefix followed by exactly that many payload bytes.  Framing makes the
//! log self-delimiting and makes a torn tail — a crash in the middle of an
//! append — detectable: a frame whose prefix or payload is cut short is
//! simply not a frame, so replay stops cleanly in front of it.

use vstd::bytes::{spec_u64_from_le_bytes, spec_u64_to_le_bytes, u64_from_le_bytes, u64_to_le_bytes};
use vstd::bytes::lemma_auto_spec_u64_to_from_le_bytes;
use vstd::prelude::*;
use vstd::slice::{slice_index_get, slice_subrange, slice_to_vec};

verus! {

/// The number of bytes in a frame's length prefix.
pub const FRAME_HEADER_LEN: usize = 8;

/// The framed form of a payload: its length as eight little-endian bytes,
/// then the payload itself.
pub open spec fn spec_frame(payload: Seq<u8>) -> Seq<u8> {
    spec_u64_to_le_bytes(payload.len() as u64) + payload
}

/// The frame that starts at `off` in `data`: its payload together with the
/// offset of the first byte after the frame, or `None` when the bytes at
/// `off` do not hold a complete frame.
pub open spec fn frame_at(data: Seq<u8>, off: int) -> Option<(Seq<u8>, int)> {
    if 0 <= off && off + 8 <= data.len() {
        let n = spec_u64_from_le_bytes(data.subrange(off, off + 8)) as int;
        if off + 8 + n <= data.len() {
            Some((data.subrange(off + 8, off + 8 + n), off + 8 + n))
        } else {
            None
        }
    } else {
        None
    }
}

/// Appends `src` to `dst`.
pub fn push_bytes(dst: &mut Vec<u8>, src: &[u8])
    ensures
        final(dst)@ == old(dst)@ + src@,
{
    let n = src.len();
    let mut i: usize = 0;
    while i < n
        invariant
            i <= n,
            n == src@.len(),
            dst@ == old(dst)@ + src@.subrange(0, i as int),
        decreases n - i,
    {
        dst.push(*slice_index_get(src, i));
        proof {
            assert(old(dst)@ + src@.subrange(0, i + 1 as int) =~= (old(dst)@ + src@.subrange(
                0,
                i as int,
            )).push(src@[i as int]));
        }
        i = i + 1;
    }
    proof {
        assert(src@.subrange(0, n as int) =~= src@);
    }
}

/// One frame's worth of payload bytes.
#[derive(Debug)]
pub struct Frame {
    pub bytes: Vec<u8>,
}

impl Frame {
    /// Wraps a copy of `bytes` as a frame payload.
    pub fn new(bytes: &[u8]) -> (f: Frame)
        ensures
            f.bytes@ == bytes@,
    {
        Frame { bytes: slice_to_vec(bytes) }
    }

    /// Emits the framed form of the payload.
    pub fn encode(&self) -> (out: Vec<u8>)
        ensures
            out@ == spec_frame(self.bytes@),
    {
        let mut out = u64_to_le_bytes(self.bytes.len() as u64);
        push_bytes(&mut out, self.bytes.as_slice());
        out
    }

    /// Reads one frame from `data` at `offset`.  Returns the payload and the
    /// offset just past the frame, or `None` when no complete frame starts
    /// there — either because the stream ends at `offset` or because the
    /// trailing bytes are a torn, partial frame.
    pub fn decode(data: &[u8], offset: usize) -> (r: Option<(Frame, usize)>)
        ensures
            match frame_at(data@, offset as int) {
                Some((payload, end)) => {
                    &&& r is Some
                    &&& r.unwrap().0.bytes@ == payload
                    &&& r.unwrap().1 == end
                },
                None => r is None,
            },
    {
        let len = data.len();
        if offset > len || len - offset < FRAME_HEADER_LEN {
            return None;
        }
        let header = slice_subrange(data, offset, offset + FRAME_HEADER_LEN);
        let n64 = u64_from_le_bytes(header);
        if n64 > (len - offset - FRAME_HEADER_LEN) as u64 {
            return None;
        }
        let n = n64 as usize;
        let payload = slice_subrange(data, offset + FRAME_HEADER_LEN, offset + FRAME_HEADER_LEN + n);
        Some((Frame { bytes: slice_to_vec(payload) }, offset + FRAME_HEADER_LEN + n))
    }
}

/// A frame written directly after `pre` is read back intact, whatever bytes
/// follow it.
pub proof fn lemma_frame_at_encoded(pre: Seq<u8>, payload: Seq<u8>, rest: Seq<u8>)
    requires
        payload.len() <= u64::MAX,
    ensures
        frame_at(pre + spec_frame(payload) + rest, pre.len() as int) == Some(
            (payload, pre.len() + 8 + payload.len() as int),
        ),
{
    lemma_auto_spec_u64_to_from_le_bytes();
    let data = pre + spec_frame(payload) + rest;
    let off = pre.len() as int;
    assert(data.subrange(off, off + 8) =~= spec_u64_to_le_bytes(payload.len() as u64));
    assert(data.subrange(off + 8, off + 8 + payload.len() as int) =~= payload);
}

/// A complete frame inside `data` is unaffected by appending more bytes.
pub proof fn lemma_frame_at_extend(data: Seq<u8>, ext: Seq<u8>, off: int)
    requires
        frame_at(data, off) is Some,
    ensures
        frame_at(data + ext, off) == frame_at(data, off),
{
    let (payload, end) = frame_at(data, off).unwrap();
    let data2 = data + ext;
    assert(data2.subrange(off, off + 8) =~= data.subrange(off, off + 8));
    let n = spec_u64_from_le_bytes(data.subrange(off, off + 8)) as int;
    assert(data2.subrange(off + 8, off + 8 + n) =~= data.subrange(off + 8, off + 8 + n));
}

} // verus!
