//! Length framing of one message: a 4-byte big-endian unsigned length,
//! then exactly that many payload bytes.

use crate::codec::copy_range;
use crate::codec::write_raw;
use crate::codec::DecodeError;
use vstd::prelude::*;

verus! {

/// A sane upper bound on one frame's payload; a peer announcing more is
/// treated as a framing error by the reader rather than allocated for.
pub const MAX_FRAME_LEN: u32 = 16777216;

/// The four big-endian bytes of a 32-bit length.
pub open spec fn spec_be32(n: u32) -> Seq<u8> {
    seq![
        (n >> 24) as u8,
        ((n >> 16) & 0xff) as u8,
        ((n >> 8) & 0xff) as u8,
        (n & 0xff) as u8,
    ]
}

/// The value four header bytes carry.
pub open spec fn spec_be32_val(b0: u8, b1: u8, b2: u8, b3: u8) -> u32 {
    ((b0 as u32) << 24) | ((b1 as u32) << 16) | ((b2 as u32) << 8) | (b3 as u32)
}

proof fn lemma_be32_val_of(n: u32)
    ensures
        spec_be32_val(
            (n >> 24) as u8,
            ((n >> 16) & 0xff) as u8,
            ((n >> 8) & 0xff) as u8,
            (n & 0xff) as u8,
        ) == n,
{
    assert((((((n >> 24) as u8) as u32) << 24) | ((((n >> 16) & 0xff) as u8 as u32) << 16) | ((((n
        >> 8) & 0xff) as u8 as u32) << 8) | ((n & 0xff) as u8 as u32)) == n) by (bit_vector);
}

/// The encoding of one frame: the payload length, big-endian, then the
/// payload itself.
pub open spec fn spec_frame(p: Seq<u8>) -> Seq<u8>
    recommends
        p.len() <= u32::MAX,
{
    spec_be32(p.len() as u32) + p
}

/// The total spec-level decoder of one frame: the payload and the position
/// after it, or the error met first. An input shorter than its announced
/// length is truncated.
pub open spec fn spec_read_frame(s: Seq<u8>) -> Result<(Seq<u8>, int), DecodeError> {
    if s.len() < 4 {
        Err(DecodeError::UnexpectedEnd)
    } else {
        let n = spec_be32_val(s[0], s[1], s[2], s[3]);
        if 4 + n > s.len() {
            Err(DecodeError::UnexpectedEnd)
        } else {
            Ok((s.subrange(4, 4 + n), 4 + n))
        }
    }
}

/// Framing round trip: a frame built from a payload of any length the
/// prefix can express decodes to exactly that payload, consuming the
/// whole frame.
pub proof fn lemma_frame_round_trip(p: Seq<u8>)
    requires
        p.len() <= u32::MAX,
    ensures
        spec_read_frame(spec_frame(p)) == Ok::<(Seq<u8>, int), DecodeError>((
            p,
            spec_frame(p).len() as int,
        )),
{
    let n: u32 = p.len() as u32;
    let s = spec_frame(p);
    assert(s.len() == 4 + p.len());
    assert(s[0] == (n >> 24) as u8);
    assert(s[1] == ((n >> 16) & 0xff) as u8);
    assert(s[2] == ((n >> 8) & 0xff) as u8);
    assert(s[3] == (n & 0xff) as u8);
    lemma_be32_val_of(n);
    assert(s.subrange(4, 4 + n as int) =~= p);
}

/// Frames a payload for the wire.
pub fn encode_frame(p: &Vec<u8>) -> (out: Vec<u8>)
    requires
        p@.len() <= u32::MAX,
    ensures
        out@ == spec_frame(p@),
{
    let n: u32 = p.len() as u32;
    let mut out: Vec<u8> = Vec::new();
    out.push((n >> 24) as u8);
    out.push(((n >> 16) & 0xff) as u8);
    out.push(((n >> 8) & 0xff) as u8);
    out.push((n & 0xff) as u8);
    proof {
        assert(out@ =~= spec_be32(n));
    }
    write_raw(&mut out, p);
    out
}

/// Frames a payload, refusing one longer than the length prefix can
/// express; `None` comes exactly on such payloads.
pub fn encode_frame_checked(p: &Vec<u8>) -> (out: Option<Vec<u8>>)
    ensures
        out is Some <==> p@.len() <= u32::MAX,
        out matches Some(v) ==> v@ == spec_frame(p@),
{
    if p.len() as u64 > 0xffffffffu64 {
        None
    } else {
        Some(encode_frame(p))
    }
}

/// The length a 4-byte header announces.
pub fn header_len(h: &Vec<u8>) -> (r: u32)
    requires
        h@.len() >= 4,
    ensures
        r == spec_be32_val(h@[0], h@[1], h@[2], h@[3]),
{
    ((h[0] as u32) << 24) | ((h[1] as u32) << 16) | ((h[2] as u32) << 8) | (h[3] as u32)
}

/// Reads one frame from the start of a buffer.
pub fn decode_frame(s: &Vec<u8>) -> (r: Result<(Vec<u8>, usize), DecodeError>)
    ensures
        (match spec_read_frame(s@) {
            Ok((p, j)) => r matches Ok(q) && q.0@ == p && q.1 == j as usize,
            Err(e) => r == Err::<(Vec<u8>, usize), DecodeError>(e),
        }),
{
    let len: usize = s.len();
    if len < 4 {
        return Err(DecodeError::UnexpectedEnd);
    }
    let n: u32 = ((s[0] as u32) << 24) | ((s[1] as u32) << 16) | ((s[2] as u32) << 8) | (s[3]
        as u32);
    if (n as u64) > ((len - 4) as u64) {
        return Err(DecodeError::UnexpectedEnd);
    }
    let end: usize = 4 + (n as usize);
    Ok((copy_range(s, 4, end), end))
}

} // verus!
