//! The wire layout of the context-handle prefix: every frame on the physical
//! channel starts with the four big-endian bytes of the handle that names the
//! logical context the frame belongs to.

use vstd::prelude::*;

verus! {

/// The value of the first four bytes of a frame read as a big-endian 32-bit
/// integer: the context handle the frame is addressed to.
pub open spec fn be_bytes_to_u32(b: Seq<u8>) -> u32
    recommends
        b.len() >= 4,
{
    ((b[0] as int) * 0x1000000 + (b[1] as int) * 0x10000 + (b[2] as int) * 0x100 + (
    b[3] as int)) as u32
}

/// The four big-endian bytes of a 32-bit context handle.
pub open spec fn u32_to_be_bytes(v: u32) -> Seq<u8> {
    seq![
        (((v as int) / 0x1000000) % 0x100) as u8,
        (((v as int) / 0x10000) % 0x100) as u8,
        (((v as int) / 0x100) % 0x100) as u8,
        ((v as int) % 0x100) as u8,
    ]
}

/// Reading back the four big-endian bytes of a handle yields the handle.
pub proof fn lemma_handle_bytes_round_trip(v: u32)
    ensures
        be_bytes_to_u32(u32_to_be_bytes(v)) == v,
{
    assert((v / 0x1000000) % 0x100 * 0x1000000 + (v / 0x10000) % 0x100 * 0x10000 + (v / 0x100)
        % 0x100 * 0x100 + v % 0x100 == v) by (bit_vector);
}

/// Append the four big-endian bytes of `v` to `out`.
pub fn push_be_bytes(out: &mut Vec<u8>, v: u32)
    ensures
        final(out)@ == old(out)@ + u32_to_be_bytes(v),
{
    out.push((v / 0x1000000) as u8);
    out.push((v / 0x10000 % 0x100) as u8);
    out.push((v / 0x100 % 0x100) as u8);
    out.push((v % 0x100) as u8);
    proof {
        assert(v / 0x1000000 < 0x100) by (bit_vector);
        assert(out@ =~= old(out)@ + u32_to_be_bytes(v));
    }
}

/// The frame carrying `payload` for the context named by handle `h`: the
/// four big-endian bytes of `h`, then the payload.
pub open spec fn frame_of(h: u32, payload: Seq<u8>) -> Seq<u8> {
    u32_to_be_bytes(h) + payload
}

/// A built frame parses back to its handle and payload.
pub proof fn lemma_frame_of(h: u32, payload: Seq<u8>)
    ensures
        frame_of(h, payload).len() == 4 + payload.len(),
        be_bytes_to_u32(frame_of(h, payload)) == h,
        frame_of(h, payload).skip(4) == payload,
{
    lemma_handle_bytes_round_trip(h);
    let f = frame_of(h, payload);
    assert(f[0] == u32_to_be_bytes(h)[0]);
    assert(f[1] == u32_to_be_bytes(h)[1]);
    assert(f[2] == u32_to_be_bytes(h)[2]);
    assert(f[3] == u32_to_be_bytes(h)[3]);
    assert(f.skip(4) =~= payload);
}

/// Read the handle prefix of a frame: its first four bytes, big-endian.
pub fn read_be_prefix(b: &Vec<u8>) -> (r: u32)
    requires
        b@.len() >= 4,
    ensures
        r == be_bytes_to_u32(b@),
{
    let b0: u32 = b[0] as u32;
    let b1: u32 = b[1] as u32;
    let b2: u32 = b[2] as u32;
    let b3: u32 = b[3] as u32;
    b0 * 0x1000000 + b1 * 0x10000 + b2 * 0x100 + b3
}

} // verus!
