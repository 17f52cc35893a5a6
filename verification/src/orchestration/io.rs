//! Batch framing on the sockets: each message travels as a four-byte
//! big-endian length prefix followed by that many payload bytes.

use vstd::prelude::*;

verus! {

/// Bytes in a frame's length prefix.
pub const FRAME_HEADER_LEN: usize = 4;

/// The number that four bytes spell, most significant first.
pub open spec fn big_endian_value(bytes: Seq<u8>) -> int {
    bytes[0] * 0x100_0000 + bytes[1] * 0x1_0000 + bytes[2] * 0x100 + bytes[3]
}

/// The length prefix of a payload of `payload_len` bytes.
pub fn frame_header(payload_len: usize) -> (header: [u8; 4])
    requires
        payload_len <= u32::MAX,
    ensures
        header@.len() == FRAME_HEADER_LEN,
        big_endian_value(header@) == payload_len,
{
    let len = payload_len as u32;
    let b0 = (len / 0x100_0000) as u8;
    let b1 = ((len / 0x1_0000) % 0x100) as u8;
    let b2 = ((len / 0x100) % 0x100) as u8;
    let b3 = (len % 0x100) as u8;
    let header = [b0, b1, b2, b3];
    proof {
        assert(len == b0 * 0x100_0000 + b1 * 0x1_0000 + b2 * 0x100 + b3) by (nonlinear_arith)
            requires
                b0 == len / 0x100_0000,
                b1 == (len / 0x1_0000) % 0x100,
                b2 == (len / 0x100) % 0x100,
                b3 == len % 0x100,
                len <= u32::MAX,
        ;
    }
    header
}

/// The payload length that a frame's prefix declares.
pub fn declared_length(header: [u8; 4]) -> (len: usize)
    ensures
        len == big_endian_value(header@),
{
    let value: u32 = (header[0] as u32) * 0x100_0000 + (header[1] as u32) * 0x1_0000 + (header[2] as u32) * 0x100
        + (header[3] as u32);
    value as usize
}

/// A whole frame: the length prefix of `payload`, then `payload`.
pub fn encode_frame(payload: &[u8]) -> (frame: Vec<u8>)
    requires
        payload@.len() <= u32::MAX,
    ensures
        frame@.len() == FRAME_HEADER_LEN + payload@.len(),
        big_endian_value(frame@.take(FRAME_HEADER_LEN as int)) == payload@.len(),
        frame@.skip(FRAME_HEADER_LEN as int) == payload@,
{
    let header = frame_header(payload.len());
    let mut frame: Vec<u8> = Vec::new();
    frame.push(header[0]);
    frame.push(header[1]);
    frame.push(header[2]);
    frame.push(header[3]);
    let mut i: usize = 0;
    while i < payload.len()
        invariant
            i <= payload@.len(),
            frame@.len() == FRAME_HEADER_LEN + i,
            frame@.take(FRAME_HEADER_LEN as int) == header@,
            frame@.skip(FRAME_HEADER_LEN as int) == payload@.take(i as int),
        decreases payload@.len() - i,
    {
        let ghost before = frame@;
        frame.push(payload[i]);
        proof {
            assert(frame@.take(FRAME_HEADER_LEN as int) =~= before.take(FRAME_HEADER_LEN as int));
            assert(frame@.skip(FRAME_HEADER_LEN as int) =~= payload@.take(i + 1));
        }
        i = i + 1;
    }
    proof {
        assert(payload@.take(i as int) =~= payload@);
    }
    frame
}

/// A frame's prefix declares the length of the payload it was made for: the
/// header of a frame, read back, is the payload's length.
pub proof fn lemma_frame_round_trip(frame: Seq<u8>, payload: Seq<u8>)
    requires
        frame.len() == FRAME_HEADER_LEN + payload.len(),
        big_endian_value(frame.take(FRAME_HEADER_LEN as int)) == payload.len(),
        frame.skip(FRAME_HEADER_LEN as int) == payload,
    ensures
        big_endian_value(frame.take(FRAME_HEADER_LEN as int)) + FRAME_HEADER_LEN == frame.len(),
        frame.subrange(
            FRAME_HEADER_LEN as int,
            FRAME_HEADER_LEN + big_endian_value(frame.take(FRAME_HEADER_LEN as int)),
        ) == payload,
{
    assert(frame.subrange(FRAME_HEADER_LEN as int, frame.len() as int) =~= frame.skip(FRAME_HEADER_LEN as int));
}

} // verus!
