//! The wire format of a frame: one header byte, then the payload.

use vstd::prelude::*;

verus! {

/// The largest payload that a header byte can announce: seven bits of length.
pub const MAX_BYTES: usize = 127;

/// The header of a frame of `length` payload bytes: the length in the upper
/// seven bits above a set marker bit.
pub open spec fn header_byte(length: nat) -> u8
    recommends
        length <= MAX_BYTES,
{
    ((length as u8) << 1) | 1
}

/// The payload length that a header byte announces; the marker bit is dropped.
pub open spec fn header_length(header: u8) -> nat {
    (header >> 1) as nat
}

/// A frame as it is queued for transmission.
pub open spec fn frame_bytes(payload: Seq<u8>) -> Seq<u8>
    recommends
        payload.len() <= MAX_BYTES,
{
    seq![header_byte(payload.len())] + payload
}

/// The bytes queued for a run of frames: frame after frame.
pub open spec fn stream_bytes(payloads: Seq<Seq<u8>>) -> Seq<u8>
    decreases payloads.len(),
{
    if payloads.len() == 0 {
        Seq::empty()
    } else {
        stream_bytes(payloads.drop_last()) + frame_bytes(payloads.last())
    }
}

/// A header is twice the length plus one, and announces that length again.
pub proof fn lemma_header_byte(length: nat)
    requires
        length <= MAX_BYTES,
    ensures
        header_byte(length) == 2 * length + 1,
        header_length(header_byte(length)) == length,
{
    let n = length as u8;
    assert(n <= 127 ==> ((n << 1) | 1) == 2 * n + 1 && ((n << 1) | 1) >> 1 == n) by (bit_vector);
}

/// A header never announces more than `MAX_BYTES`, and half its value.
pub proof fn lemma_header_length(header: u8)
    ensures
        header_length(header) == header / 2,
        header_length(header) <= MAX_BYTES,
{
    assert(header >> 1 == header / 2 && header >> 1 <= 127) by (bit_vector);
}

/// Lays out a payload of at most `MAX_BYTES` bytes as a frame: the header,
/// then the payload unchanged.
pub fn encode_frame(data: &[u8]) -> (bytes: Vec<u8>)
    requires
        data@.len() <= MAX_BYTES,
    ensures
        bytes@ == frame_bytes(data@),
{
    let length: u8 = data.len() as u8;
    let mut bytes: Vec<u8> = Vec::new();
    bytes.push((length << 1) | 1);
    let mut at: usize = 0;
    while at < data.len()
        invariant
            at <= data@.len(),
            bytes@ == seq![header_byte(data@.len())] + data@.take(at as int),
        decreases data@.len() - at,
    {
        bytes.push(data[at]);
        at = at + 1;
    }
    bytes
}

} // verus!
