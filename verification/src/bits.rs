//! Bytes as sequences of bits, least significant bit first.

use vstd::prelude::*;

verus! {

/// Whether bit `i` of `byte` is set; bit 0 is the least significant.
pub open spec fn bit_at(byte: u8, i: int) -> bool {
    (byte >> (i as u8)) & 1u8 == 1u8
}

/// The eight bits of a byte in the order in which they travel.
pub open spec fn byte_bits(byte: u8) -> Seq<bool> {
    Seq::new(8, |i: int| bit_at(byte, i))
}

/// The bits of a byte sequence: byte after byte, each least significant bit
/// first.
pub open spec fn bytes_bits(bytes: Seq<u8>) -> Seq<bool> {
    Seq::new(8 * bytes.len(), |k: int| bit_at(bytes[k / 8], k % 8))
}

/// `partial` with `bit` placed at position `count`.
pub open spec fn place_bit(partial: u8, count: nat, bit: bool) -> u8 {
    if bit {
        partial | (1u8 << (count as u8))
    } else {
        partial
    }
}

/// The bits of a run of bytes with one byte more are the bits of the run
/// followed by the eight bits of that byte.
pub proof fn lemma_bytes_bits_push(bytes: Seq<u8>, byte: u8)
    ensures
        bytes_bits(bytes.push(byte)) == bytes_bits(bytes) + byte_bits(byte),
{
    assert(bytes_bits(bytes.push(byte)) =~= bytes_bits(bytes) + byte_bits(byte));
}

/// Splits a byte into its eight bits, least significant first.
pub fn byte_to_bits(byte: u8) -> (bits: Vec<bool>)
    ensures
        bits@ == byte_bits(byte),
{
    let mut bits: Vec<bool> = Vec::new();
    let mut shift: u8 = 0;
    while shift < 8
        invariant
            shift <= 8,
            bits@.len() == shift,
            forall|i: int| 0 <= i < shift ==> bits@[i] == bit_at(byte, i),
        decreases 8 - shift,
    {
        bits.push((byte >> shift) & 1u8 == 1u8);
        shift = shift + 1;
    }
    bits
}

} // verus!
