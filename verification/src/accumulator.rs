//! The frame accumulator: bits in, bytes assembled, frames out.
//!
//! A frame travels as one header byte, whose upper seven bits give the number
//! of payload bytes, followed by that many payload bytes. Every byte arrives
//! least significant bit first.
//!
//! The accumulator keeps a byte whose eighth bit has arrived until the next
//! bit comes, and only then passes it on. So a frame comes out with the bit
//! that follows its last, and what a run of bits leaves in the partial byte
//! at its end never comes out.
//!
//! A header that announces no payload leaves the accumulator awaiting a
//! header: an empty frame is never completed, and the byte after such a
//! header is read as a header again.
//!
//! The accumulator hands each completed frame back to its caller. Sending the
//! frame on is the caller's business.

use vstd::prelude::*;
use crate::bits::place_bit;
use crate::framing::{header_length, MAX_BYTES};

verus! {

/// What an accumulator holds between two bits.
pub struct AccumulatorState {
    /// Payload bytes announced by the last header; 0 while awaiting a header.
    pub expected_length: nat,
    /// Payload bytes collected since that header.
    pub payload: Seq<u8>,
    /// The bits collected since the last byte was passed on, lowest first.
    pub partial_byte: u8,
    /// How many bits `partial_byte` holds.
    pub partial_bit_count: nat,
}

impl AccumulatorState {
    /// The state of a new accumulator.
    pub open spec fn fresh() -> Self {
        AccumulatorState {
            expected_length: 0,
            payload: Seq::empty(),
            partial_byte: 0,
            partial_bit_count: 0,
        }
    }

    /// No frame is under way: the next byte is read as a header.
    pub open spec fn awaiting_header(self) -> bool {
        self.expected_length == 0
    }

    /// The invariant of every state that a new accumulator can reach.
    pub open spec fn valid(self) -> bool {
        &&& self.expected_length <= MAX_BYTES
        &&& self.payload.len() <= self.expected_length
        &&& self.expected_length > 0 ==> self.payload.len() < self.expected_length
        &&& self.partial_bit_count <= 8
        &&& self.partial_bit_count < 8 ==> self.partial_byte >> (self.partial_bit_count as u8)
            == 0
    }

    /// The frame that `byte` completes, if it completes one.
    pub open spec fn frame_on_byte(self, byte: u8) -> Option<Seq<u8>> {
        if self.expected_length != 0 && self.payload.len() + 1 == self.expected_length {
            Some(self.payload.push(byte))
        } else {
            None
        }
    }

    /// The state after `byte` has been passed on.
    pub open spec fn after_byte(self, byte: u8) -> Self {
        if self.expected_length == 0 {
            AccumulatorState { expected_length: header_length(byte), ..self }
        } else if self.payload.len() + 1 == self.expected_length {
            AccumulatorState { expected_length: 0, payload: Seq::empty(), ..self }
        } else {
            AccumulatorState { payload: self.payload.push(byte), ..self }
        }
    }

    /// The frame that the arrival of one bit completes, if any: a full
    /// partial byte is passed on before the bit is taken.
    pub open spec fn frame_on_bit(self, bit: bool) -> Option<Seq<u8>> {
        if self.partial_bit_count == 8 {
            self.frame_on_byte(self.partial_byte)
        } else {
            None
        }
    }

    /// The state after one bit has arrived.
    pub open spec fn after_bit(self, bit: bool) -> Self {
        if self.partial_bit_count == 8 {
            AccumulatorState {
                partial_byte: place_bit(0, 0, bit),
                partial_bit_count: 1,
                ..self.after_byte(self.partial_byte)
            }
        } else {
            AccumulatorState {
                partial_byte: place_bit(self.partial_byte, self.partial_bit_count, bit),
                partial_bit_count: self.partial_bit_count + 1,
                ..self
            }
        }
    }

    /// The state after a run of bits has arrived, first bit first.
    pub open spec fn after_bits(self, bits: Seq<bool>) -> Self
        decreases bits.len(),
    {
        if bits.len() == 0 {
            self
        } else {
            self.after_bits(bits.drop_last()).after_bit(bits.last())
        }
    }

    /// The frames that a run of bits completes, in the order of completion.
    pub open spec fn frames_on_bits(self, bits: Seq<bool>) -> Seq<Seq<u8>>
        decreases bits.len(),
    {
        if bits.len() == 0 {
            Seq::empty()
        } else {
            let earlier = self.frames_on_bits(bits.drop_last());
            match self.after_bits(bits.drop_last()).frame_on_bit(bits.last()) {
                Some(frame) => earlier.push(frame),
                None => earlier,
            }
        }
    }

    /// The state after a run of whole bytes has been passed on.
    pub open spec fn after_bytes(self, bytes: Seq<u8>) -> Self
        decreases bytes.len(),
    {
        if bytes.len() == 0 {
            self
        } else {
            self.after_bytes(bytes.drop_last()).after_byte(bytes.last())
        }
    }

    /// The frames that a run of whole bytes completes, in the order of
    /// completion.
    pub open spec fn frames_on_bytes(self, bytes: Seq<u8>) -> Seq<Seq<u8>>
        decreases bytes.len(),
    {
        if bytes.len() == 0 {
            Seq::empty()
        } else {
            let earlier = self.frames_on_bytes(bytes.drop_last());
            match self.after_bytes(bytes.drop_last()).frame_on_byte(bytes.last()) {
                Some(frame) => earlier.push(frame),
                None => earlier,
            }
        }
    }
}

/// Accumulates bits into bytes and bytes into frames.
pub struct ByteAccumulator {
    data_len: usize,
    accum: Vec<u8>,
    current_byte: u8,
    current_byte_idx: u8,
}

impl View for ByteAccumulator {
    type V = AccumulatorState;

    closed spec fn view(&self) -> AccumulatorState {
        AccumulatorState {
            expected_length: self.data_len as nat,
            payload: self.accum@,
            partial_byte: self.current_byte,
            partial_bit_count: self.current_byte_idx as nat,
        }
    }
}

impl ByteAccumulator {
    /// The accumulator holds a state that a new one can reach.
    pub open spec fn wf(&self) -> bool {
        self@.valid()
    }

    /// An accumulator that awaits a header and holds no bit.
    pub fn new() -> (acc: Self)
        ensures
            acc.wf(),
            acc@ == AccumulatorState::fresh(),
    {
        let acc = ByteAccumulator {
            data_len: 0,
            accum: Vec::new(),
            current_byte: 0,
            current_byte_idx: 0,
        };
        assert(0u8 >> 0u8 == 0u8) by (bit_vector);
        acc
    }

    /// The payload length that the last header announced, 0 while a header is
    /// awaited.
    pub fn expected_length(&self) -> (length: usize)
        ensures
            length == self@.expected_length,
    {
        self.data_len
    }

    /// Whether the next byte will be read as a header.
    pub fn is_awaiting_header(&self) -> (awaiting: bool)
        ensures
            awaiting == self@.awaiting_header(),
    {
        self.data_len == 0
    }

    /// The payload bytes collected since the last header.
    pub fn payload_so_far(&self) -> (payload: &[u8])
        ensures
            payload@ == self@.payload,
    {
        self.accum.as_slice()
    }

    /// The bits collected since the last byte was passed on, lowest first.
    pub fn partial_byte(&self) -> (partial: u8)
        ensures
            partial == self@.partial_byte,
    {
        self.current_byte
    }

    /// How many bits the partial byte holds.
    pub fn partial_bit_count(&self) -> (count: u8)
        ensures
            count == self@.partial_bit_count,
    {
        self.current_byte_idx
    }

    /// Takes one bit. The bit goes to the lowest free position of the partial
    /// byte; a partial byte that is already full is first passed on as a whole
    /// byte, and the frame that this completes, if any, is returned.
    pub fn accumulate_bit(&mut self, bit: bool) -> (frame: Option<Vec<u8>>)
        requires
            old(self).wf(),
        ensures
            final(self).wf(),
            final(self)@ == old(self)@.after_bit(bit),
            match frame {
                Some(bytes) => old(self)@.frame_on_bit(bit) == Some(bytes@),
                None => old(self)@.frame_on_bit(bit) is None,
            },
    {
        let mut frame: Option<Vec<u8>> = None;
        if self.current_byte_idx == 8 {
            frame = self.accumulate_byte(self.current_byte);
            self.current_byte_idx = 0;
            self.current_byte = 0;
            assert(0u8 >> 0u8 == 0u8) by (bit_vector);
        }
        let idx: u8 = self.current_byte_idx;
        let byte: u8 = self.current_byte;
        proof {
            lemma_place_bit_keeps_clean(byte, idx, bit);
        }
        if bit {
            self.current_byte = byte | (1u8 << idx);
        }
        self.current_byte_idx = idx + 1;
        frame
    }

    /// Takes one whole byte. While a header is awaited the byte is the header:
    /// its upper seven bits become the expected length, its lowest bit is
    /// dropped. Otherwise the byte joins the payload, and the payload is
    /// returned as a frame once it has the expected length.
    pub fn accumulate_byte(&mut self, byte: u8) -> (frame: Option<Vec<u8>>)
        requires
            old(self).wf(),
        ensures
            final(self).wf(),
            final(self)@ == old(self)@.after_byte(byte),
            match frame {
                Some(bytes) => old(self)@.frame_on_byte(byte) == Some(bytes@),
                None => old(self)@.frame_on_byte(byte) is None,
            },
    {
        if self.data_len == 0 {
            assert(byte >> 1 <= 127) by (bit_vector);
            self.data_len = (byte >> 1) as usize;
            return None;
        }
        self.accum.push(byte);
        if self.accum.len() == self.data_len {
            let mut frame: Vec<u8> = Vec::new();
            std::mem::swap(&mut frame, &mut self.accum);
            self.data_len = 0;
            return Some(frame);
        }
        None
    }
}

/// A byte passed on in a valid state leaves a valid state. A frame that it
/// completes has exactly the length that its header announced, between 1 and
/// `MAX_BYTES`, and leaves the accumulator awaiting a header with no payload.
pub proof fn lemma_after_byte(state: AccumulatorState, byte: u8)
    requires
        state.valid(),
    ensures
        state.after_byte(byte).valid(),
        state.frame_on_byte(byte) is Some ==> {
            let frame = state.frame_on_byte(byte)->Some_0;
            &&& frame.len() == state.expected_length
            &&& 1 <= frame.len() <= MAX_BYTES
            &&& frame == state.payload.push(byte)
            &&& state.after_byte(byte).awaiting_header()
            &&& state.after_byte(byte).payload.len() == 0
        },
        state.frame_on_byte(byte) is None && !state.awaiting_header() ==> {
            &&& state.after_byte(byte).expected_length == state.expected_length
            &&& state.after_byte(byte).payload == state.payload.push(byte)
        },
{
    crate::framing::lemma_header_length(byte);
}

/// A bit taken in a valid state leaves a valid state: the partial byte never
/// holds more than eight bits, and none above those it has taken.
pub proof fn lemma_after_bit(state: AccumulatorState, bit: bool)
    requires
        state.valid(),
    ensures
        state.after_bit(bit).valid(),
        1 <= state.after_bit(bit).partial_bit_count <= 8,
{
    if state.partial_bit_count == 8 {
        lemma_after_byte(state, state.partial_byte);
        assert(0u8 >> 0u8 == 0u8) by (bit_vector);
        lemma_place_bit_keeps_clean(0, 0, bit);
    } else {
        lemma_place_bit_keeps_clean(state.partial_byte, state.partial_bit_count as u8, bit);
    }
}

/// Every run of bits leaves a valid state valid.
pub proof fn lemma_after_bits_valid(state: AccumulatorState, bits: Seq<bool>)
    requires
        state.valid(),
    ensures
        state.after_bits(bits).valid(),
    decreases bits.len(),
{
    if bits.len() > 0 {
        lemma_after_bits_valid(state, bits.drop_last());
        lemma_after_bit(state.after_bits(bits.drop_last()), bits.last());
    }
}

/// Every run of bytes leaves a valid state valid.
pub proof fn lemma_after_bytes_valid(state: AccumulatorState, bytes: Seq<u8>)
    requires
        state.valid(),
    ensures
        state.after_bytes(bytes).valid(),
    decreases bytes.len(),
{
    if bytes.len() > 0 {
        lemma_after_bytes_valid(state, bytes.drop_last());
        lemma_after_byte(state.after_bytes(bytes.drop_last()), bytes.last());
    }
}

/// Feeding two runs of bits one after the other is feeding their
/// concatenation.
pub proof fn lemma_after_bits_concat(state: AccumulatorState, first: Seq<bool>, second: Seq<bool>)
    ensures
        state.after_bits(first + second) == state.after_bits(first).after_bits(second),
        state.frames_on_bits(first + second) == state.frames_on_bits(first) + state.after_bits(
            first,
        ).frames_on_bits(second),
    decreases second.len(),
{
    if second.len() > 0 {
        lemma_after_bits_concat(state, first, second.drop_last());
        assert((first + second).drop_last() =~= first + second.drop_last());
    }
}

/// Passing on two runs of bytes one after the other is passing on their
/// concatenation.
pub proof fn lemma_after_bytes_concat(state: AccumulatorState, first: Seq<u8>, second: Seq<u8>)
    ensures
        state.after_bytes(first + second) == state.after_bytes(first).after_bytes(second),
        state.frames_on_bytes(first + second) == state.frames_on_bytes(first) + state.after_bytes(
            first,
        ).frames_on_bytes(second),
    decreases second.len(),
{
    if second.len() > 0 {
        lemma_after_bytes_concat(state, first, second.drop_last());
        assert((first + second).drop_last() =~= first + second.drop_last());
    }
}

/// A header that announces no payload changes nothing: the accumulator still
/// awaits a header, no frame comes of it, and whatever bytes follow are read
/// as if that header had never arrived.
pub proof fn lemma_empty_header_stalls(state: AccumulatorState, header: u8, rest: Seq<u8>)
    requires
        state.awaiting_header(),
        header_length(header) == 0,
    ensures
        state.after_byte(header) == state,
        state.frame_on_byte(header) is None,
        state.after_bytes(seq![header] + rest) == state.after_bytes(rest),
        state.frames_on_bytes(seq![header] + rest) == state.frames_on_bytes(rest),
{
    let one = seq![header];
    assert(state.after_bytes(one.drop_last()) == state);
    assert(state.frames_on_bytes(one.drop_last()) =~= Seq::<Seq<u8>>::empty());
    lemma_after_bytes_concat(state, one, rest);
}

/// Placing a bit at the first free position leaves no bit above it.
proof fn lemma_place_bit_keeps_clean(partial: u8, count: u8, bit: bool)
    requires
        count < 8,
        partial >> count == 0,
    ensures
        count + 1 < 8 ==> place_bit(partial, count as nat, bit) >> ((count + 1) as u8) == 0,
{
    let next: u8 = (count + 1) as u8;
    assert(count < 7 && partial >> count == 0 ==> (partial | (1u8 << count)) >> next == 0
        && partial >> next == 0) by (bit_vector)
        requires
            next == count + 1,
    ;
}

} // verus!
