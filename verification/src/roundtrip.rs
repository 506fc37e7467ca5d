//! What comes out of the accumulator when whole bytes go in bit by bit, and
//! what is lost when a frame does not arrive in one run.

use vstd::prelude::*;
use crate::accumulator::{
    lemma_after_bits_concat,
    lemma_after_bits_valid,
    lemma_after_bytes_concat,
    AccumulatorState,
};
use crate::bits::{bit_at, byte_bits, bytes_bits, lemma_bytes_bits_push, place_bit};
use crate::framing::{frame_bytes, header_byte, lemma_header_byte, stream_bytes, MAX_BYTES};

verus! {

/// The lowest `k` bits of a byte.
spec fn low_bits(byte: u8, k: nat) -> u8 {
    if k == 0 {
        0
    } else if k >= 8 {
        byte
    } else {
        (byte << ((8 - k) as u8)) >> ((8 - k) as u8)
    }
}

/// The lowest `k + 1` bits are the lowest `k` bits with bit `k` placed above.
proof fn lemma_low_bits_step(byte: u8, k: u8)
    requires
        k < 8,
    ensures
        place_bit(low_bits(byte, k as nat), k as nat, bit_at(byte, k as int)) == low_bits(
            byte,
            (k + 1) as nat,
        ),
{
    let up: u8 = (8 - k) as u8;
    let next: u8 = (7 - k) as u8;
    assert(k < 8 && up == 8 - k && next == 7 - k ==> (if (byte >> k) & 1u8 == 1u8 {
        (if k == 0 {
            0u8
        } else {
            (byte << up) >> up
        }) | (1u8 << k)
    } else {
        if k == 0 {
            0u8
        } else {
            (byte << up) >> up
        }
    }) == (if k == 7 {
        byte
    } else {
        (byte << next) >> next
    })) by (bit_vector);
}

/// The state that holds the lowest `k` bits of `byte` over `base`.
spec fn holding(base: AccumulatorState, byte: u8, k: nat) -> AccumulatorState {
    AccumulatorState { partial_byte: low_bits(byte, k), partial_bit_count: k, ..base }
}

/// From the first bit of a byte to its first `k` bits, nothing is passed on.
proof fn lemma_bits_within_byte(base: AccumulatorState, byte: u8, k: nat)
    requires
        1 <= k <= 8,
    ensures
        holding(base, byte, 1).after_bits(byte_bits(byte).subrange(1, k as int)) == holding(
            base,
            byte,
            k,
        ),
        holding(base, byte, 1).frames_on_bits(byte_bits(byte).subrange(1, k as int)).len() == 0,
    decreases k,
{
    let run = byte_bits(byte).subrange(1, k as int);
    if k > 1 {
        let shorter = byte_bits(byte).subrange(1, k - 1);
        lemma_bits_within_byte(base, byte, (k - 1) as nat);
        assert(run.drop_last() =~= shorter);
        lemma_low_bits_step(byte, (k - 1) as u8);
    }
}

/// Eight bits that arrive in a state whose partial byte is full, or empty and
/// clear, are held as one byte; a full partial byte is passed on by the first
/// of them, and only then.
pub proof fn lemma_bits_of_byte(state: AccumulatorState, byte: u8)
    requires
        state.partial_bit_count == 8 || (state.partial_bit_count == 0 && state.partial_byte == 0),
    ensures
        state.partial_bit_count == 0 ==> {
            &&& state.after_bits(byte_bits(byte)) == AccumulatorState {
                partial_byte: byte,
                partial_bit_count: 8,
                ..state
            }
            &&& state.frames_on_bits(byte_bits(byte)) == Seq::<Seq<u8>>::empty()
        },
        state.partial_bit_count == 8 ==> {
            &&& state.after_bits(byte_bits(byte)) == AccumulatorState {
                partial_byte: byte,
                partial_bit_count: 8,
                ..state.after_byte(state.partial_byte)
            }
            &&& state.frames_on_bits(byte_bits(byte)) == state.frames_on_bytes(
                seq![state.partial_byte],
            )
        },
{
    let bits = byte_bits(byte);
    let head = seq![bits[0]];
    let tail = bits.subrange(1, 8);
    assert(bits =~= head + tail);
    let base = if state.partial_bit_count == 8 {
        state.after_byte(state.partial_byte)
    } else {
        state
    };
    lemma_low_bits_step(byte, 0);
    assert(state.after_bits(head.drop_last()) == state);
    lemma_after_bits_concat(state, head, tail);
    lemma_bits_within_byte(base, byte, 8);
    assert(state.frames_on_bits(head.drop_last()) =~= Seq::<Seq<u8>>::empty());
    let held = seq![state.partial_byte];
    assert(state.frames_on_bytes(held.drop_last()) =~= Seq::<Seq<u8>>::empty());
}

/// Bytes that arrive bit by bit in a state whose partial byte is empty and
/// clear are passed on one behind: when the last bit of a run of bytes has
/// arrived, all but the last byte have been passed on, and the last is held.
pub proof fn lemma_bits_of_bytes(state: AccumulatorState, bytes: Seq<u8>)
    requires
        state.partial_bit_count == 0,
        state.partial_byte == 0,
        bytes.len() > 0,
    ensures
        state.after_bits(bytes_bits(bytes)) == (AccumulatorState {
            partial_byte: bytes.last(),
            partial_bit_count: 8,
            ..state.after_bytes(bytes.drop_last())
        }),
        state.frames_on_bits(bytes_bits(bytes)) == state.frames_on_bytes(bytes.drop_last()),
    decreases bytes.len(),
{
    let front = bytes.drop_last();
    assert(bytes =~= front.push(bytes.last()));
    lemma_bytes_bits_push(front, bytes.last());
    if front.len() == 0 {
        lemma_bits_of_byte(state, bytes.last());
    } else {
        lemma_bits_of_bytes(state, front);
        let mid = state.after_bits(bytes_bits(front));
        lemma_after_bits_concat(state, bytes_bits(front), byte_bits(bytes.last()));
        lemma_bits_of_byte(mid, bytes.last());
        let held = seq![front.last()];
        assert(mid.frames_on_bytes(held.drop_last()) =~= Seq::<Seq<u8>>::empty());
    }
}

/// The bit that follows a run of whole bytes passes on the last of them:
/// then every byte of the run has been passed on, in order, and the
/// accumulator holds that one bit.
pub proof fn lemma_bits_of_bytes_then_bit(state: AccumulatorState, bytes: Seq<u8>, bit: bool)
    requires
        state.partial_bit_count == 0,
        state.partial_byte == 0,
    ensures
        state.after_bits(bytes_bits(bytes).push(bit)) == (AccumulatorState {
            partial_byte: place_bit(0, 0, bit),
            partial_bit_count: 1,
            ..state.after_bytes(bytes)
        }),
        state.frames_on_bits(bytes_bits(bytes).push(bit)) == state.frames_on_bytes(bytes),
{
    let run = bytes_bits(bytes).push(bit);
    assert(run.drop_last() =~= bytes_bits(bytes));
    if bytes.len() == 0 {
        assert(state.frames_on_bits(run.drop_last()) =~= Seq::<Seq<u8>>::empty());
        assert(state.frames_on_bits(run) =~= state.frames_on_bytes(bytes));
    } else {
        lemma_bits_of_bytes(state, bytes);
    }
}

/// While a frame is under way and not yet complete, bytes only join the
/// payload.
proof fn lemma_payload_grows(state: AccumulatorState, bytes: Seq<u8>)
    requires
        state.expected_length > 0,
        state.payload.len() + bytes.len() < state.expected_length,
    ensures
        state.after_bytes(bytes) == (AccumulatorState {
            payload: state.payload + bytes,
            ..state
        }),
        state.frames_on_bytes(bytes) == Seq::<Seq<u8>>::empty(),
    decreases bytes.len(),
{
    if bytes.len() > 0 {
        lemma_payload_grows(state, bytes.drop_last());
        assert((state.payload + bytes.drop_last()).push(bytes.last()) =~= state.payload + bytes);
    }
}

/// A frame passed on byte by byte to an accumulator that awaits a header
/// comes out as exactly one frame, the payload, and leaves the accumulator
/// as it was.
pub proof fn lemma_frame_bytes_round_trip(state: AccumulatorState, payload: Seq<u8>)
    requires
        state.awaiting_header(),
        state.payload.len() == 0,
        1 <= payload.len() <= MAX_BYTES,
    ensures
        state.after_bytes(frame_bytes(payload)) == state,
        state.frames_on_bytes(frame_bytes(payload)) == seq![payload],
{
    let header = header_byte(payload.len());
    lemma_header_byte(payload.len());
    let one = seq![header];
    assert(state.after_bytes(one.drop_last()) == state);
    assert(state.frames_on_bytes(one.drop_last()) =~= Seq::<Seq<u8>>::empty());
    let started = state.after_bytes(one);
    lemma_after_bytes_concat(state, one, payload);
    lemma_payload_grows(started, payload.drop_last());
    assert(payload.drop_last().push(payload.last()) =~= payload);
    assert(state.payload =~= Seq::<u8>::empty());
}

/// A frame that arrives bit by bit at a new accumulator comes out whole once
/// the bit after its last has arrived: exactly one frame, equal to the
/// payload, and the accumulator awaits a header again. Until that bit
/// arrives the last payload byte is held and no frame has come out.
pub proof fn lemma_frame_round_trip(payload: Seq<u8>, next_bit: bool)
    requires
        1 <= payload.len() <= MAX_BYTES,
    ensures
        AccumulatorState::fresh().frames_on_bits(bytes_bits(frame_bytes(payload)).push(next_bit))
            == seq![payload],
        AccumulatorState::fresh().after_bits(bytes_bits(frame_bytes(payload)).push(next_bit))
            == (AccumulatorState {
            partial_byte: place_bit(0, 0, next_bit),
            partial_bit_count: 1,
            ..AccumulatorState::fresh()
        }),
        AccumulatorState::fresh().frames_on_bits(bytes_bits(frame_bytes(payload)))
            == Seq::<Seq<u8>>::empty(),
        AccumulatorState::fresh().after_bits(bytes_bits(frame_bytes(payload)))
            == (AccumulatorState {
            expected_length: payload.len(),
            payload: payload.drop_last(),
            partial_byte: payload.last(),
            partial_bit_count: 8,
        }),
{
    let fresh = AccumulatorState::fresh();
    let bytes = frame_bytes(payload);
    lemma_frame_bytes_round_trip(fresh, payload);
    lemma_bits_of_bytes_then_bit(fresh, bytes, next_bit);
    lemma_bits_of_bytes(fresh, bytes);
    let header = header_byte(payload.len());
    lemma_header_byte(payload.len());
    let one = seq![header];
    assert(bytes.drop_last() =~= one + payload.drop_last());
    assert(fresh.frames_on_bytes(one.drop_last()) =~= Seq::<Seq<u8>>::empty());
    let started = fresh.after_bytes(one);
    lemma_after_bytes_concat(fresh, one, payload.drop_last());
    lemma_payload_grows(started, payload.drop_last());
}

/// A run of frames passed on byte by byte to an accumulator that awaits a
/// header comes out as those frames, in order, and leaves the accumulator as
/// it was.
pub proof fn lemma_stream_bytes_round_trip(state: AccumulatorState, payloads: Seq<Seq<u8>>)
    requires
        state.awaiting_header(),
        state.payload.len() == 0,
        forall|i: int| 0 <= i < payloads.len() ==> 1 <= #[trigger] payloads[i].len() <= MAX_BYTES,
    ensures
        state.after_bytes(stream_bytes(payloads)) == state,
        state.frames_on_bytes(stream_bytes(payloads)) == payloads,
    decreases payloads.len(),
{
    if payloads.len() > 0 {
        let front = payloads.drop_last();
        lemma_stream_bytes_round_trip(state, front);
        lemma_frame_bytes_round_trip(state, payloads.last());
        lemma_after_bytes_concat(state, stream_bytes(front), frame_bytes(payloads.last()));
    }
}

/// A run of frames that arrives bit by bit at a new accumulator, followed by
/// one more bit, comes out as those frames, in order.
pub proof fn lemma_stream_round_trip(payloads: Seq<Seq<u8>>, next_bit: bool)
    requires
        forall|i: int| 0 <= i < payloads.len() ==> 1 <= #[trigger] payloads[i].len() <= MAX_BYTES,
    ensures
        AccumulatorState::fresh().frames_on_bits(bytes_bits(stream_bytes(payloads)).push(next_bit))
            == payloads,
        AccumulatorState::fresh().after_bits(
            bytes_bits(stream_bytes(payloads)).push(next_bit),
        ).awaiting_header(),
{
    let fresh = AccumulatorState::fresh();
    lemma_stream_bytes_round_trip(fresh, payloads);
    lemma_bits_of_bytes_then_bit(fresh, stream_bytes(payloads), next_bit);
}

/// The bits that a state accounts for: those of the header and payload bytes
/// of the frame under way, and those of the partial byte.
spec fn bits_under_way(state: AccumulatorState) -> nat {
    if state.expected_length > 0 {
        8 * (1 + state.payload.len()) + state.partial_bit_count
    } else {
        state.partial_bit_count
    }
}

/// A new accumulator never accounts for more bits than it was fed, and every
/// frame that it has completed was paid for in full.
proof fn lemma_bits_accounted(bits: Seq<bool>)
    ensures
        bits_under_way(AccumulatorState::fresh().after_bits(bits)) <= bits.len(),
        forall|i: int|
            0 <= i < AccumulatorState::fresh().frames_on_bits(bits).len() ==> 8 * (
            #[trigger] AccumulatorState::fresh().frames_on_bits(bits)[i].len() + 1) + 1
                <= bits.len(),
    decreases bits.len(),
{
    let fresh = AccumulatorState::fresh();
    if bits.len() > 0 {
        let front = bits.drop_last();
        lemma_bits_accounted(front);
        assert(fresh.valid()) by {
            assert(0u8 >> 0u8 == 0u8) by (bit_vector);
        }
        lemma_after_bits_valid(fresh, front);
        let before = fresh.after_bits(front);
        let earlier = fresh.frames_on_bits(front);
        let frames = fresh.frames_on_bits(bits);
        assert(bits_under_way(before.after_bit(bits.last())) <= bits_under_way(before) + 1);
        assert forall|i: int| 0 <= i < frames.len() implies 8 * (#[trigger] frames[i].len() + 1)
            + 1 <= bits.len() by {
            if i < earlier.len() {
                assert(frames[i] == earlier[i]);
            } else {
                assert(frames[i] == before.payload.push(before.partial_byte));
            }
        }
    }
}

/// A frame of `n` bytes comes out of a new accumulator only after
/// `8 * (n + 1) + 1` bits: those of its header and payload, and the bit that
/// passes on its last byte.
pub proof fn lemma_frame_needs_its_bits(bits: Seq<bool>, i: int)
    requires
        0 <= i < AccumulatorState::fresh().frames_on_bits(bits).len(),
    ensures
        8 * (AccumulatorState::fresh().frames_on_bits(bits)[i].len() + 1) + 1 <= bits.len(),
{
    lemma_bits_accounted(bits);
}

/// A frame whose bits are cut in two, each part going to a new accumulator,
/// is lost: neither part gives the frame, although the uncut run does.
pub proof fn lemma_split_frame_is_lost(payload: Seq<u8>, next_bit: bool, cut: int)
    requires
        1 <= payload.len() <= MAX_BYTES,
        0 < cut < bytes_bits(frame_bytes(payload)).len() + 1,
    ensures
        AccumulatorState::fresh().frames_on_bits(bytes_bits(frame_bytes(payload)).push(next_bit))
            == seq![payload],
        !AccumulatorState::fresh().frames_on_bits(
            bytes_bits(frame_bytes(payload)).push(next_bit).take(cut),
        ).contains(payload),
        !AccumulatorState::fresh().frames_on_bits(
            bytes_bits(frame_bytes(payload)).push(next_bit).skip(cut),
        ).contains(payload),
{
    let bits = bytes_bits(frame_bytes(payload)).push(next_bit);
    lemma_frame_round_trip(payload, next_bit);
    lemma_bits_accounted(bits.take(cut));
    lemma_bits_accounted(bits.skip(cut));
}

} // verus!
