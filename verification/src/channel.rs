//! The slot grid as the receiver sees it when nothing disturbs the signal.
//!
//! Every slot lasts one period of samples. A pulse exceeds the detection
//! threshold at one sample of its slot, the same in every slot. Scanned for
//! edges, such a block gives back the slots up to its last pulse.

use vstd::prelude::*;
use vstd::arithmetic::div_mod::lemma_fundamental_div_mod_converse;
use crate::accumulator::AccumulatorState;
use crate::bits::bytes_bits;
use crate::decode::{block_frames, edge_bits, gap_bits, last_edge, lemma_silent_periods};
use crate::framing::{stream_bytes, MAX_BYTES};
use crate::roundtrip::lemma_stream_round_trip;

verus! {

/// One mark per sample for a run of slots: a mark is set where a slot with a
/// pulse is `offset` samples old.
pub open spec fn slot_marks(slots: Seq<bool>, period: nat, offset: nat) -> Seq<bool> {
    Seq::new(
        slots.len() * period,
        |k: int| slots[k / (period as int)] && k % (period as int) == offset,
    )
}

/// How many of the first `upto` slots there are up to the last pulse among
/// them; 0 where none of them has a pulse.
pub open spec fn through_last_pulse(slots: Seq<bool>, upto: nat) -> nat
    recommends
        upto <= slots.len(),
    decreases upto,
{
    if upto == 0 {
        0
    } else if slots[upto - 1] {
        upto
    } else {
        through_last_pulse(slots, (upto - 1) as nat)
    }
}

/// The slots after the last pulse are silent, and the last pulse is one.
proof fn lemma_through_last_pulse(slots: Seq<bool>, upto: nat)
    requires
        upto <= slots.len(),
    ensures
        through_last_pulse(slots, upto) <= upto,
        through_last_pulse(slots, upto) > 0 ==> slots[through_last_pulse(slots, upto) - 1],
        forall|i: int| through_last_pulse(slots, upto) <= i < upto ==> !slots[i],
    decreases upto,
{
    if upto > 0 && !slots[upto - 1] {
        lemma_through_last_pulse(slots, (upto - 1) as nat);
    }
}

/// The sample at which the last pulse among `seen` slots was marked.
spec fn last_pulse_mark(slots: Seq<bool>, seen: nat, period: nat, offset: nat) -> nat {
    let through = through_last_pulse(slots, seen);
    if through == 0 {
        0
    } else {
        ((through - 1) * period + offset) as nat
    }
}

/// The state of the scan `rest` samples into slot `slot`: the last accepted
/// edge is the mark of the last pulse so far, and the bits so far are the
/// slots through that pulse.
proof fn lemma_scan_on_the_grid(
    slots: Seq<bool>,
    period: nat,
    offset: nat,
    min_gap: nat,
    slot: nat,
    rest: nat,
)
    requires
        min_gap < offset < period,
        slot < slots.len(),
        rest <= period,
    ensures
        slot * period + rest <= slot_marks(slots, period, offset).len(),
        last_edge(slot_marks(slots, period, offset), slot * period + rest, min_gap)
            == last_pulse_mark(
            slots,
            if rest > offset {
                slot + 1
            } else {
                slot
            },
            period,
            offset,
        ),
        edge_bits(slot_marks(slots, period, offset), slot * period + rest, min_gap, period)
            == slots.take(
            through_last_pulse(
                slots,
                if rest > offset {
                    slot + 1
                } else {
                    slot
                },
            ) as int,
        ),
    decreases slot, rest,
{
    let marks = slot_marks(slots, period, offset);
    let upto = slot * period + rest;
    assert(upto <= slots.len() * period) by (nonlinear_arith)
        requires
            upto == slot * period + rest,
            slot < slots.len(),
            rest <= period,
    ;
    if rest == 0 {
        if slot == 0 {
            assert(upto == 0) by (nonlinear_arith)
                requires
                    upto == slot * period + rest,
                    slot == 0,
                    rest == 0,
            ;
            assert(slots.take(0) =~= Seq::<bool>::empty());
        } else {
            lemma_scan_on_the_grid(slots, period, offset, min_gap, (slot - 1) as nat, period);
            assert((slot - 1) * period + period == slot * period) by (nonlinear_arith);
        }
    } else {
        let before = (rest - 1) as nat;
        lemma_scan_on_the_grid(slots, period, offset, min_gap, slot, before);
        let at = slot * period + before;
        assert(at == upto - 1);
        lemma_fundamental_div_mod_converse(at as int, period as int, slot as int, before as int);
        assert(marks[at as int] == (slots[slot as int] && before == offset));
        let seen = if before > offset {
            slot + 1
        } else {
            slot
        };
        if before == offset && slots[slot as int] {
            let through = through_last_pulse(slots, slot);
            lemma_through_last_pulse(slots, slot);
            let last = last_pulse_mark(slots, slot, period, offset);
            let silent = (slot - through) as nat;
            let width: nat = if through == 0 {
                silent * period + offset
            } else {
                (silent + 1) * period
            };
            assert(at - last == width) by (nonlinear_arith)
                requires
                    at == slot * period + offset,
                    through == 0 ==> last == 0,
                    through > 0 ==> last == (through - 1) * period + offset,
                    silent == slot - through,
                    width == if through == 0 {
                        silent * period + offset
                    } else {
                        (silent + 1) * period
                    },
            ;
            assert(silent * period < width <= (silent + 1) * period && width >= offset)
                by (nonlinear_arith)
                requires
                    0 < offset < period,
                    width == if through == 0 {
                        silent * period + offset
                    } else {
                        (silent + 1) * period
                    },
            ;
            let gap = width;
            lemma_silent_periods(gap, period, silent);
            assert(slots.take(through as int) + gap_bits(gap, period) =~= slots.take((slot + 1) as int));
        }
    }
}

/// A block that holds a run of slots on the grid, scanned for edges, gives
/// the slots through the last pulse: every bit that was sent, but for the
/// silent slots that no pulse follows.
pub proof fn lemma_slots_survive_the_scan(
    slots: Seq<bool>,
    period: nat,
    offset: nat,
    min_gap: nat,
)
    requires
        min_gap < offset < period,
    ensures
        edge_bits(
            slot_marks(slots, period, offset),
            slot_marks(slots, period, offset).len(),
            min_gap,
            period,
        ) == slots.take(through_last_pulse(slots, slots.len()) as int),
        slots.len() > 0 && slots.last() ==> edge_bits(
            slot_marks(slots, period, offset),
            slot_marks(slots, period, offset).len(),
            min_gap,
            period,
        ) == slots,
{
    if slots.len() == 0 {
        assert(slots.take(0) =~= Seq::<bool>::empty());
        assert(slots.len() * period == 0) by (nonlinear_arith)
            requires
                slots.len() == 0,
        ;
    } else {
        let slot = (slots.len() - 1) as nat;
        lemma_scan_on_the_grid(slots, period, offset, min_gap, slot, period);
        assert(slot * period + period == slots.len() * period) by (nonlinear_arith)
            requires
                slot == slots.len() - 1,
        ;
        if slots.last() {
            assert(slots.take(slots.len() as int) =~= slots);
        }
    }
}

/// A run of frames sent on the grid and captured in one block, with the
/// pulse of one more bit behind it, is decoded into those frames, byte for
/// byte and in order.
pub proof fn lemma_frames_survive_the_channel(
    payloads: Seq<Seq<u8>>,
    period: nat,
    offset: nat,
    min_gap: nat,
)
    requires
        min_gap < offset < period,
        forall|i: int| 0 <= i < payloads.len() ==> 1 <= #[trigger] payloads[i].len() <= MAX_BYTES,
    ensures
        block_frames(
            slot_marks(bytes_bits(stream_bytes(payloads)).push(true), period, offset),
            min_gap,
            period,
        ) == payloads,
{
    let slots = bytes_bits(stream_bytes(payloads)).push(true);
    lemma_slots_survive_the_scan(slots, period, offset, min_gap);
    lemma_stream_round_trip(payloads, true);
}

} // verus!
