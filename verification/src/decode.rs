//! From detected pulse edges to frames.
//!
//! A capture block arrives here as one mark per envelope sample: `true` where
//! the envelope rises above the detection threshold. The distance between two
//! accepted edges is a pulse gap; a gap stands for as many `false` bits as
//! whole silent periods fit in it, closed by the `true` bit of the pulse.

use vstd::prelude::*;
use crate::accumulator::{AccumulatorState, ByteAccumulator};

verus! {

/// Samples between the starts of two neighbouring pulse slots. Tied to the
/// transmitter's slot duration and to the sample rate of the receiver.
pub const PERIOD: usize = 3300;

/// Edges that follow the last accepted edge by no more than this are noise.
pub const MIN_GAP: usize = 10;

/// The number of silent periods in a gap: the whole periods that fit in it
/// before its last sample.
pub open spec fn silent_periods(gap: nat, period: nat) -> nat {
    if gap == 0 {
        0
    } else {
        ((gap - 1) / (period as int)) as nat
    }
}

/// The bits that a gap stands for: one `false` per silent period, then one
/// `true`.
pub open spec fn gap_bits(gap: nat, period: nat) -> Seq<bool> {
    Seq::new(silent_periods(gap, period) + 1, |i: int| i == silent_periods(gap, period))
}

/// The last accepted edge among the first `upto` marks; 0 while there is none.
/// A mark is an accepted edge where the threshold is exceeded more than
/// `min_gap` samples after the last accepted edge before it.
pub open spec fn last_edge(marks: Seq<bool>, upto: nat, min_gap: nat) -> nat
    recommends
        upto <= marks.len(),
    decreases upto,
{
    if upto == 0 {
        0
    } else {
        let at = (upto - 1) as nat;
        let before = last_edge(marks, at, min_gap);
        if marks[at as int] && at - before > min_gap {
            at
        } else {
            before
        }
    }
}

/// Whether the mark at `at` is an accepted edge.
pub open spec fn edge_accepted(marks: Seq<bool>, at: nat, min_gap: nat) -> bool
    recommends
        at < marks.len(),
{
    marks[at as int] && at - last_edge(marks, at, min_gap) > min_gap
}

/// The bits that the first `upto` marks stand for: the bits of the gap before
/// each accepted edge, in the order of the edges.
pub open spec fn edge_bits(marks: Seq<bool>, upto: nat, min_gap: nat, period: nat) -> Seq<bool>
    recommends
        upto <= marks.len(),
    decreases upto,
{
    if upto == 0 {
        Seq::empty()
    } else {
        let at = (upto - 1) as nat;
        let earlier = edge_bits(marks, at, min_gap, period);
        if edge_accepted(marks, at, min_gap) {
            earlier + gap_bits((at - last_edge(marks, at, min_gap)) as nat, period)
        } else {
            earlier
        }
    }
}

/// The frames of one capture block: its bits go to a new accumulator, and
/// nothing is carried over from the block before.
pub open spec fn block_frames(marks: Seq<bool>, min_gap: nat, period: nat) -> Seq<Seq<u8>> {
    AccumulatorState::fresh().frames_on_bits(edge_bits(marks, marks.len(), min_gap, period))
}

/// Appends to `bits` the bits that a gap stands for.
fn push_gap_bits(bits: &mut Vec<bool>, gap: usize, period: usize)
    requires
        period > 0,
    ensures
        final(bits)@ == old(bits)@ + gap_bits(gap as nat, period as nat),
{
    let ghost start = bits@;
    let mut hold: usize = gap;
    let mut silent: usize = 0;
    while hold > period
        invariant
            period > 0,
            hold <= gap,
            silent * period + hold == gap,
            silent > 0 ==> hold > 0,
            bits@.len() == start.len() + silent,
            forall|i: int| 0 <= i < start.len() ==> bits@[i] == start[i],
            forall|i: int| start.len() <= i < bits@.len() ==> !bits@[i],
        decreases hold,
    {
        bits.push(false);
        assert((silent + 1) * period + (hold - period) == gap) by (nonlinear_arith)
            requires
                silent * period + hold == gap,
        ;
        assert(silent < gap) by (nonlinear_arith)
            requires
                silent * period + hold == gap,
                hold > period,
                period > 0,
        ;
        hold = hold - period;
        silent = silent + 1;
    }
    bits.push(true);
    proof {
        assert(gap <= (silent + 1) * period) by (nonlinear_arith)
            requires
                silent * period + hold == gap,
                hold <= period,
        ;
        lemma_silent_periods(gap as nat, period as nat, silent as nat);
    }
}

/// Decodes one pulse gap, measured in samples, into bits.
pub fn decode_gap(gap: usize, period: usize) -> (bits: Vec<bool>)
    requires
        period > 0,
    ensures
        bits@ == gap_bits(gap as nat, period as nat),
{
    let mut bits: Vec<bool> = Vec::new();
    push_gap_bits(&mut bits, gap, period);
    bits
}

/// Scans the marks of one block from left to right and decodes the gap
/// before every accepted edge.
pub fn scan_edges(marks: &[bool], min_gap: usize, period: usize) -> (bits: Vec<bool>)
    requires
        period > 0,
    ensures
        bits@ == edge_bits(marks@, marks@.len(), min_gap as nat, period as nat),
{
    let mut bits: Vec<bool> = Vec::new();
    let mut last: usize = 0;
    let mut at: usize = 0;
    while at < marks.len()
        invariant
            period > 0,
            at <= marks@.len(),
            last <= at,
            last == last_edge(marks@, at as nat, min_gap as nat),
            bits@ == edge_bits(marks@, at as nat, min_gap as nat, period as nat),
        decreases marks@.len() - at,
    {
        if marks[at] && at - last > min_gap {
            push_gap_bits(&mut bits, at - last, period);
            last = at;
        }
        at = at + 1;
    }
    bits
}

/// Feeds a run of bits to a new accumulator and gathers the frames that it
/// completes.
pub fn collect_frames(bits: &[bool]) -> (frames: Vec<Vec<u8>>)
    ensures
        frames.deep_view() == AccumulatorState::fresh().frames_on_bits(bits@),
{
    let mut frames: Vec<Vec<u8>> = Vec::new();
    let mut acc = ByteAccumulator::new();
    let mut at: usize = 0;
    while at < bits.len()
        invariant
            at <= bits@.len(),
            acc.wf(),
            acc@ == AccumulatorState::fresh().after_bits(bits@.take(at as int)),
            frames.deep_view() == AccumulatorState::fresh().frames_on_bits(bits@.take(at as int)),
        decreases bits@.len() - at,
    {
        proof {
            assert(bits@.take(at + 1).drop_last() =~= bits@.take(at as int));
        }
        match acc.accumulate_bit(bits[at]) {
            Some(frame) => {
                frames.push(frame);
                assert(frame.deep_view() =~= frame@);
            },
            None => {},
        }
        at = at + 1;
    }
    proof {
        assert(bits@.take(at as int) =~= bits@);
    }
    frames
}

/// Decodes one capture block at the nominal timing: scans its marks for
/// edges, decodes the gaps into bits and the bits into frames.
pub fn decode_block(marks: &[bool]) -> (frames: Vec<Vec<u8>>)
    ensures
        frames.deep_view() == block_frames(marks@, MIN_GAP as nat, PERIOD as nat),
{
    let bits = scan_edges(marks, MIN_GAP, PERIOD);
    collect_frames(bits.as_slice())
}

/// A gap longer than `silent` whole periods and no longer than one more
/// stands for `silent` bits `false` and then one bit `true`. So a gap of at
/// most one period is the single bit `true`.
pub proof fn lemma_silent_periods(gap: nat, period: nat, silent: nat)
    requires
        period > 0,
        silent * period < gap || (silent == 0 && gap == 0),
        gap <= (silent + 1) * period,
    ensures
        silent_periods(gap, period) == silent,
        gap_bits(gap, period).len() == silent + 1,
        gap_bits(gap, period).last(),
        forall|i: int| 0 <= i < silent ==> !(#[trigger] gap_bits(gap, period)[i]),
{
    if gap > 0 {
        let rest = gap - 1 - silent * period;
        assert(0 <= rest < period) by (nonlinear_arith)
            requires
                rest == gap - 1 - silent * period,
                silent * period < gap,
                gap <= (silent + 1) * period,
        ;
        vstd::arithmetic::div_mod::lemma_fundamental_div_mod_converse(
            gap - 1,
            period as int,
            silent as int,
            rest,
        );
    }
}

} // verus!
