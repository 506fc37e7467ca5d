//! The decisions of the transmit loop.
//!
//! The loop polls a byte queue. What it found decides what it does next; the
//! polling, the pulses and the sleeping are the caller's.

use vstd::prelude::*;
use crate::bits::{byte_bits, byte_to_bits};

verus! {

/// How long one pulse slot lasts, in microseconds.
pub const PULSE_SLEEP_MICROS: u64 = 900;

/// How long the loop sleeps when the queue is empty, in milliseconds.
pub const THREAD_SLEEP_MILLIS: u64 = 50;

/// What a poll of the byte queue found.
#[derive(Debug, PartialEq, Eq)]
pub enum QueuePoll {
    /// The next byte to transmit.
    Byte(u8),
    /// Nothing is queued for now.
    Empty,
    /// The queue is closed for good.
    Closed,
}

/// What the transmit loop does after a poll.
#[derive(Debug, PartialEq, Eq)]
pub enum TransmitAction {
    /// Go through the slots in order: send one pulse in each slot that is
    /// `true`, and after every slot, pulse or not, wait `slot_micros`.
    Slots { pulses: Vec<bool>, slot_micros: u64 },
    /// Wait `millis`, then poll again.
    Idle { millis: u64 },
    /// Leave the loop.
    Stop,
}

/// Decides the next action of the transmit loop: a byte becomes eight pulse
/// slots, least significant bit first; an empty queue an idle wait; a closed
/// queue the end of the loop.
pub fn next_action(poll: QueuePoll) -> (action: TransmitAction)
    ensures
        match poll {
            QueuePoll::Byte(byte) => action matches TransmitAction::Slots { pulses, slot_micros }
                && pulses@ == byte_bits(byte) && slot_micros == PULSE_SLEEP_MICROS,
            QueuePoll::Empty => action matches TransmitAction::Idle { millis } && millis
                == THREAD_SLEEP_MILLIS,
            QueuePoll::Closed => action is Stop,
        },
{
    match poll {
        QueuePoll::Byte(byte) => TransmitAction::Slots {
            pulses: byte_to_bits(byte),
            slot_micros: PULSE_SLEEP_MICROS,
        },
        QueuePoll::Empty => TransmitAction::Idle { millis: THREAD_SLEEP_MILLIS },
        QueuePoll::Closed => TransmitAction::Stop,
    }
}

} // verus!
