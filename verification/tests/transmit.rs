use radio::transmit::{
    next_action, QueuePoll, TransmitAction, PULSE_SLEEP_MICROS, THREAD_SLEEP_MILLIS,
};

#[test]
fn timing_constants() {
    assert_eq!(PULSE_SLEEP_MICROS, 900);
    assert_eq!(THREAD_SLEEP_MILLIS, 50);
}

#[test]
fn byte_becomes_eight_slots_lowest_bit_first() {
    assert_eq!(
        next_action(QueuePoll::Byte(0b0000_0111)),
        TransmitAction::Slots {
            pulses: vec![true, true, true, false, false, false, false, false],
            slot_micros: 900,
        }
    );
    assert_eq!(
        next_action(QueuePoll::Byte(0x80)),
        TransmitAction::Slots {
            pulses: vec![false, false, false, false, false, false, false, true],
            slot_micros: 900,
        }
    );
}

#[test]
fn zero_byte_still_takes_eight_slots() {
    assert_eq!(
        next_action(QueuePoll::Byte(0)),
        TransmitAction::Slots { pulses: vec![false; 8], slot_micros: 900 }
    );
}

#[test]
fn empty_queue_idles() {
    assert_eq!(next_action(QueuePoll::Empty), TransmitAction::Idle { millis: 50 });
}

#[test]
fn closed_queue_stops_the_loop() {
    assert_eq!(next_action(QueuePoll::Closed), TransmitAction::Stop);
}
