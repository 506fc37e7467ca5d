use radio::bits::byte_to_bits;
use radio::decode::{collect_frames, decode_block, decode_gap, scan_edges, MIN_GAP, PERIOD};
use radio::framing::encode_frame;
use radio::transmit::{next_action, QueuePoll, TransmitAction};

/// One mark per sample: every slot lasts a period, and a pulse marks the
/// sample `offset` into its slot.
fn marks_of_slots(slots: &[bool], period: usize, offset: usize) -> Vec<bool> {
    let mut marks = vec![false; slots.len() * period];
    for (slot, pulse) in slots.iter().enumerate() {
        if *pulse {
            marks[slot * period + offset] = true;
        }
    }
    marks
}

fn slots_of_bytes(bytes: &[u8]) -> Vec<bool> {
    let mut slots = Vec::new();
    for byte in bytes {
        match next_action(QueuePoll::Byte(*byte)) {
            TransmitAction::Slots { pulses, .. } => slots.extend(pulses),
            other => panic!("a byte gave {:?}", other),
        }
    }
    slots
}

#[test]
fn nominal_timing() {
    assert_eq!(PERIOD, 3300);
    assert_eq!(MIN_GAP, 10);
}

#[test]
fn gap_shorter_than_a_period_is_one_pulse_bit() {
    assert_eq!(decode_gap(50, 3300), vec![true]);
}

#[test]
fn gap_of_6700_samples_has_two_silent_bits() {
    assert_eq!(decode_gap(6700, 3300), vec![false, false, true]);
}

#[test]
fn gap_at_the_period_boundaries() {
    assert_eq!(decode_gap(0, 3300), vec![true]);
    assert_eq!(decode_gap(1, 3300), vec![true]);
    assert_eq!(decode_gap(3300, 3300), vec![true]);
    assert_eq!(decode_gap(3301, 3300), vec![false, true]);
    assert_eq!(decode_gap(6600, 3300), vec![false, true]);
    assert_eq!(decode_gap(6601, 3300), vec![false, false, true]);
    assert_eq!(decode_gap(9900, 3300), vec![false, false, true]);
}

#[test]
fn gap_with_a_period_of_one_sample() {
    assert_eq!(decode_gap(4, 1), vec![false, false, false, true]);
}

#[test]
fn block_without_marks_has_no_bits() {
    assert_eq!(scan_edges(&[false; 100], 10, 3300), Vec::<bool>::new());
    assert_eq!(scan_edges(&[], 10, 3300), Vec::<bool>::new());
}

#[test]
fn first_gap_is_measured_from_the_start_of_the_block() {
    let mut marks = vec![false; 8000];
    marks[6700] = true;
    assert_eq!(scan_edges(&marks, 10, 3300), vec![false, false, true]);
}

#[test]
fn edge_within_the_minimum_gap_of_the_block_start_is_ignored() {
    let mut marks = vec![false; 100];
    marks[10] = true;
    assert_eq!(scan_edges(&marks, 10, 3300), Vec::<bool>::new());
    marks[11] = true;
    assert_eq!(scan_edges(&marks, 10, 3300), vec![true]);
}

#[test]
fn ignored_edge_does_not_become_the_last_edge() {
    // Accepted at 20; 25 and 30 are too close to 20 and are ignored; 31 is
    // 11 samples after 20, the last accepted edge, and counts.
    let mut marks = vec![false; 100];
    marks[20] = true;
    marks[25] = true;
    marks[30] = true;
    marks[31] = true;
    assert_eq!(scan_edges(&marks, 10, 3300), vec![true, true]);

    // Without the edge at 31 nothing follows the first bit.
    marks[31] = false;
    assert_eq!(scan_edges(&marks, 10, 3300), vec![true]);
}

#[test]
fn gaps_between_edges_give_runs_of_silent_bits() {
    let mut marks = vec![false; 20000];
    marks[100] = true;
    marks[100 + 3300] = true;
    marks[100 + 3300 + 9900] = true;
    assert_eq!(
        scan_edges(&marks, 10, 3300),
        vec![true, true, false, false, true]
    );
}

#[test]
fn pulses_on_the_slot_grid_give_back_the_slots() {
    let slots = [true, false, false, true, true, false, true];
    let marks = marks_of_slots(&slots, 3300, 100);
    assert_eq!(scan_edges(&marks, 10, 3300), slots.to_vec());
}

#[test]
fn collect_frames_starts_from_a_new_accumulator() {
    let mut bits = Vec::new();
    for byte in [7u8, 0x41, 0x42, 0x43] {
        bits.extend(byte_to_bits(byte));
    }
    assert_eq!(collect_frames(&bits), Vec::<Vec<u8>>::new());
    bits.push(true);
    assert_eq!(collect_frames(&bits), vec![vec![0x41, 0x42, 0x43]]);
}

#[test]
fn frame_sent_on_the_slot_grid_is_decoded_from_one_block() {
    let payload = [0x41u8, 0x42, 0x43];
    let mut slots = slots_of_bytes(&encode_frame(&payload));
    // The pulse of whatever is sent next passes the last byte on.
    slots.push(true);
    let marks = marks_of_slots(&slots, PERIOD, 100);
    assert_eq!(decode_block(&marks), vec![payload.to_vec()]);
}

#[test]
fn two_frames_in_one_block_are_both_decoded() {
    let mut bytes = encode_frame(&[0xDE, 0xAD]);
    bytes.extend(encode_frame(&[0xBE, 0xEF, 0x01]));
    let mut slots = slots_of_bytes(&bytes);
    slots.push(true);
    let marks = marks_of_slots(&slots, PERIOD, 1650);
    assert_eq!(
        decode_block(&marks),
        vec![vec![0xDE, 0xAD], vec![0xBE, 0xEF, 0x01]]
    );
}

#[test]
fn frame_split_over_two_blocks_is_lost() {
    let payload = [0x41u8, 0x42, 0x43];
    let mut slots = slots_of_bytes(&encode_frame(&payload));
    slots.push(true);
    let marks = marks_of_slots(&slots, PERIOD, 100);
    assert_eq!(decode_block(&marks), vec![payload.to_vec()]);

    for cut_slot in [1usize, 8, 12, 16, 24, 31, 32] {
        let (first, second) = marks.split_at(cut_slot * PERIOD);
        let frames_first = decode_block(first);
        let frames_second = decode_block(second);
        assert!(!frames_first.contains(&payload.to_vec()));
        assert!(!frames_second.contains(&payload.to_vec()));
    }
}

#[test]
fn each_block_is_decoded_on_its_own() {
    let payload = [0x10u8, 0x20];
    let mut slots = slots_of_bytes(&encode_frame(&payload));
    slots.push(true);
    let marks = marks_of_slots(&slots, PERIOD, 100);
    // The same block gives the same frames whatever was decoded before it.
    let _ = decode_block(&marks[..5 * PERIOD]);
    assert_eq!(decode_block(&marks), vec![payload.to_vec()]);
    assert_eq!(decode_block(&marks), vec![payload.to_vec()]);
}

#[test]
fn block_of_noise_free_silence_has_no_frames() {
    assert_eq!(decode_block(&vec![false; 50000]), Vec::<Vec<u8>>::new());
}
