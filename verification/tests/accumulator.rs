use radio::accumulator::ByteAccumulator;
use radio::bits::byte_to_bits;

fn feed_bytes_as_bits(acc: &mut ByteAccumulator, bytes: &[u8]) -> Vec<Vec<u8>> {
    let mut frames = Vec::new();
    for byte in bytes {
        for bit in byte_to_bits(*byte) {
            if let Some(frame) = acc.accumulate_bit(bit) {
                frames.push(frame);
            }
        }
    }
    frames
}

#[test]
fn new_accumulator_awaits_a_header_and_holds_nothing() {
    let acc = ByteAccumulator::new();
    assert!(acc.is_awaiting_header());
    assert_eq!(acc.expected_length(), 0);
    assert_eq!(acc.payload_so_far(), &[] as &[u8]);
    assert_eq!(acc.partial_byte(), 0);
    assert_eq!(acc.partial_bit_count(), 0);
}

#[test]
fn first_bit_becomes_bit_zero() {
    let mut acc = ByteAccumulator::new();
    assert_eq!(acc.accumulate_bit(true), None);
    assert_eq!(acc.partial_byte(), 0b0000_0001);
    assert_eq!(acc.partial_bit_count(), 1);
    assert_eq!(acc.accumulate_bit(false), None);
    assert_eq!(acc.accumulate_bit(true), None);
    assert_eq!(acc.partial_byte(), 0b0000_0101);
    assert_eq!(acc.partial_bit_count(), 3);
}

#[test]
fn eight_bits_are_held_until_the_next_bit_arrives() {
    let mut acc = ByteAccumulator::new();
    let frames = feed_bytes_as_bits(&mut acc, &[7]);
    assert!(frames.is_empty());
    assert_eq!(acc.partial_byte(), 7);
    assert_eq!(acc.partial_bit_count(), 8);
    assert!(acc.is_awaiting_header());

    assert_eq!(acc.accumulate_bit(true), None);
    assert_eq!(acc.expected_length(), 3);
    assert_eq!(acc.partial_byte(), 1);
    assert_eq!(acc.partial_bit_count(), 1);
}

#[test]
fn frame_of_three_bytes_round_trips_bit_by_bit() {
    let mut acc = ByteAccumulator::new();
    let header = (3u8 << 1) | 1;
    assert_eq!(header, 7);

    // All 32 bits: the header and two payload bytes have been passed on,
    // the third payload byte is held in full.
    let frames = feed_bytes_as_bits(&mut acc, &[header, 0x41, 0x42, 0x43]);
    assert!(frames.is_empty());
    assert_eq!(acc.expected_length(), 3);
    assert_eq!(acc.payload_so_far(), &[0x41, 0x42]);
    assert_eq!(acc.partial_byte(), 0x43);
    assert_eq!(acc.partial_bit_count(), 8);

    // The bit after the last passes that byte on and completes the frame.
    assert_eq!(acc.accumulate_bit(false), Some(vec![0x41, 0x42, 0x43]));
    assert!(acc.is_awaiting_header());
    assert_eq!(acc.expected_length(), 0);
    assert_eq!(acc.payload_so_far(), &[] as &[u8]);
    assert_eq!(acc.partial_byte(), 0);
    assert_eq!(acc.partial_bit_count(), 1);
}

#[test]
fn frame_of_three_bytes_round_trips_byte_by_byte() {
    let mut acc = ByteAccumulator::new();
    assert_eq!(acc.accumulate_byte(7), None);
    assert!(!acc.is_awaiting_header());
    assert_eq!(acc.expected_length(), 3);
    assert_eq!(acc.accumulate_byte(0x41), None);
    assert_eq!(acc.accumulate_byte(0x42), None);
    assert_eq!(acc.payload_so_far(), &[0x41, 0x42]);
    assert_eq!(acc.accumulate_byte(0x43), Some(vec![0x41, 0x42, 0x43]));
    assert!(acc.is_awaiting_header());
    assert_eq!(acc.expected_length(), 0);
    assert_eq!(acc.payload_so_far(), &[] as &[u8]);
}

#[test]
fn two_frames_in_a_row_come_out_in_order() {
    let mut acc = ByteAccumulator::new();
    let mut frames = feed_bytes_as_bits(&mut acc, &[5, 0xAA, 0xBB, 3, 0xCC]);
    if let Some(frame) = acc.accumulate_bit(true) {
        frames.push(frame);
    }
    assert_eq!(frames, vec![vec![0xAA, 0xBB], vec![0xCC]]);
    assert!(acc.is_awaiting_header());
}

#[test]
fn marker_bit_of_the_header_is_dropped() {
    let mut acc = ByteAccumulator::new();
    assert_eq!(acc.accumulate_byte(6), None);
    assert_eq!(acc.expected_length(), 3);

    let mut acc = ByteAccumulator::new();
    assert_eq!(acc.accumulate_byte(255), None);
    assert_eq!(acc.expected_length(), 127);
}

#[test]
fn header_of_length_zero_never_gives_a_frame() {
    let mut acc = ByteAccumulator::new();
    assert_eq!(acc.accumulate_byte(1), None);
    assert!(acc.is_awaiting_header());
    for _ in 0..1000 {
        assert_eq!(acc.accumulate_byte(1), None);
        assert_eq!(acc.accumulate_byte(0), None);
        assert!(acc.is_awaiting_header());
        assert_eq!(acc.payload_so_far(), &[] as &[u8]);
    }
    // The byte after it is read as a header again.
    assert_eq!(acc.accumulate_byte(5), None);
    assert_eq!(acc.expected_length(), 2);
    assert_eq!(acc.accumulate_byte(0x10), None);
    assert_eq!(acc.accumulate_byte(0x20), Some(vec![0x10, 0x20]));
}

#[test]
fn header_of_length_zero_stalls_bit_by_bit_too() {
    let mut acc = ByteAccumulator::new();
    let frames = feed_bytes_as_bits(&mut acc, &[1, 1, 1, 1, 1, 1, 1, 1, 1]);
    assert!(frames.is_empty());
    assert!(acc.is_awaiting_header());
    assert_eq!(acc.payload_so_far(), &[] as &[u8]);
}

#[test]
fn longest_frame_comes_out_whole() {
    let payload: Vec<u8> = (0..127u8).collect();
    let mut acc = ByteAccumulator::new();
    assert_eq!(acc.accumulate_byte(255), None);
    for byte in &payload[..126] {
        assert_eq!(acc.accumulate_byte(*byte), None);
    }
    assert_eq!(acc.accumulate_byte(payload[126]), Some(payload));
    assert!(acc.is_awaiting_header());
}

#[test]
fn byte_to_bits_is_lowest_bit_first() {
    assert_eq!(
        byte_to_bits(0b0000_0111),
        vec![true, true, true, false, false, false, false, false]
    );
    assert_eq!(
        byte_to_bits(0x80),
        vec![false, false, false, false, false, false, false, true]
    );
    assert_eq!(byte_to_bits(0), vec![false; 8]);
    assert_eq!(byte_to_bits(255), vec![true; 8]);
}
