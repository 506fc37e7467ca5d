use radio::framing::{encode_frame, MAX_BYTES};

#[test]
fn max_payload_is_127_bytes() {
    assert_eq!(MAX_BYTES, 127);
}

#[test]
fn header_comes_first_and_payload_follows_unchanged() {
    assert_eq!(encode_frame(&[0x41, 0x42, 0x43]), vec![7, 0x41, 0x42, 0x43]);
}

#[test]
fn payload_of_127_bytes_has_header_255() {
    let payload = vec![0x5Au8; 127];
    let bytes = encode_frame(&payload);
    assert_eq!(bytes.len(), 128);
    assert_eq!(bytes[0], 255);
    assert_eq!(&bytes[1..], &payload[..]);
}

#[test]
fn payload_of_one_byte_has_header_3() {
    assert_eq!(encode_frame(&[0xFF]), vec![3, 0xFF]);
}

#[test]
fn empty_payload_is_the_bare_marker() {
    assert_eq!(encode_frame(&[]), vec![1]);
}
