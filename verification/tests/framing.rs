use gdscript_formatter::frame::{decode_frame, encode_frame};

#[test]
fn a_payload_frames_to_its_length_plus_four() {
    let payload: Vec<u8> = b"hello".to_vec();
    let frame = encode_frame(&payload).unwrap();
    assert_eq!(frame.len(), 9);
    assert_eq!(frame, vec![5u8, 0, 0, 0, b'h', b'e', b'l', b'l', b'o']);
}

#[test]
fn the_empty_payload_frames_to_four_bytes() {
    let frame = encode_frame(&Vec::new()).unwrap();
    assert_eq!(frame, vec![0u8, 0, 0, 0]);
}

#[test]
fn round_trip_consumes_exactly_the_frame() {
    let payload: Vec<u8> = b"func foo():\n\tpass\n".to_vec();
    let mut wire = encode_frame(&payload).unwrap();
    wire.extend_from_slice(b"trailing bytes of the next frame");
    let (decoded, consumed) = decode_frame(&wire).unwrap();
    assert_eq!(decoded, payload);
    assert_eq!(consumed, payload.len() + 4);
}

#[test]
fn a_short_header_is_refused() {
    let wire: Vec<u8> = vec![5, 0, 0];
    assert!(decode_frame(&wire).is_none());
}

#[test]
fn a_truncated_payload_is_refused() {
    let wire: Vec<u8> = vec![5, 0, 0, 0, b'a', b'b'];
    assert!(decode_frame(&wire).is_none());
}

#[test]
fn the_length_prefix_is_little_endian() {
    let payload: Vec<u8> = vec![0u8; 258];
    let frame = encode_frame(&payload).unwrap();
    assert_eq!(&frame[0..4], &[2u8, 1, 0, 0]);
    let (decoded, consumed) = decode_frame(&frame).unwrap();
    assert_eq!(decoded.len(), 258);
    assert_eq!(consumed, 262);
}
