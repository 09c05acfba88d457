use broadcast_relay::frame::{decode, encode, Frame, FrameError, FRAME_SIZE};

fn frame_with(prefix: &[u8]) -> Frame {
    let mut bytes = [0u8; FRAME_SIZE];
    bytes[..prefix.len()].copy_from_slice(prefix);
    Frame { bytes }
}

#[test]
fn frame_size_is_thirty_two() {
    assert_eq!(FRAME_SIZE, 32);
}

#[test]
fn encode_pads_with_zero_bytes() {
    let frame = encode("hello").unwrap();
    let mut expected = [0u8; 32];
    expected[0] = b'h';
    expected[1] = b'e';
    expected[2] = b'l';
    expected[3] = b'l';
    expected[4] = b'o';
    assert_eq!(frame.bytes, expected);
}

#[test]
fn encode_empty_text_is_all_zero() {
    let frame = encode("").unwrap();
    assert_eq!(frame.bytes, [0u8; 32]);
}

#[test]
fn encode_succeeds_at_exactly_frame_size() {
    let text = "a".repeat(32);
    let frame = encode(&text).unwrap();
    assert_eq!(frame.bytes, [b'a'; 32]);
}

#[test]
fn encode_fails_one_byte_over_frame_size() {
    let text = "a".repeat(33);
    assert_eq!(encode(&text), Err(FrameError::FrameTooLarge));
}

#[test]
fn encode_fails_on_long_text() {
    let text = "x".repeat(1000);
    assert_eq!(encode(&text), Err(FrameError::FrameTooLarge));
}

#[test]
fn encode_counts_bytes_not_characters() {
    // Sixteen two-byte characters fill a frame; a seventeenth does not fit.
    let fits = "\u{e9}".repeat(16);
    let frame = encode(&fits).unwrap();
    for pair in frame.bytes.chunks(2) {
        assert_eq!(pair, &[0xc3, 0xa9]);
    }
    let too_long = "\u{e9}".repeat(17);
    assert_eq!(too_long.chars().count(), 17);
    assert_eq!(encode(&too_long), Err(FrameError::FrameTooLarge));
}

#[test]
fn encode_writes_multibyte_sequences() {
    let frame = encode("h\u{e9}\u{20ac}\u{1f600}").unwrap();
    let expected = frame_with(&[b'h', 0xc3, 0xa9, 0xe2, 0x82, 0xac, 0xf0, 0x9f, 0x98, 0x80]);
    assert_eq!(frame, expected);
}

#[test]
fn decode_stops_at_first_zero_byte() {
    let frame = frame_with(b"hi\0there");
    assert_eq!(decode(&frame), Ok(String::from("hi")));
}

#[test]
fn decode_reads_whole_frame_without_zero_byte() {
    let frame = Frame { bytes: [b'x'; 32] };
    assert_eq!(decode(&frame), Ok("x".repeat(32)));
}

#[test]
fn decode_all_zero_frame_is_empty_text() {
    let frame = Frame { bytes: [0u8; 32] };
    assert_eq!(decode(&frame), Ok(String::new()));
}

#[test]
fn decode_leading_zero_hides_the_rest() {
    let frame = frame_with(&[0, 0xff, 0xfe, b'a']);
    assert_eq!(decode(&frame), Ok(String::new()));
}

#[test]
fn decode_rejects_invalid_utf8() {
    let frame = Frame { bytes: [0xff; 32] };
    assert_eq!(decode(&frame), Err(FrameError::InvalidEncoding));
}

#[test]
fn decode_rejects_truncated_sequence() {
    let frame = frame_with(&[b'a', 0xc3]);
    assert_eq!(decode(&frame), Err(FrameError::InvalidEncoding));
}

#[test]
fn decode_rejects_overlong_encoding() {
    let frame = frame_with(&[0xc0, 0x80]);
    assert_eq!(decode(&frame), Err(FrameError::InvalidEncoding));
}

#[test]
fn decode_rejects_surrogate() {
    let frame = frame_with(&[0xed, 0xa0, 0x80]);
    assert_eq!(decode(&frame), Err(FrameError::InvalidEncoding));
}

#[test]
fn decode_ignores_invalid_bytes_behind_the_zero() {
    let frame = frame_with(&[b'o', b'k', 0, 0xff, 0xff]);
    assert_eq!(decode(&frame), Ok(String::from("ok")));
}

#[test]
fn decode_yields_characters_of_multibyte_text() {
    let frame = frame_with(&[b'h', 0xc3, 0xa9, 0xe2, 0x82, 0xac, 0xf0, 0x9f, 0x98, 0x80]);
    let text = decode(&frame).unwrap();
    let chars: Vec<char> = text.chars().collect();
    assert_eq!(chars, vec!['h', '\u{e9}', '\u{20ac}', '\u{1f600}']);
}

#[test]
fn round_trip_hello() {
    let frame = encode("hello").unwrap();
    assert_eq!(decode(&frame), Ok(String::from("hello")));
}

#[test]
fn round_trip_every_length() {
    for n in 0..=32usize {
        let text = "m".repeat(n);
        let frame = encode(&text).unwrap();
        assert_eq!(decode(&frame), Ok(text));
    }
}

#[test]
fn round_trip_mixed_widths() {
    let text = "a\u{e9}\u{20ac}\u{1f600} z";
    let frame = encode(text).unwrap();
    assert_eq!(decode(&frame), Ok(String::from(text)));
}

#[test]
fn round_trip_full_frame_of_four_byte_characters() {
    let text = "\u{1f600}".repeat(8);
    assert_eq!(text.len(), 32);
    let frame = encode(&text).unwrap();
    assert_eq!(decode(&frame), Ok(text));
}

#[test]
fn embedded_zero_cuts_the_text() {
    let frame = encode("a\0b").unwrap();
    assert_eq!(frame, frame_with(&[b'a', 0, b'b']));
    assert_eq!(decode(&frame), Ok(String::from("a")));
}
