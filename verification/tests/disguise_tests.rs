use proteus_core::disguise::{decode_cover, encode_cover, parse_decimal_u32, u32_to_decimal};

#[test]
fn cover_line_has_expected_shape() {
    // base64 of "hi" is "aGk=".
    let line = encode_cover(&b"hi".to_vec(), 5);
    assert_eq!(line, b"GET /search?q=aGk=&seq=5 HTTP/1.1\n".to_vec());
}

#[test]
fn cover_round_trip_plain() {
    let frame = b"hello world".to_vec();
    let line = encode_cover(&frame, 0);
    assert_eq!(decode_cover(&line), Some((frame, 0)));
}

#[test]
fn cover_round_trip_url_special_bytes() {
    // Bytes that are special to URL/HTTP syntax must survive unharmed.
    let frame = b"q=&seq= HTTP/1.1\r\n&&??==".to_vec();
    let line = encode_cover(&frame, 4_294_967_295);
    assert_eq!(decode_cover(&line), Some((frame, 4_294_967_295)));
}

#[test]
fn cover_round_trip_binary_frame() {
    let mut frame = Vec::new();
    for i in 0..=255u8 {
        frame.push(i);
    }
    let line = encode_cover(&frame, 123_456);
    assert_eq!(decode_cover(&line), Some((frame, 123_456)));
}

#[test]
fn cover_round_trip_base64_ending_in_q_pad() {
    // A frame whose base64 ends in "q=" must not confuse the marker scan:
    // base64 of [0xAA, 0xAA] is "qqo=".
    let frame = vec![0xAA, 0xAA];
    let line = encode_cover(&frame, 9);
    assert_eq!(decode_cover(&line), Some((frame, 9)));
}

#[test]
fn decode_tolerates_garbage_lines() {
    assert_eq!(decode_cover(&b"".to_vec()), None);
    assert_eq!(decode_cover(&b"GET / HTTP/1.1\n".to_vec()), None);
    assert_eq!(decode_cover(&b"completely unrelated text".to_vec()), None);
    // Markers present but the field is not valid base64.
    assert_eq!(decode_cover(&b"GET /search?q=@@@@&seq=1 HTTP/1.1\n".to_vec()), None);
    // Markers present but no digits follow.
    assert_eq!(decode_cover(&b"GET /search?q=aGk=&seq= HTTP/1.1\n".to_vec()), None);
}

#[test]
fn decode_requires_canonical_sequence_field() {
    // A leading zero is not the canonical rendering of any number.
    assert_eq!(decode_cover(&b"GET /search?q=aGk=&seq=007 HTTP/1.1\n".to_vec()), None);
}

#[test]
fn decoded_base64_is_really_decoded() {
    // The line carries "aGk=", never the raw frame bytes; decoding must
    // hand back the frame, not the field text.
    let line = b"GET /search?q=aGk=&seq=1 HTTP/1.1\n".to_vec();
    let (frame, seq) = decode_cover(&line).unwrap();
    assert_eq!(frame, b"hi".to_vec());
    assert_eq!(seq, 1);
}

#[test]
fn decimal_renders_canonically() {
    assert_eq!(u32_to_decimal(0), b"0".to_vec());
    assert_eq!(u32_to_decimal(10), b"10".to_vec());
    assert_eq!(u32_to_decimal(4_294_967_295), b"4294967295".to_vec());
}

#[test]
fn decimal_parse_inverts_render() {
    for n in [0u32, 1, 9, 10, 99, 100, 65_535, 4_294_967_295] {
        assert_eq!(parse_decimal_u32(&u32_to_decimal(n)), Some(n));
    }
}

#[test]
fn decimal_parse_rejects_malformed() {
    assert_eq!(parse_decimal_u32(b""), None);
    assert_eq!(parse_decimal_u32(b"01"), None);
    assert_eq!(parse_decimal_u32(b"1x"), None);
    assert_eq!(parse_decimal_u32(b"4294967296"), None);
    assert_eq!(parse_decimal_u32(b"99999999999"), None);
}
