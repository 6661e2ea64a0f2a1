use wschat::frame::{encode_text, get_text, set_text, DecodeError};

#[test]
fn test_ws_get_text() {
    let msg = "aaa";
    let buf = [129, 131, 194, 47, 97, 242, 163, 78, 0];

    let decoded = get_text(&buf).expect("failed to decode frame");
    assert_eq!(decoded, msg);
}

#[test]
fn test_ws_text_frame_small() {
    let msg = "a".repeat(3);
    let mut buf = [0; 1024];

    let _ = set_text(&mut buf, &msg);
    let decoded = get_text(&buf).expect("failed to decode frame");
    assert_eq!(decoded, msg);
}

#[test]
fn test_ws_text_frame_medium() {
    let msg = "a".repeat(150);
    let mut buf = [0; 1024];

    let _ = set_text(&mut buf, &msg);
    let decoded = get_text(&buf).expect("failed to decode frame");
    assert_eq!(decoded, msg);
}

#[test]
fn test_ws_text_frame_huge() {
    let msg = "a".repeat(65536);
    let mut buf = vec![0u8; 1024 * 1024];

    let _ = set_text(&mut buf, &msg);
    let decoded = get_text(&buf).expect("failed to decode frame");
    assert_eq!(decoded, msg);
}

#[test]
fn round_trip_at_every_length_boundary() {
    for n in [0usize, 1, 125, 126, 65535, 65536] {
        let msg = "b".repeat(n);
        let frame = encode_text(&msg);
        assert_eq!(get_text(&frame), Ok(msg));
    }
}

#[test]
fn round_trip_of_multibyte_text() {
    let msg = "héllo wörld ✓ 🦀";
    let frame = encode_text(msg);
    assert_eq!(frame[1] as usize, msg.len());
    assert_eq!(get_text(&frame).unwrap(), msg);
}

#[test]
fn short_length_is_one_byte() {
    let frame = encode_text("abc");
    assert_eq!(frame, vec![0x81, 3, b'a', b'b', b'c']);
}

#[test]
fn medium_length_uses_two_byte_field() {
    let msg = "x".repeat(126);
    let frame = encode_text(&msg);
    assert_eq!(&frame[..4], &[0x81, 126, 0, 126]);
    assert_eq!(frame.len(), 4 + 126);

    let msg = "x".repeat(65535);
    let frame = encode_text(&msg);
    assert_eq!(&frame[..4], &[0x81, 126, 0xff, 0xff]);
}

#[test]
fn large_length_uses_eight_byte_field() {
    let msg = "x".repeat(65536);
    let frame = encode_text(&msg);
    assert_eq!(&frame[..10], &[0x81, 127, 0, 0, 0, 0, 0, 1, 0, 0]);
    assert_eq!(frame.len(), 10 + 65536);
}

#[test]
fn set_text_returns_length_and_keeps_the_rest() {
    let mut buf = [7u8; 16];
    let n = set_text(&mut buf, "hi");
    assert_eq!(n, 4);
    assert_eq!(&buf[..4], &[0x81, 2, b'h', b'i']);
    assert!(buf[4..].iter().all(|&b| b == 7));
}

#[test]
fn masked_hello_decodes() {
    let frame = [0x81, 0x85, 0x37, 0xfa, 0x21, 0x3d, 0x7f, 0x9f, 0x4d, 0x51, 0x58];
    assert_eq!(get_text(&frame).unwrap(), "Hello");
}

#[test]
fn masked_decode_with_any_key() {
    let payload = "masking works for every key".as_bytes();
    for key in [[0u8, 0, 0, 0], [1, 2, 3, 4], [0xff, 0x80, 0x7f, 0x01]] {
        let mut frame = vec![0x81, 0x80 | payload.len() as u8];
        frame.extend_from_slice(&key);
        for (i, b) in payload.iter().enumerate() {
            frame.push(b ^ key[i % 4]);
        }
        assert_eq!(get_text(&frame).unwrap().as_bytes(), payload);
    }
}

#[test]
fn masked_medium_frame_decodes() {
    let payload = "m".repeat(300);
    let key = [9u8, 8, 7, 6];
    let mut frame = vec![0x81, 0x80 | 126, 1, 44];
    frame.extend_from_slice(&key);
    for (i, b) in payload.bytes().enumerate() {
        frame.push(b ^ key[i % 4]);
    }
    assert_eq!(get_text(&frame).unwrap(), payload);
}

#[test]
fn empty_and_short_buffers_are_truncated() {
    assert_eq!(get_text(&[]), Err(DecodeError::Truncated));
    assert_eq!(get_text(&[0x81]), Err(DecodeError::Truncated));
    assert_eq!(get_text(&[0x81, 5, b'a', b'b']), Err(DecodeError::Truncated));
    assert_eq!(get_text(&[0x81, 126, 0]), Err(DecodeError::Truncated));
    assert_eq!(get_text(&[0x81, 127, 0, 0, 0, 0]), Err(DecodeError::Truncated));
    assert_eq!(get_text(&[0x81, 0x81, 1, 2, 3]), Err(DecodeError::Truncated));
    assert_eq!(
        get_text(&[0x81, 127, 0xff, 0xff, 0xff, 0xff, 0xff, 0xff, 0xff, 0xff, 0]),
        Err(DecodeError::Truncated)
    );
}

#[test]
fn non_text_opcodes_are_refused() {
    assert_eq!(get_text(&[0x82, 1, 0]), Err(DecodeError::UnsupportedOpcode));
    assert_eq!(get_text(&[0x88, 0]), Err(DecodeError::UnsupportedOpcode));
    assert_eq!(get_text(&[0x80, 1, b'a']), Err(DecodeError::UnsupportedOpcode));
}

#[test]
fn invalid_utf8_is_refused() {
    assert_eq!(get_text(&[0x81, 1, 0xff]), Err(DecodeError::InvalidEncoding));
    assert_eq!(get_text(&[0x81, 2, 0xc3, 0x28]), Err(DecodeError::InvalidEncoding));
}

#[test]
fn trailing_bytes_are_ignored() {
    assert_eq!(get_text(&[0x81, 2, b'o', b'k', 1, 2, 3]).unwrap(), "ok");
}
