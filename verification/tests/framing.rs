use fmc_protocol::framing::{
    check_frame_length, decode_frame_header, encode_frame, encode_frame_header, parse_frame,
    FrameError, FrameParse, MAX_HANDSHAKE_PACKET_LENGTH,
};

#[test]
fn header_is_big_endian() {
    assert_eq!(encode_frame_header(0x0102_0304), [1, 2, 3, 4]);
    assert_eq!(encode_frame_header(300), [0, 0, 1, 44]);
}

#[test]
fn header_decodes_big_endian() {
    assert_eq!(decode_frame_header([1, 2, 3, 4]), 0x0102_0304);
    assert_eq!(decode_frame_header([0, 0, 0, 100]), 100);
    assert_eq!(decode_frame_header([255, 255, 255, 255]), u32::MAX);
}

#[test]
fn header_roundtrip() {
    for n in [0u32, 1, 99, 100, 101, 256, 65_535, 65_536, 0x00ff_ff00, u32::MAX - 1, u32::MAX] {
        assert_eq!(decode_frame_header(encode_frame_header(n)), n);
    }
}

#[test]
fn frame_is_length_then_payload() {
    assert_eq!(encode_frame(b"abc"), vec![0, 0, 0, 3, b'a', b'b', b'c']);
    assert_eq!(encode_frame(&[]), vec![0, 0, 0, 0]);
}

#[test]
fn frame_roundtrip_with_trailing_bytes() {
    let payload: Vec<u8> = (0..50u8).collect();
    let mut buf = encode_frame(&payload);
    buf.extend_from_slice(&[9, 9, 9]);
    assert_eq!(
        parse_frame(&buf, 100),
        Ok(FrameParse::Complete { payload: payload.clone(), consumed: 54 })
    );
}

#[test]
fn two_frames_back_to_back() {
    let mut buf = encode_frame(b"first");
    buf.extend_from_slice(&encode_frame(b"second"));
    let consumed = match parse_frame(&buf, 100) {
        Ok(FrameParse::Complete { payload, consumed }) => {
            assert_eq!(payload, b"first".to_vec());
            consumed
        }
        other => panic!("unexpected {:?}", other),
    };
    assert_eq!(consumed, 9);
    assert_eq!(
        parse_frame(&buf[consumed..], 100),
        Ok(FrameParse::Complete { payload: b"second".to_vec(), consumed: 10 })
    );
}

#[test]
fn empty_payload_frame() {
    assert_eq!(
        parse_frame(&[0, 0, 0, 0], 0),
        Ok(FrameParse::Complete { payload: vec![], consumed: 4 })
    );
}

#[test]
fn short_header_is_incomplete() {
    assert_eq!(parse_frame(&[], 100), Ok(FrameParse::Incomplete));
    assert_eq!(parse_frame(&[0, 0, 0], 100), Ok(FrameParse::Incomplete));
}

#[test]
fn every_prefix_of_a_frame_is_incomplete() {
    let frame = encode_frame(b"hello world");
    for n in 0..frame.len() {
        assert_eq!(parse_frame(&frame[..n], 100), Ok(FrameParse::Incomplete));
    }
}

#[test]
fn oversized_header_is_refused_before_the_body() {
    assert_eq!(
        parse_frame(&[0, 0, 0, 101], MAX_HANDSHAKE_PACKET_LENGTH),
        Err(FrameError::TooLarge { length: 101, max: 100 })
    );
    assert_eq!(
        parse_frame(&[255, 255, 255, 255, 1, 2], 1000),
        Err(FrameError::TooLarge { length: u32::MAX, max: 1000 })
    );
}

#[test]
fn length_check_at_the_limit() {
    assert_eq!(MAX_HANDSHAKE_PACKET_LENGTH, 100);
    assert_eq!(check_frame_length(100, 100), Ok(100));
    assert_eq!(check_frame_length(0, 100), Ok(0));
    assert_eq!(check_frame_length(101, 100), Err(FrameError::TooLarge { length: 101, max: 100 }));
}

#[test]
fn frame_at_the_limit_is_accepted() {
    let payload = vec![7u8; 100];
    let frame = encode_frame(&payload);
    assert_eq!(
        parse_frame(&frame, 100),
        Ok(FrameParse::Complete { payload: payload.clone(), consumed: 104 })
    );
    assert_eq!(
        parse_frame(&frame, 99),
        Err(FrameError::TooLarge { length: 100, max: 99 })
    );
}
