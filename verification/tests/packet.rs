use fmc_protocol::framing::{parse_frame, FrameParse};
use fmc_protocol::packet::{decode_packet, encode_packet, frame_packet};

#[test]
fn packet_layout_is_length_prefixed_little_endian() {
    let bytes = encode_packet(&"Hi".to_string(), &vec![7, 8, 9]);
    assert_eq!(
        bytes,
        vec![2, 0, 0, 0, 0, 0, 0, 0, b'H', b'i', 3, 0, 0, 0, 0, 0, 0, 0, 7, 8, 9]
    );
}

#[test]
fn kind_is_written_as_utf8() {
    let bytes = encode_packet(&"é".to_string(), &vec![]);
    assert_eq!(bytes, vec![2, 0, 0, 0, 0, 0, 0, 0, 0xc3, 0xa9, 0, 0, 0, 0, 0, 0, 0, 0]);
    assert_eq!(decode_packet(&bytes), Some(("é".to_string(), vec![])));
}

#[test]
fn packet_roundtrip_with_trailing_bytes() {
    let mut bytes = encode_packet(&"ClientReady".to_string(), &vec![]);
    assert_eq!(decode_packet(&bytes), Some(("ClientReady".to_string(), vec![])));
    bytes.extend_from_slice(&[1, 2, 3]);
    assert_eq!(decode_packet(&bytes), Some(("ClientReady".to_string(), vec![])));
}

#[test]
fn truncated_packets_do_not_decode() {
    let bytes = encode_packet(&"Chat".to_string(), &vec![1, 2, 3, 4]);
    for n in 0..bytes.len() {
        assert_eq!(decode_packet(&bytes[..n]), None);
    }
}

#[test]
fn kind_that_is_not_utf8_does_not_decode() {
    let bytes = vec![1, 0, 0, 0, 0, 0, 0, 0, 0xff, 0, 0, 0, 0, 0, 0, 0, 0];
    assert_eq!(decode_packet(&bytes), None);
}

#[test]
fn framed_packet_is_received_as_sent() {
    let kind = "ModelUpdateAsset".to_string();
    let data = vec![1, 0, 0, 0, 2, 0, 0, 0];
    let frame = frame_packet(&kind, &data, 100).unwrap();
    match parse_frame(&frame, 100) {
        Ok(FrameParse::Complete { payload, consumed }) => {
            assert_eq!(consumed, frame.len());
            assert_eq!(decode_packet(&payload), Some((kind, data)));
        }
        other => panic!("unexpected {:?}", other),
    }
}

#[test]
fn packet_over_the_limit_is_not_framed() {
    let kind = "K".to_string();
    let data = vec![0u8; 10];
    // 8 + 1 + 8 + 10 bytes of packet
    assert!(frame_packet(&kind, &data, 27).is_some());
    assert_eq!(frame_packet(&kind, &data, 26), None);
}
