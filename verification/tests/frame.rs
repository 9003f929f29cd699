use ironbus_server::cluster::frame::{
    decode_frame_with_cap, encode_frame, FrameDecode, FrameError, FrameType, WireProtocol,
};

const PROTOCOL: WireProtocol = WireProtocol {
    raft: 30,
    fetch_records: 31,
    fetch_response: 32,
    ack_replicated: 33,
    offset_for_leader_epoch: 34,
    max_frame_len: 1 << 20,
};

#[test]
fn a_frame_is_a_length_a_tag_and_a_body() {
    let mut out = vec![0xaa];
    encode_frame(3, b"hi", 16, &mut out).expect("fits");
    assert_eq!(out, vec![0xaa, 3, 0, 0, 0, 3, b'h', b'i']);
    match decode_frame_with_cap(&out[1..], 16) {
        Ok(FrameDecode::Frame { type_tag, body, consumed }) => {
            assert_eq!(type_tag, 3);
            assert_eq!(body, &b"hi"[..]);
            assert_eq!(consumed, 7);
        }
        other => panic!("expected a frame, got {other:?}"),
    }
}

#[test]
fn every_prefix_of_a_frame_is_incomplete() {
    let mut out = Vec::new();
    encode_frame(9, &[1, 2, 3], 16, &mut out).expect("fits");
    for n in 0..out.len() {
        assert!(matches!(
            decode_frame_with_cap(&out[..n], 16),
            Ok(FrameDecode::Incomplete)
        ));
    }
    // What follows a frame is left alone.
    out.extend_from_slice(&[0xff; 9]);
    assert!(matches!(
        decode_frame_with_cap(&out, 16),
        Ok(FrameDecode::Frame { type_tag: 9, consumed: 8, .. })
    ));
}

#[test]
fn too_large_and_empty_frames_are_refused() {
    let mut out = vec![1];
    assert_eq!(
        encode_frame(3, &[0; 16], 16, &mut out),
        Err(FrameError::FrameTooLarge { len: 17 })
    );
    assert_eq!(out, vec![1]);
    assert!(matches!(
        decode_frame_with_cap(&[17, 0, 0, 0], 16),
        Err(FrameError::FrameTooLarge { len: 17 })
    ));
    assert!(matches!(
        decode_frame_with_cap(&[0, 0, 0, 0, 1], 16),
        Err(FrameError::EmptyFrame)
    ));
}

#[test]
fn tags_and_types_correspond() {
    for t in [
        FrameType::Ping,
        FrameType::Raft,
        FrameType::FetchRecords,
        FrameType::FetchResponse,
        FrameType::AckReplicated,
        FrameType::OffsetForLeaderEpoch,
        FrameType::MirrorPull,
        FrameType::LeafPush,
        FrameType::CommittedHwQuery,
    ] {
        assert_eq!(PROTOCOL.frame_type(PROTOCOL.tag(t)), Some(t));
    }
    assert_eq!(PROTOCOL.tag(FrameType::Ping), 3);
    assert_eq!(PROTOCOL.tag(FrameType::MirrorPull), 40);
    assert_eq!(PROTOCOL.tag(FrameType::LeafPush), 41);
    assert_eq!(PROTOCOL.tag(FrameType::CommittedHwQuery), 43);
    assert_eq!(PROTOCOL.frame_type(200), None);
}
