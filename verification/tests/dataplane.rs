use ironbus_server::cluster::dataplane::{
    confirmed_hw, decode_dataplane_peer_frame, encode_dataplane_peer_frame,
    encode_fetch_response_peer_frame, frame_type_for, DataPlaneLink, DataPlaneVerb,
    DataPlaneWireError, HwReply, LayerError, MAX_DATAPLANE_FRAME_BYTES, PARTITION_PREFIX_LEN,
};
use ironbus_server::cluster::frame::{encode_frame, FrameError, FrameType, WireProtocol};
use ironbus_server::cluster::transport::LinkRead;

const PROTOCOL: WireProtocol = WireProtocol {
    raft: 30,
    fetch_records: 31,
    fetch_response: 32,
    ack_replicated: 33,
    offset_for_leader_epoch: 34,
    max_frame_len: 16 * 1024 * 1024,
};

fn framed(frame_type: FrameType, body: &[u8]) -> Vec<u8> {
    let mut out = Vec::new();
    encode_frame(PROTOCOL.tag(frame_type), body, PROTOCOL.max_frame_len, &mut out).expect("frame");
    out
}

fn le(values: &[u64]) -> Vec<u8> {
    values.iter().flat_map(|v| v.to_le_bytes()).collect()
}

/// The body of a fetch response: its three counters, then the run of record frames.
fn fetch_response_header(high_watermark: u64, first_offset: u64, record_count: u32) -> Vec<u8> {
    let mut h = le(&[high_watermark, first_offset]);
    h.extend_from_slice(&record_count.to_le_bytes());
    h
}

#[test]
fn every_dataplane_frame_round_trips_over_the_peer_codec() {
    let mut response = fetch_response_header(25, 7, 3);
    response.extend_from_slice(&[1, 2, 3, 4, 5]);
    let mut request = le(&[7]);
    request.extend_from_slice(&8u32.to_le_bytes());
    request.extend_from_slice(&4096u32.to_le_bytes());
    let frames: [(DataPlaneVerb, Vec<u8>); 7] = [
        (DataPlaneVerb::FetchRequest, request),
        (DataPlaneVerb::FetchResponse, response),
        (DataPlaneVerb::AckReplicated, le(&[2, 19])),
        (DataPlaneVerb::EpochQuery, le(&[4])),
        (DataPlaneVerb::EpochResponse, le(&[4, 4, 14])),
        // The committed-HW confirm: request and response share the tag.
        (DataPlaneVerb::CommittedHwQuery, Vec::new()),
        (DataPlaneVerb::CommittedHwResponse, le(&[4242])),
    ];
    for (partition, (verb, body)) in frames.iter().enumerate() {
        let p = partition as u64 + 1;
        let bytes = encode_dataplane_peer_frame(&PROTOCOL, p, *verb, body).expect("encode");
        let (got, consumed) = decode_dataplane_peer_frame(&PROTOCOL, &bytes)
            .expect("decode ok")
            .expect("a complete frame");
        assert_eq!(consumed, bytes.len(), "exactly one frame consumed");
        assert_eq!(got.partition, p, "partition prefix round-trips");
        assert_eq!(got.type_tag, PROTOCOL.tag(frame_type_for(*verb)));
        assert_eq!(&got.body, body, "frame round-trips byte-faithful");
    }
}

#[test]
fn each_verb_has_its_frame_type() {
    assert_eq!(frame_type_for(DataPlaneVerb::FetchRequest), FrameType::FetchRecords);
    assert_eq!(frame_type_for(DataPlaneVerb::FetchResponse), FrameType::FetchResponse);
    assert_eq!(frame_type_for(DataPlaneVerb::AckReplicated), FrameType::AckReplicated);
    for v in [DataPlaneVerb::EpochQuery, DataPlaneVerb::EpochResponse] {
        assert_eq!(frame_type_for(v), FrameType::OffsetForLeaderEpoch);
    }
    for v in [DataPlaneVerb::CommittedHwQuery, DataPlaneVerb::CommittedHwResponse] {
        assert_eq!(frame_type_for(v), FrameType::CommittedHwQuery);
        assert_eq!(PROTOCOL.tag(frame_type_for(v)), 43);
    }
}

#[test]
fn fetch_response_single_copy_framer_is_byte_identical_to_the_generic_path() {
    for run_len in [0usize, 5, 1024, 3 * 1024 * 1024] {
        let payload: Vec<u8> = (0..run_len)
            .map(|i| u8::try_from(i % 251).unwrap())
            .collect();
        let header = fetch_response_header(987_654_321, 42, 9);
        let partition = 3u64;

        // The reference (generic) encoding: partition prefix + response body, framed.
        let mut ref_body = partition.to_le_bytes().to_vec();
        ref_body.extend_from_slice(&header);
        ref_body.extend_from_slice(&payload);
        let reference = framed(FrameType::FetchResponse, &ref_body);

        let fast = encode_fetch_response_peer_frame(&PROTOCOL, partition, &header, &payload)
            .expect("fast encode");
        assert_eq!(fast, reference, "byte-identical for a run of {run_len}");
        let generic = encode_dataplane_peer_frame(
            &PROTOCOL,
            partition,
            DataPlaneVerb::FetchResponse,
            &ref_body[PARTITION_PREFIX_LEN..],
        )
        .expect("generic encode");
        assert_eq!(generic, reference);

        let (got, consumed) = decode_dataplane_peer_frame(&PROTOCOL, &fast)
            .expect("decode ok")
            .expect("a complete frame");
        assert_eq!(consumed, fast.len());
        assert_eq!(got.partition, partition);
        assert_eq!(got.body, ref_body[PARTITION_PREFIX_LEN..]);
    }
}

#[test]
fn an_oversized_dataplane_frame_is_rejected_before_allocation() {
    // A length prefix beyond the cap, with no body present: refused on the prefix alone.
    let mut frame = Vec::new();
    let claimed = MAX_DATAPLANE_FRAME_BYTES + 100;
    frame.extend_from_slice(&claimed.to_le_bytes());
    frame.push(PROTOCOL.tag(FrameType::FetchResponse));
    match decode_dataplane_peer_frame(&PROTOCOL, &frame) {
        Err(DataPlaneWireError::Oversized { len }) => assert_eq!(len, u64::from(claimed)),
        other => panic!("expected Oversized, got {other:?}"),
    }
}

#[test]
fn an_oversized_body_is_not_framed() {
    let cap = MAX_DATAPLANE_FRAME_BYTES as usize;
    let body = vec![0u8; cap - 7];
    let over = (cap + 1) as u64;
    assert!(matches!(
        encode_dataplane_peer_frame(&PROTOCOL, 1, DataPlaneVerb::FetchResponse, &body),
        Err(DataPlaneWireError::Oversized { len }) if len == over
    ));
    assert!(matches!(
        encode_fetch_response_peer_frame(&PROTOCOL, 1, &body[..20], &body[20..]),
        Err(DataPlaneWireError::Oversized { len }) if len == over
    ));
    // The largest body that the encoder frames, prefix and body at the cap, is read back.
    let frame =
        encode_dataplane_peer_frame(&PROTOCOL, 1, DataPlaneVerb::FetchResponse, &body[..cap - 8])
            .expect("encode");
    let (got, consumed) = decode_dataplane_peer_frame(&PROTOCOL, &frame)
        .expect("decode ok")
        .expect("a complete frame");
    assert_eq!(got.body.len(), cap - 8);
    assert_eq!(consumed, frame.len());
    // A claim of one byte more is refused.
    let mut over_cap = (MAX_DATAPLANE_FRAME_BYTES + 2).to_le_bytes().to_vec();
    over_cap.push(PROTOCOL.tag(FrameType::FetchResponse));
    assert!(matches!(
        decode_dataplane_peer_frame(&PROTOCOL, &over_cap),
        Err(DataPlaneWireError::Oversized { len }) if len == over + 1
    ));
    // Under a tighter absolute bound, encoder and decoder still agree.
    let tight = WireProtocol { max_frame_len: 20, ..PROTOCOL };
    let fits =
        encode_dataplane_peer_frame(&tight, 1, DataPlaneVerb::FetchResponse, &body[..11])
            .expect("encode");
    assert!(decode_dataplane_peer_frame(&tight, &fits).expect("decode ok").is_some());
    assert!(matches!(
        encode_dataplane_peer_frame(&tight, 1, DataPlaneVerb::FetchResponse, &body[..12]),
        Err(DataPlaneWireError::Oversized { len: 21 })
    ));
}

#[test]
fn a_dataplane_frame_missing_its_partition_prefix_is_rejected() {
    let frame = framed(FrameType::FetchRecords, &[1, 2, 3]);
    assert!(matches!(
        decode_dataplane_peer_frame(&PROTOCOL, &frame),
        Err(DataPlaneWireError::MissingPartitionPrefix)
    ));
}

#[test]
fn a_non_dataplane_type_tag_is_rejected_by_the_codec() {
    // A Ping whose body has a partition prefix: the layer refuses the tag.
    let mut body = 1u64.to_le_bytes().to_vec();
    body.push(0xff);
    let frame = framed(FrameType::Ping, &body);
    match decode_dataplane_peer_frame(&PROTOCOL, &frame) {
        Err(DataPlaneWireError::Decode(LayerError::UnexpectedType { tag })) => assert_eq!(tag, 3),
        other => panic!("expected Decode, got {other:?}"),
    }
}

#[test]
fn an_empty_dataplane_frame_is_rejected() {
    assert!(matches!(
        decode_dataplane_peer_frame(&PROTOCOL, &[0, 0, 0, 0]),
        Err(DataPlaneWireError::Frame(FrameError::EmptyFrame))
    ));
}

#[test]
fn arbitrary_bytes_never_panic_the_dataplane_codec() {
    for seed in 0u32..2000 {
        let mut buf = Vec::new();
        let len = seed % 64;
        buf.extend_from_slice(&len.to_le_bytes());
        for i in 0..len {
            buf.push(u8::try_from(seed.wrapping_mul(31).wrapping_add(i) % 256).unwrap());
        }
        let _ = decode_dataplane_peer_frame(&PROTOCOL, &buf);
    }
}

#[test]
fn a_dataplane_link_reads_back_what_the_other_end_sent() {
    let mut link = DataPlaneLink::new();
    let wire = link
        .send(&PROTOCOL, 7, DataPlaneVerb::AckReplicated, &le(&[2, 19]))
        .expect("encode");
    assert!(link.recv(&PROTOCOL).expect("recv ok").is_none());
    for byte in &wire[..wire.len() - 1] {
        assert_eq!(link.buffer.on_read(&[*byte]), LinkRead::Filled);
        assert!(link.recv(&PROTOCOL).expect("recv ok").is_none());
    }
    link.buffer.on_read(&wire[wire.len() - 1..]);
    let got = link.recv(&PROTOCOL).expect("recv ok").expect("a packet");
    assert_eq!((got.partition, got.type_tag), (7, 33));
    assert_eq!(got.body, le(&[2, 19]));
    assert!(link.buffer.inbuf.is_empty());
}

#[test]
fn a_stream_of_frames_is_read_back_in_order_however_it_is_cut() {
    let mut wire = Vec::new();
    let sent: Vec<(u64, DataPlaneVerb, Vec<u8>)> = vec![
        (1, DataPlaneVerb::FetchRequest, vec![]),
        (2, DataPlaneVerb::FetchResponse, vec![9; 30]),
        (3, DataPlaneVerb::CommittedHwResponse, le(&[77])),
    ];
    for (p, verb, body) in &sent {
        wire.extend(encode_dataplane_peer_frame(&PROTOCOL, *p, *verb, body).expect("encode"));
    }
    for (size, stop) in [(1, 0), (5, 0), (17, 0), (1000, 0), (7, 3)] {
        let mut link = DataPlaneLink::new();
        let mut got = Vec::new();
        for chunk in wire[..wire.len() - stop].chunks(size) {
            assert_eq!(link.buffer.on_read(chunk), LinkRead::Filled);
            while let Some(p) = link.recv(&PROTOCOL).expect("recv ok") {
                got.push((p.partition, p.type_tag, p.body));
            }
        }
        let whole = if stop == 0 { sent.len() } else { sent.len() - 1 };
        let expected: Vec<(u64, u8, Vec<u8>)> = sent[..whole]
            .iter()
            .map(|(p, verb, body)| (*p, PROTOCOL.tag(frame_type_for(*verb)), body.clone()))
            .collect();
        assert_eq!(got, expected, "in reads of {size}");
        let end = link.buffer.on_read(&[]);
        assert_eq!(
            end,
            if stop == 0 {
                LinkRead::Closed
            } else {
                LinkRead::ClosedMidFrame
            }
        );
    }
}

#[test]
fn only_the_answer_for_the_asked_partition_confirms() {
    let reply = HwReply::CommittedHw { partition: 3, committed_hw: 99 };
    assert_eq!(confirmed_hw(3, reply), Some(99));
    assert_eq!(confirmed_hw(4, reply), None);
    assert_eq!(confirmed_hw(3, HwReply::OtherFrame), None);
    assert_eq!(confirmed_hw(3, HwReply::Failed), None);
}
