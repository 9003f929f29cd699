use ironbus_server::cluster::frame::{encode_frame, FrameError, FrameType, WireProtocol};
use ironbus_server::cluster::transport::{
    decode_peer_frame, decode_raft_message, encode_raft_message, frame_raft_body, reader_step,
    IoFault, LinkBuffer, LinkRead, PeerLink, PeerRegistry, PeerWireError, ReaderStep, INVALID_ID,
    MAX_RAFT_MSG_BYTES, RAFT_DECODE_RECURSION_LIMIT,
};
use protobuf::{CodedInputStream, Message as _};
use raft::eraftpb::{Entry, Message, MessageType, Snapshot};

const PROTOCOL: WireProtocol = WireProtocol {
    raft: 30,
    fetch_records: 31,
    fetch_response: 32,
    ack_replicated: 33,
    offset_for_leader_epoch: 34,
    max_frame_len: 16 * 1024 * 1024,
};

/// A valid metadata Raft message (an append-shaped one with a couple of small entries).
fn sample_message(from: u64, to: u64) -> Message {
    let mut m = Message::new();
    m.set_msg_type(MessageType::MsgAppend);
    m.set_from(from);
    m.set_to(to);
    m.set_term(7);
    m.set_log_term(6);
    m.set_index(42);
    m.set_commit(40);
    let mut e1 = Entry::new();
    e1.set_term(6);
    e1.set_index(43);
    e1.set_data(b"membership-cmd".to_vec().into());
    let mut e2 = Entry::new();
    e2.set_term(6);
    e2.set_index(44);
    e2.set_data(b"placement-cmd".to_vec().into());
    m.set_entries(vec![e1, e2].into());
    m
}

fn registry_with(members: &[u64]) -> PeerRegistry {
    PeerRegistry::from_members(members, &[])
}

fn framed(frame_type: FrameType, body: &[u8]) -> Vec<u8> {
    let mut out = Vec::new();
    encode_frame(PROTOCOL.tag(frame_type), body, PROTOCOL.max_frame_len, &mut out).expect("frame");
    out
}

#[test]
fn valid_message_round_trips_through_the_codec() {
    let original = sample_message(2, 1);
    let frame = encode_raft_message(&PROTOCOL, &original).expect("encode");
    let registry = registry_with(&[1, 2, 3]);
    let (decoded, consumed) = decode_peer_frame(&PROTOCOL, &frame, &registry)
        .expect("decode ok")
        .expect("a complete frame");
    assert_eq!(consumed, frame.len());
    assert_eq!(decoded.message, original, "round-trip must be byte-faithful");
    assert_eq!(decoded.from, 2);
    assert_eq!(decoded.to, 1);
}

#[test]
fn round_trip_over_an_in_memory_peer_link() {
    // Node B's link reading what node A's link wrote, in chunks that straddle the frame.
    let original = sample_message(3, 1);
    let mut link = PeerLink::new();
    let wire = link.send(&PROTOCOL, &original).expect("encode");
    let registry = registry_with(&[1, 3]);
    let (head, tail) = wire.split_at(7);
    assert!(link.recv(&PROTOCOL, &registry).expect("recv ok").is_none());
    assert_eq!(link.buffer.on_read(head), LinkRead::Filled);
    assert!(link.recv(&PROTOCOL, &registry).expect("recv ok").is_none());
    assert_eq!(link.buffer.on_read(&[]), LinkRead::ClosedMidFrame);
    assert_eq!(link.buffer.on_read(tail), LinkRead::Filled);
    let got = link
        .recv(&PROTOCOL, &registry)
        .expect("recv ok")
        .expect("a message");
    assert_eq!(got.message, original);
    assert_eq!(link.buffer.on_read(&[]), LinkRead::Closed);
}

#[test]
fn two_messages_on_one_link_come_out_in_order() {
    let mut link = PeerLink::new();
    let registry = registry_with(&[2, 3]);
    let mut wire = encode_raft_message(&PROTOCOL, &sample_message(2, 1)).expect("encode");
    wire.extend_from_slice(&encode_raft_message(&PROTOCOL, &sample_message(3, 1)).expect("encode"));
    link.buffer.on_read(&wire);
    for from in [2u64, 3] {
        let got = link
            .recv(&PROTOCOL, &registry)
            .expect("recv ok")
            .expect("a message");
        assert_eq!(got.from, from);
    }
    assert!(link.recv(&PROTOCOL, &registry).expect("recv ok").is_none());
    assert!(link.buffer.inbuf.is_empty());
}

#[test]
fn a_stream_cut_inside_a_message_is_no_clean_close() {
    let registry = registry_with(&[2]);
    let first = sample_message(2, 1);
    let mut wire = encode_raft_message(&PROTOCOL, &first).expect("encode");
    let whole = wire.len();
    wire.extend(encode_raft_message(&PROTOCOL, &sample_message(2, 3)).expect("encode"));
    for cut in [whole, whole + 1, wire.len() - 1] {
        let mut link = PeerLink::new();
        let mut got = Vec::new();
        for chunk in wire[..cut].chunks(11) {
            assert_eq!(link.buffer.on_read(chunk), LinkRead::Filled);
            while let Some(m) = link.recv(&PROTOCOL, &registry).expect("recv ok") {
                got.push(m.message);
            }
        }
        assert_eq!(got, vec![first.clone()]);
        let end = if cut == whole {
            LinkRead::Closed
        } else {
            LinkRead::ClosedMidFrame
        };
        assert_eq!(link.buffer.on_read(&[]), end);
    }
}

#[test]
fn an_oversized_frame_is_rejected_before_allocation() {
    // A frame whose length prefix claims more than the cap, with NO body present: the decoder must
    // reject on the prefix alone.
    let mut frame = Vec::new();
    let claimed = MAX_RAFT_MSG_BYTES + 100; // type byte + body, over the cap
    frame.extend_from_slice(&claimed.to_le_bytes());
    frame.push(PROTOCOL.tag(FrameType::Raft));
    let registry = registry_with(&[1, 2]);
    match decode_peer_frame(&PROTOCOL, &frame, &registry) {
        Err(PeerWireError::Oversized { len }) => {
            assert_eq!(len, u64::from(claimed));
        }
        other => panic!("expected Oversized, got {other:?}"),
    }
}

#[test]
fn a_frame_from_an_unknown_peer_id_is_rejected() {
    let msg = sample_message(99, 1); // 99 is not a member
    let frame = encode_raft_message(&PROTOCOL, &msg).expect("encode");
    let registry = registry_with(&[1, 2, 3]);
    match decode_peer_frame(&PROTOCOL, &frame, &registry) {
        Err(PeerWireError::UnknownPeer { from }) => assert_eq!(from, 99),
        other => panic!("expected UnknownPeer, got {other:?}"),
    }
}

#[test]
fn a_frame_claiming_the_invalid_zero_id_is_rejected() {
    let msg = sample_message(0, 1); // the invalid id
    let frame = encode_raft_message(&PROTOCOL, &msg).expect("encode");
    let registry = registry_with(&[1, 2, 3]);
    match decode_peer_frame(&PROTOCOL, &frame, &registry) {
        Err(PeerWireError::UnknownPeer { from }) => assert_eq!(from, 0),
        other => panic!("expected UnknownPeer for invalid id, got {other:?}"),
    }
}

#[test]
fn an_unexpected_frame_type_on_the_peer_link_is_rejected() {
    // A Ping frame does not belong on the peer link.
    let frame = framed(FrameType::Ping, b"x");
    let registry = registry_with(&[1, 2]);
    match decode_peer_frame(&PROTOCOL, &frame, &registry) {
        Err(PeerWireError::UnexpectedFrameType { tag }) => {
            assert_eq!(tag, PROTOCOL.tag(FrameType::Ping));
            assert_eq!(tag, 3);
        }
        other => panic!("expected UnexpectedFrameType, got {other:?}"),
    }
}

#[test]
fn an_empty_frame_is_rejected() {
    let registry = registry_with(&[1, 2]);
    match decode_peer_frame(&PROTOCOL, &[0, 0, 0, 0, 9], &registry) {
        Err(PeerWireError::Frame(e)) => assert_eq!(e, FrameError::EmptyFrame),
        other => panic!("expected Frame, got {other:?}"),
    }
}

fn write_varint(out: &mut Vec<u8>, mut v: u64) {
    loop {
        let mut byte = (v & 0x7f) as u8;
        v >>= 7;
        if v != 0 {
            byte |= 0x80;
        }
        out.push(byte);
        if v == 0 {
            break;
        }
    }
}

/// `depth` nested unknown START-GROUP tags (`field 1, wire 3`) followed by the matching END-GROUP
/// tags.
fn deeply_nested_group_bytes(depth: usize) -> Vec<u8> {
    let mut body = Vec::new();
    for _ in 0..depth {
        write_varint(&mut body, (1 << 3) | 3); // start group, field 1
    }
    for _ in 0..depth {
        write_varint(&mut body, (1 << 3) | 4); // end group, field 1
    }
    body
}

#[test]
fn deeply_nested_unknown_groups_are_rejected_not_a_stack_overflow() {
    let registry = registry_with(&[1, 2, 3]);
    let frame = framed(FrameType::Raft, &deeply_nested_group_bytes(100_000));
    assert!(
        matches!(
            decode_peer_frame(&PROTOCOL, &frame, &registry),
            Err(PeerWireError::Decode(_))
        ),
        "hostile deep nesting must be a typed Decode error"
    );
}

#[test]
fn arbitrarily_deep_group_nestings_are_always_typed_errors() {
    for depth in (17usize..4096).step_by(97) {
        assert!(matches!(
            decode_raft_message(&deeply_nested_group_bytes(depth)),
            Err(PeerWireError::Decode(_))
        ));
    }
}

#[test]
fn the_recursion_limit_is_actually_applied_to_the_decode_stream() {
    let mut m = sample_message(2, 1);
    let mut snap = Snapshot::new();
    snap.mut_metadata().set_index(10);
    m.set_snapshot(snap); // a real nested-message field, so decode descends once
    let body = m.write_to_bytes().expect("encode");

    // With a limit of 0, the very first nested-message descent must be rejected.
    let mut is0 = CodedInputStream::from_bytes(&body);
    is0.set_recursion_limit(0);
    let mut got0 = Message::new();
    let res0 = got0.merge_from(&mut is0);
    assert!(
        matches!(
            res0,
            Err(protobuf::ProtobufError::WireError(
                protobuf::error::WireError::OverRecursionLimit
            ))
        ),
        "a 0 recursion limit must reject the first nested-message descent; got {res0:?}"
    );

    // With the real (tight) limit, the same message decodes fine.
    let got16 = decode_raft_message(&body).expect("decodes under the real limit");
    assert_eq!(got16.message, m);
}

#[test]
fn the_decode_recursion_limit_is_tight() {
    assert_eq!(RAFT_DECODE_RECURSION_LIMIT, 16);
}

#[test]
fn a_message_nested_within_the_bound_still_decodes() {
    let mut m = sample_message(2, 1);
    let mut snap = Snapshot::new();
    snap.mut_metadata().set_index(10);
    snap.mut_metadata().set_term(5);
    m.set_snapshot(snap);
    let frame = encode_raft_message(&PROTOCOL, &m).expect("encode");
    let registry = registry_with(&[1, 2]);
    let (decoded, _) = decode_peer_frame(&PROTOCOL, &frame, &registry)
        .expect("decode ok")
        .expect("complete");
    assert_eq!(decoded.message, m);
}

#[test]
fn decoding_arbitrary_bytes_never_panics() {
    let registry = registry_with(&[1, 2, 3, 4, 5]);
    let mut x: u64 = 0x9e37_79b9_7f4a_7c15;
    for round in 0..2000usize {
        let mut bytes = Vec::new();
        for _ in 0..(round % 97) {
            x = x.wrapping_mul(6_364_136_223_846_793_005).wrapping_add(1);
            bytes.push((x >> 56) as u8);
        }
        let _ = decode_raft_message(&bytes);
        let _ = decode_peer_frame(&PROTOCOL, &bytes, &registry);
        let _ = decode_peer_frame(&PROTOCOL, &framed(FrameType::Raft, &bytes), &registry);
    }
}

#[test]
fn valid_messages_with_arbitrary_fields_round_trip() {
    let registry = registry_with(&[1, 2, 3, 4, 5]);
    for from in 1u64..=5 {
        for (term, index, commit) in [(0, 0, 0), (7, 3, 2), (u64::MAX, u64::MAX - 1, 1 << 40)] {
            let mut m = Message::new();
            m.set_msg_type(MessageType::MsgHeartbeat);
            m.set_from(from);
            m.set_to(6 - from);
            m.set_term(term);
            m.set_index(index);
            m.set_commit(commit);
            let frame = encode_raft_message(&PROTOCOL, &m).expect("encode");
            let (decoded, consumed) = decode_peer_frame(&PROTOCOL, &frame, &registry)
                .expect("decode ok")
                .expect("complete");
            assert_eq!(consumed, frame.len());
            assert_eq!(decoded.message, m);
            assert_eq!((decoded.from, decoded.to), (from, 6 - from));
        }
    }
}

#[test]
fn a_body_over_the_cap_is_neither_framed_nor_decoded() {
    let at_cap = vec![0u8; MAX_RAFT_MSG_BYTES as usize];
    assert_eq!(
        frame_raft_body(&PROTOCOL, &at_cap).expect("at the cap").len(),
        at_cap.len() + 5
    );
    let over = vec![0u8; MAX_RAFT_MSG_BYTES as usize + 1];
    let len = u64::from(MAX_RAFT_MSG_BYTES) + 1;
    assert!(matches!(
        frame_raft_body(&PROTOCOL, &over),
        Err(PeerWireError::Oversized { len: l }) if l == len
    ));
    assert!(matches!(
        decode_raft_message(&over),
        Err(PeerWireError::Oversized { len: l }) if l == len
    ));
    let mut m = sample_message(2, 1);
    m.set_context(over.into());
    assert!(matches!(
        encode_raft_message(&PROTOCOL, &m),
        Err(PeerWireError::Oversized { len: l }) if l == u64::from(m.compute_size()) && l > len
    ));
    // A protocol whose absolute bound is below the body refuses it there.
    let tight = WireProtocol { max_frame_len: 3, ..PROTOCOL };
    assert!(matches!(
        frame_raft_body(&tight, &[1, 2, 3]),
        Err(PeerWireError::Oversized { len: 4 })
    ));
}

#[test]
fn a_registry_never_knows_the_invalid_id() {
    let registry = PeerRegistry::from_members(&[0, 1], &[2, 0]);
    assert_eq!(INVALID_ID, raft::INVALID_ID);
    assert!(!registry.is_known(INVALID_ID));
    assert!(registry.is_known(1));
    assert!(registry.is_known(2));
    assert!(!registry.is_known(3));
    assert!(registry.authenticate(2).is_ok());
    assert!(matches!(
        registry.authenticate(3),
        Err(PeerWireError::UnknownPeer { from: 3 })
    ));
    assert!(!PeerRegistry::new().is_known(1));
    assert!(!PeerRegistry::default().is_known(1));
}

#[test]
fn a_reader_polls_on_a_timeout_and_stops_on_anything_else() {
    assert_eq!(reader_step(&Ok(None)), ReaderStep::Stop);
    for (fault, step) in [
        (IoFault::WouldBlock, ReaderStep::Poll),
        (IoFault::TimedOut, ReaderStep::Poll),
        (IoFault::UnexpectedEof, ReaderStep::Stop),
        (IoFault::Other, ReaderStep::Stop),
    ] {
        assert_eq!(reader_step(&Err(PeerWireError::Io(fault))), step);
    }
    assert_eq!(
        reader_step(&Err(PeerWireError::UnknownPeer { from: 9 })),
        ReaderStep::Stop
    );
    let decoded = decode_raft_message(&sample_message(2, 1).write_to_bytes().expect("encode"));
    assert_eq!(reader_step(&decoded.map(Some)), ReaderStep::Forward);
}

#[test]
fn a_link_buffer_consumes_from_the_front() {
    let mut b = LinkBuffer::new();
    assert_eq!(b.on_read(&[1, 2, 3]), LinkRead::Filled);
    b.consume(2);
    assert_eq!(b.inbuf, vec![3]);
}
