use ironbus_server::cluster::frame::{encode_frame, FrameError, FrameType, WireProtocol};
use ironbus_server::cluster::serve_accept::{
    handle_one, push_ack, route_frame, serve_frame_cap, serve_reader_step, CrossClusterServeConfig,
    PushOutcome, ServeConn, ServeConnError, ServeReaderStep, ServeRoute,
};
use ironbus_server::cluster::transport::IoFault;

const PROTOCOL: WireProtocol = WireProtocol {
    raft: 30,
    fetch_records: 31,
    fetch_response: 32,
    ack_replicated: 33,
    offset_for_leader_epoch: 34,
    max_frame_len: 16 * 1024 * 1024,
};

fn config(serves_pulls: bool, accepts_pushes: bool) -> CrossClusterServeConfig {
    CrossClusterServeConfig { serves_pulls, accepts_pushes }
}

#[test]
fn no_cross_cluster_config_spawns_no_serve_listener() {
    assert!(
        config(false, false).is_empty(),
        "an empty config reports is_empty so the runtime is never started"
    );
    assert!(
        !config(true, false).is_empty(),
        "a configured serve plane is not empty"
    );
    assert!(!config(false, true).is_empty());
}

#[test]
fn the_frame_cap_holds_the_larger_direction() {
    assert_eq!(serve_frame_cap(1000, 10), 2024);
    assert_eq!(serve_frame_cap(10, 1000), 2024);
    assert_eq!(serve_frame_cap(u32::MAX, 0), u32::MAX);
}

#[test]
fn only_configured_directions_are_served() {
    let both = config(true, true);
    assert_eq!(route_frame(&both, Some(FrameType::MirrorPull)), ServeRoute::Pull);
    assert_eq!(route_frame(&both, Some(FrameType::LeafPush)), ServeRoute::Push);
    assert_eq!(route_frame(&both, Some(FrameType::Ping)), ServeRoute::DropLink);
    assert_eq!(route_frame(&both, None), ServeRoute::DropLink);
    assert_eq!(
        route_frame(&config(false, true), Some(FrameType::MirrorPull)),
        ServeRoute::DropLink
    );
    assert_eq!(
        route_frame(&config(true, false), Some(FrameType::LeafPush)),
        ServeRoute::DropLink
    );
}

#[test]
fn a_push_is_acknowledged_as_far_as_it_was_kept() {
    assert_eq!(push_ack(PushOutcome::Applied { accepted_through_leaf_offset: 9 }), Some(9));
    assert_eq!(push_ack(PushOutcome::Corrupt { at_leaf_offset: 4 }), Some(4));
    assert_eq!(push_ack(PushOutcome::Failed), None);
}

fn ack(offset: u64) -> Vec<u8> {
    offset.to_le_bytes().to_vec()
}

#[test]
fn a_request_is_answered_under_its_own_tag() {
    let both = config(true, true);
    // The request comes back doubled, so that the answer shows what was asked.
    let pull = |request: &[u8]| Some([request, request].concat());
    let push = |request: &[u8]| {
        Some(PushOutcome::Applied { accepted_through_leaf_offset: request.len() as u64 })
    };
    let handle = |c: &CrossClusterServeConfig, t: Option<FrameType>| {
        handle_one(&PROTOCOL, c, t, &[1, 2], pull, push, ack)
    };
    assert_eq!(
        handle(&both, Some(FrameType::MirrorPull)),
        Some(vec![5, 0, 0, 0, 40, 1, 2, 1, 2])
    );
    assert_eq!(
        handle(&both, Some(FrameType::LeafPush)),
        Some(vec![9, 0, 0, 0, 41, 2, 0, 0, 0, 0, 0, 0, 0])
    );
    assert_eq!(handle(&both, Some(FrameType::Ping)), None);
    assert_eq!(handle(&both, None), None);
    assert_eq!(handle(&config(false, true), Some(FrameType::MirrorPull)), None);
    assert_eq!(handle(&config(true, false), Some(FrameType::LeafPush)), None);
}

#[test]
fn a_corrupt_push_is_acknowledged_as_far_as_it_was_kept() {
    let both = config(true, true);
    let no_pull = |_: &[u8]| None;
    for (outcome, reply) in [
        (
            Some(PushOutcome::Corrupt { at_leaf_offset: 258 }),
            Some(vec![9, 0, 0, 0, 41, 2, 1, 0, 0, 0, 0, 0, 0]),
        ),
        (Some(PushOutcome::Failed), None),
        (None, None),
    ] {
        let push = |_: &[u8]| outcome;
        assert_eq!(
            handle_one(&PROTOCOL, &both, Some(FrameType::LeafPush), &[], no_pull, push, ack),
            reply
        );
        assert_eq!(
            handle_one(&PROTOCOL, &both, Some(FrameType::MirrorPull), &[], no_pull, push, ack),
            None,
            "a pull that is not served drops the link"
        );
    }
    // An answer over the absolute bound drops the link.
    let tight = WireProtocol { max_frame_len: 8, ..PROTOCOL };
    let push = |_: &[u8]| Some(PushOutcome::Applied { accepted_through_leaf_offset: 1 });
    assert_eq!(
        handle_one(&tight, &both, Some(FrameType::LeafPush), &[], no_pull, push, ack),
        None
    );
}

#[test]
fn a_connection_hands_out_whole_frames_only() {
    let mut conn = ServeConn::new(64);
    let mut bytes = Vec::new();
    encode_frame(40, &[5, 6], 64, &mut bytes).expect("frame");
    encode_frame(200, &[], 64, &mut bytes).expect("frame");
    conn.buffer.on_read(&bytes[..5]);
    assert_eq!(conn.try_decode_one(&PROTOCOL), Ok(None));
    conn.buffer.on_read(&bytes[5..]);
    assert_eq!(
        conn.try_decode_one(&PROTOCOL),
        Ok(Some((Some(FrameType::MirrorPull), vec![5, 6])))
    );
    assert_eq!(conn.try_decode_one(&PROTOCOL), Ok(Some((None, vec![]))));
    assert_eq!(conn.try_decode_one(&PROTOCOL), Ok(None));
    conn.buffer.on_read(&[65, 0, 0, 0]);
    assert_eq!(
        conn.try_decode_one(&PROTOCOL),
        Err(ServeConnError::Frame(FrameError::FrameTooLarge { len: 65 }))
    );
}

#[test]
fn a_serve_reader_polls_on_a_timeout_only() {
    assert_eq!(serve_reader_step(Ok(true)), ServeReaderStep::Handle);
    assert_eq!(serve_reader_step(Ok(false)), ServeReaderStep::Stop);
    for (fault, step) in [
        (IoFault::WouldBlock, ServeReaderStep::Poll),
        (IoFault::TimedOut, ServeReaderStep::Poll),
        (IoFault::UnexpectedEof, ServeReaderStep::Stop),
        (IoFault::Other, ServeReaderStep::Stop),
    ] {
        assert_eq!(serve_reader_step(Err(ServeConnError::Io(fault))), step);
    }
    assert_eq!(
        serve_reader_step(Err(ServeConnError::Frame(FrameError::EmptyFrame))),
        ServeReaderStep::Stop
    );
}
