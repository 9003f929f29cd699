use ironbus_server::cluster::command::Placement;
use ironbus_server::cluster::dataplane::{DataPlaneVerb, DataPlaneWireError, LayerError};
use ironbus_server::cluster::runtime::PeerAddr;
use ironbus_server::cluster::serve::{
    backlog, data_reader_step, effective_dataplane_reader_cap, plan_dataplane_start, reply_verb,
    role_for_placement, serve_fetch_off_lock, AcceptGate, Admission, AppliedStep, DataPlaneServer,
    DataReaderStep, FetchBudget, FetchReply, FetchStep, FollowerFetch, OffLockServe, PlacementRole,
    RouteOutcome, SpawnStep, ThrottleDecision, DATAPLANE_POLL_NANOS, DEFAULT_MIN_DATAPLANE_READERS,
};
use ironbus_server::cluster::transport::IoFault;
use std::collections::BTreeMap;

fn placement(replicas: Vec<u64>, leader: u64, epoch: u64) -> Placement {
    Placement { replicas, leader, epoch }
}

fn no_log(_partition: u64) -> Result<(), String> {
    Ok(())
}

#[test]
fn effective_reader_cap_grows_to_fanout_floors_at_default_and_honors_override() {
    // High fanout, no override: the cap grows to the fanout.
    assert_eq!(effective_dataplane_reader_cap(None, 600), 600);
    // Small fanout, no override: floored at the default.
    assert_eq!(
        effective_dataplane_reader_cap(None, 3),
        DEFAULT_MIN_DATAPLANE_READERS
    );
    assert_eq!(
        effective_dataplane_reader_cap(None, DEFAULT_MIN_DATAPLANE_READERS),
        DEFAULT_MIN_DATAPLANE_READERS
    );
    // An override above the fanout is the bound ...
    assert_eq!(effective_dataplane_reader_cap(Some(1000), 600), 1000);
    // ... and one below it is raised to the fanout, so a real follower is never refused.
    assert_eq!(effective_dataplane_reader_cap(Some(50), 600), 600);
}

#[test]
fn a_node_not_in_the_placement_holds_no_role_and_no_data_plane() {
    const P: u64 = 0;
    let placements: BTreeMap<u64, Placement> =
        [(P, placement(vec![1, 2, 3], 1, 1))].into_iter().collect();
    let server = DataPlaneServer::from_placements(9, &placements, |_| false, no_log).unwrap();
    assert!(!server.is_leader(P));
    assert_eq!(server.follower_leader(P), None);
    assert!(server.follower_partitions().is_empty());
    assert_eq!(
        role_for_placement(9, &placements[&P]),
        PlacementRole::Unassigned
    );
}

#[test]
fn led_inbound_link_count_sums_per_led_partition_followers_and_ignores_followed() {
    const ME: u64 = 1;
    let mut placements: BTreeMap<u64, Placement> = BTreeMap::new();
    for p in 0..3u64 {
        placements.insert(p, placement(vec![ME, 2, 3], ME, 1));
    }
    // A followed partition (led by node 2): its other replicas link to node 2, not to us.
    placements.insert(9, placement(vec![ME, 2, 3], 2, 1));
    let server = DataPlaneServer::from_placements(ME, &placements, |p| p < 3, no_log).unwrap();
    assert_eq!(
        server.led_inbound_link_count(),
        6,
        "3 led partitions with 2 followers each; the followed partition adds nothing"
    );
}

#[test]
fn a_restart_re_establishes_roles_from_the_committed_placement() {
    const P: u64 = 0;
    let placements: BTreeMap<u64, Placement> =
        [(P, placement(vec![1, 2, 3], 1, 9))].into_iter().collect();
    for _ in 0..2 {
        let leader = DataPlaneServer::from_placements(1, &placements, |p| p == P, no_log).unwrap();
        assert!(leader.is_leader(P));
        assert_eq!(leader.follower_leader(P), None);
        let follower = DataPlaneServer::from_placements(2, &placements, |_| false, no_log).unwrap();
        assert!(!follower.is_leader(P));
        assert_eq!(follower.follower_leader(P), Some(1));
        assert_eq!(follower.node_id(), 2);
    }
}

#[test]
fn a_missing_plane_and_a_failing_replica_log_are_reported() {
    let placements: BTreeMap<u64, Placement> = [
        (0, placement(vec![1, 2], 1, 1)),
        (1, placement(vec![1, 2], 2, 1)),
    ]
    .into_iter()
    .collect();
    let server = DataPlaneServer::from_placements(1, &placements, |_| true, no_log).unwrap();
    assert!(server.is_leader(0));
    assert_eq!(server.follower_partitions(), vec![(1, 2)]);
    let no_plane = DataPlaneServer::from_placements(1, &placements, |_| false, no_log);
    assert_eq!(
        no_plane.err(),
        Some("no leader read plane supplied for led partition 0".to_string())
    );
    let failed = DataPlaneServer::from_placements(
        1,
        &placements,
        |_| true,
        |p| Err(format!("no log for {p}")),
    );
    assert_eq!(failed.err(), Some("no log for 1".to_string()));
}

#[test]
fn reconciling_promotes_in_place_and_is_idempotent() {
    let placements: BTreeMap<u64, Placement> =
        [(0, placement(vec![1, 2, 3], 1, 5))].into_iter().collect();
    let mut server = DataPlaneServer::from_placements(2, &placements, |_| false, no_log).unwrap();
    let promote = |_p: u64, _new: &Placement| -> Result<(), String> { Ok(()) };

    // The same placement again: nothing changes.
    assert_eq!(
        server.reconcile_placement(0, &placements[&0], promote),
        Ok(false)
    );
    assert_eq!(server.follower_leader(0), Some(1));

    // Another leader: fetch from it.
    let moved = placement(vec![3, 2], 3, 6);
    assert_eq!(server.reconcile_placement(0, &moved, promote), Ok(true));
    assert_eq!(server.follower_leader(0), Some(3));
    assert_eq!(server.reconcile_placement(0, &moved, promote), Ok(false));

    // A promotion that fails leaves the follower a follower.
    let mine = placement(vec![2], 2, 7);
    let refused = server.reconcile_placement(0, &mine, |_: u64, _: &Placement| Err("gone".to_string()));
    assert_eq!(refused, Err("gone".to_string()));
    assert!(!server.is_leader(0));
    assert_eq!(server.follower_leader(0), Some(3));

    // The promotion is asked for under the placement's own epoch and replicas.
    let asked = std::cell::RefCell::new(Vec::new());
    let refused = server.reconcile_placement(0, &mine, |p: u64, new: &Placement| {
        asked.borrow_mut().push((p, new.clone()));
        Err("later")
    });
    assert_eq!(refused, Err("later"));
    assert_eq!(asked.into_inner(), vec![(0, mine.clone())]);

    // One that succeeds makes it the leader, once.
    assert_eq!(server.reconcile_placement(0, &mine, promote), Ok(true));
    assert!(server.is_leader(0));
    assert_eq!(server.follower_leader(0), None);
    assert_eq!(server.reconcile_placement(0, &mine, promote), Ok(false));
    assert!(server.is_leader(0));
}

#[test]
fn a_node_out_of_the_placement_keeps_its_role() {
    let mut server = DataPlaneServer::new(9);
    let foreign = placement(vec![1, 2], 1, 1);
    assert_eq!(
        server.reconcile_placement(0, &foreign, |_: u64, _: &Placement| -> Result<(), String> {
            Ok(())
        }),
        Ok(false)
    );
    assert!(!server.is_leader(0));
    assert_eq!(server.follower_leader(0), None);
    server.set_follower_target(4, 7);
    assert_eq!(server.follower_leader(4), Some(7));
}

#[test]
fn the_accept_gate_refuses_past_the_cap_and_warns_once_an_episode() {
    let mut gate = AcceptGate::new(2);
    assert_eq!(gate.on_accept(0), Admission::Admit);
    assert_eq!(gate.on_accept(1), Admission::Admit);
    assert_eq!(gate.on_accept(2), Admission::Refuse { warn: true });
    assert_eq!(gate.on_accept(2), Admission::Refuse { warn: false });
    assert_eq!(gate.on_accept(1), Admission::Admit);
    assert_eq!(gate.on_accept(3), Admission::Refuse { warn: true });

    assert_eq!(gate.on_spawn(true), SpawnStep { warn: false, back_off: false });
    assert_eq!(gate.on_spawn(false), SpawnStep { warn: true, back_off: true });
    assert_eq!(gate.on_spawn(false), SpawnStep { warn: false, back_off: true });
    assert_eq!(gate.on_spawn(true), SpawnStep { warn: false, back_off: false });
    assert_eq!(gate.on_spawn(false), SpawnStep { warn: true, back_off: true });
}

#[test]
fn idle_links_held_open_settle_at_the_cap() {
    let mut gate = AcceptGate::new(2);
    let mut active = 0usize;
    for _ in 0..5 {
        if gate.on_accept(active) == Admission::Admit {
            active += 1;
        }
        assert!(active <= 2);
    }
    assert_eq!(active, 2);
    // A reader that ends gives its slot back.
    active -= 1;
    assert_eq!(gate.on_accept(active), Admission::Admit);
}

#[test]
fn a_response_that_does_not_apply_is_not_reported() {
    let full = FetchBudget { max_records: 1, max_bytes: 1 };
    let fetch = FollowerFetch::new(3, full);
    assert_eq!(fetch.on_applied(true), AppliedStep::Report);
    assert_eq!(fetch.on_applied(false), AppliedStep::Stop);
}

#[test]
fn a_data_reader_dispatches_by_verb() {
    for gated in [false, true] {
        let step = |v: DataPlaneVerb| data_reader_step(&Ok(Some(v)), gated);
        assert_eq!(
            step(DataPlaneVerb::AckReplicated),
            if gated {
                DataReaderStep::ReportToGate
            } else {
                DataReaderStep::ReportToServer
            }
        );
        assert_eq!(step(DataPlaneVerb::FetchRequest), DataReaderStep::ServeFetch);
        for v in [
            DataPlaneVerb::FetchResponse,
            DataPlaneVerb::EpochQuery,
            DataPlaneVerb::EpochResponse,
            DataPlaneVerb::CommittedHwQuery,
            DataPlaneVerb::CommittedHwResponse,
        ] {
            assert_eq!(step(v), DataReaderStep::Route);
        }
        assert_eq!(data_reader_step(&Ok(None), gated), DataReaderStep::Stop);
        for fault in [IoFault::WouldBlock, IoFault::TimedOut] {
            assert_eq!(
                data_reader_step(&Err(DataPlaneWireError::Io(fault)), gated),
                DataReaderStep::Poll
            );
        }
        for e in [
            DataPlaneWireError::Io(IoFault::Other),
            DataPlaneWireError::Io(IoFault::UnexpectedEof),
            DataPlaneWireError::Oversized { len: 1 },
            DataPlaneWireError::MissingPartitionPrefix,
            DataPlaneWireError::Decode(LayerError::Body),
        ] {
            assert_eq!(data_reader_step(&Err(e), gated), DataReaderStep::Stop);
        }
    }
}

#[test]
fn a_fetch_is_served_only_by_a_leader() {
    let serve = |n: u32| if n > 0 { Ok(n * 2) } else { Err("empty") };
    assert_eq!(serve_fetch_off_lock(Err(()), serve), OffLockServe::Poisoned);
    assert_eq!(serve_fetch_off_lock(Ok(None), serve), OffLockServe::Drop);
    assert_eq!(serve_fetch_off_lock(Ok(Some(0)), serve), OffLockServe::Drop);
    assert_eq!(serve_fetch_off_lock(Ok(Some(4)), serve), OffLockServe::Send(8));
}

#[test]
fn every_routed_response_goes_out_under_its_verb() {
    for (outcome, verb) in [
        (RouteOutcome::SendFetchResponse, Some(DataPlaneVerb::FetchResponse)),
        (RouteOutcome::SendEpochResponse, Some(DataPlaneVerb::EpochResponse)),
        (
            RouteOutcome::SendCommittedHwResponse,
            Some(DataPlaneVerb::CommittedHwResponse),
        ),
        (RouteOutcome::ReleaseAcks, None),
        (RouteOutcome::Nothing, None),
        (RouteOutcome::Refused, None),
    ] {
        assert_eq!(reply_verb(outcome), verb);
    }
}

#[test]
fn a_follower_applies_only_responses_for_its_partition() {
    let full = FetchBudget { max_records: 512, max_bytes: 1 << 20 };
    let fetch = FollowerFetch::new(3, full);
    let response = |partition, record_count| FetchReply::Response {
        partition,
        record_count,
        high_watermark: 40,
    };
    assert_eq!(
        fetch.on_reply(response(3, 2)),
        FetchStep::Apply { apply: true, high_watermark: 40 }
    );
    assert_eq!(
        fetch.on_reply(response(3, 0)),
        FetchStep::Apply { apply: false, high_watermark: 40 }
    );
    let ignore = FetchStep::Ignore { pause_nanos: DATAPLANE_POLL_NANOS };
    assert_eq!(fetch.on_reply(response(4, 2)), ignore);
    assert_eq!(fetch.on_reply(FetchReply::OtherFrame), ignore);
    assert_eq!(fetch.on_reply(FetchReply::Closed), FetchStep::Reconnect);
    assert_eq!(
        fetch.on_reply(FetchReply::Fault(DataPlaneWireError::Io(IoFault::TimedOut))),
        FetchStep::Refetch
    );
    assert_eq!(
        fetch.on_reply(FetchReply::Fault(DataPlaneWireError::Io(IoFault::Other))),
        FetchStep::Reconnect
    );
}

#[test]
fn a_follower_paces_itself_by_the_throttle() {
    let full = FetchBudget { max_records: 512, max_bytes: 1 << 20 };
    let small = FetchBudget { max_records: 8, max_bytes: 4096 };
    let mut fetch = FollowerFetch::new(3, full);
    let behind = fetch.on_decision(10, 100, 60, ThrottleDecision { budget: small, yield_for_ms: 5 });
    assert_eq!((behind.backlog, behind.pause_nanos), (40, 5_000_000));
    assert_eq!(fetch.budget, small);
    let free = fetch.on_decision(10, 100, 100, ThrottleDecision { budget: full, yield_for_ms: 0 });
    assert_eq!((free.backlog, free.pause_nanos), (0, 0));
    let idle = fetch.on_decision(0, 100, 120, ThrottleDecision { budget: full, yield_for_ms: 0 });
    assert_eq!((idle.backlog, idle.pause_nanos), (0, DATAPLANE_POLL_NANOS));
    assert_eq!(fetch.partition, 3);
    assert_eq!(backlog(5, 9), 0);
    assert_eq!(backlog(9, 5), 4);
}

#[test]
fn a_start_follows_the_leaders_that_have_an_address() {
    let mut server = DataPlaneServer::new(1);
    server.set_follower_target(0, 2);
    server.set_follower_target(1, 3);
    server.set_follower_target(2, 2);
    let addr = PeerAddr { host: "10.0.0.2".to_string(), port: 7001 };
    let addrs: BTreeMap<u64, PeerAddr> = [(2, addr.clone())].into_iter().collect();
    let plan = plan_dataplane_start(&server, &addrs, Some(300));
    assert_eq!(plan.reader_cap, 300);
    assert_eq!(plan.follow, vec![(0, addr.clone()), (2, addr)]);
    assert_eq!(plan.skipped, vec![(1, 3)]);
}
