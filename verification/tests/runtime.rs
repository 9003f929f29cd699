use ironbus_server::cluster::command::{MetadataCommand, Placement};
use ironbus_server::cluster::runtime::{
    dataplane_addr, duration_to_nanos, may_enqueue, partitions_led_by, plan_failovers, plan_start,
    sleep_slice, surviving, without, ClusterConfig, ClusterStatus, FailoverRequest, LivenessConfig, PeerAddr,
    RuntimeError, StartRole, PEER_OUTBOUND_BOUND, SLEEP_SLICE_NANOS,
};
use std::collections::{BTreeMap, BTreeSet};

fn placements(entries: &[(u64, Vec<u64>, u64, u64)]) -> BTreeMap<u64, Placement> {
    entries
        .iter()
        .map(|(p, replicas, leader, epoch)| {
            (
                *p,
                Placement {
                    replicas: replicas.clone(),
                    leader: *leader,
                    epoch: *epoch,
                },
            )
        })
        .collect()
}

/// Promote the first survivor that is in sync, one epoch up.
fn promote_first_in_sync(
    request: FailoverRequest,
    in_sync: impl Fn(u64) -> bool,
) -> Option<MetadataCommand> {
    let leader = request.survivors.iter().copied().find(|n| in_sync(*n))?;
    Some(MetadataCommand::PlacePartition {
        partition: request.partition,
        replicas: request.survivors,
        leader,
        epoch: request.epoch + 1,
    })
}

fn addr(host: &str, port: u16) -> PeerAddr {
    PeerAddr { host: host.to_string(), port }
}

fn config(node_id: u64, ids: &[u64]) -> ClusterConfig {
    ClusterConfig {
        node_id,
        peers: ids
            .iter()
            .map(|id| (*id, addr("127.0.0.1", 9 + *id as u16)))
            .collect(),
        role: StartRole::Voter,
        pending_learners: BTreeSet::new(),
    }
}

#[test]
fn partitions_led_by_finds_exactly_the_dead_leaders_partitions() {
    let pl = placements(&[
        (0, vec![1, 2, 3], 1, 5),
        (1, vec![1, 2, 3], 2, 5),
        (2, vec![1, 2, 3], 1, 5),
    ]);
    let led = partitions_led_by(&pl, 1);
    let ids: Vec<u64> = led.iter().map(|(p, _)| *p).collect();
    assert_eq!(
        ids,
        vec![0, 2],
        "exactly the partitions node 1 leads, sorted"
    );
    assert!(
        partitions_led_by(&pl, 3).is_empty(),
        "a non-leader leads nothing"
    );
}

#[test]
fn plan_failovers_proposes_one_isr_promotion_per_partition_the_dead_node_led() {
    let pl = placements(&[
        (0, vec![1, 2, 3], 1, 5),
        (1, vec![1, 2, 3], 2, 5),
        (2, vec![1, 2, 3], 1, 7),
    ]);
    let departed: BTreeSet<u64> = [1u64].into_iter().collect();
    let proposals = plan_failovers(&pl, &departed, |q| promote_first_in_sync(q, |_| true));
    assert_eq!(
        proposals.len(),
        2,
        "one proposal per partition the dead node led (0 + 2)"
    );
    for cmd in &proposals {
        match cmd {
            MetadataCommand::PlacePartition {
                partition,
                replicas,
                leader,
                epoch,
            } => {
                assert!(*partition == 0 || *partition == 2);
                assert_eq!(
                    replicas,
                    &vec![2, 3],
                    "the dead leader is dropped from the replica set"
                );
                assert_ne!(*leader, 1, "the dead leader is never re-chosen");
                assert!(
                    replicas.contains(leader),
                    "the new leader is one of the survivors"
                );
                // Partition 0 was at epoch 5 => fenced to 6; partition 2 at epoch 7 => fenced to 8.
                let expected = if *partition == 0 { 6 } else { 8 };
                assert_eq!(
                    *epoch, expected,
                    "the epoch is bumped strictly above the dead leader's"
                );
            }
            other => panic!("expected PlacePartition, got {other:?}"),
        }
    }
}

#[test]
fn plan_failovers_proposes_nothing_when_no_survivor_is_in_sync() {
    let pl = placements(&[(0, vec![1, 2], 1, 5)]);
    let departed: BTreeSet<u64> = [1u64].into_iter().collect();
    let proposals = plan_failovers(&pl, &departed, |q| promote_first_in_sync(q, |_| false));
    assert!(
        proposals.is_empty(),
        "no in-sync survivor => no failover proposal (fail-closed, never promote an incomplete replica)"
    );
}

#[test]
fn plan_failovers_is_empty_when_no_node_departed() {
    let pl = placements(&[(0, vec![1, 2, 3], 1, 5)]);
    let proposals = plan_failovers(&pl, &BTreeSet::new(), |q| promote_first_in_sync(q, |_| true));
    assert!(proposals.is_empty(), "no departure => no failover");
}

#[test]
fn plan_failovers_asks_with_the_whole_request() {
    let pl = placements(&[(4, vec![3, 1, 2], 3, 9), (5, vec![1, 2], 2, 1)]);
    let departed: BTreeSet<u64> = [3u64, 2].into_iter().collect();
    let asked = std::cell::RefCell::new(Vec::new());
    let proposals = plan_failovers(&pl, &departed, |q| {
        asked.borrow_mut().push(q);
        None
    });
    assert!(proposals.is_empty());
    let request = |partition, dead, replicas, survivors, epoch| FailoverRequest {
        partition,
        dead,
        replicas,
        survivors,
        epoch,
    };
    // The departed nodes in id order, each with the partitions that it led.
    assert_eq!(
        asked.into_inner(),
        vec![
            request(5, 2, vec![1, 2], vec![1], 1),
            request(4, 3, vec![3, 1, 2], vec![1], 9),
        ]
    );
    assert_eq!(without(&vec![3, 1, 3, 2], 3), vec![1, 2]);
}

#[test]
fn a_departed_node_is_never_offered_as_a_successor() {
    let pl = placements(&[(0, vec![1, 2, 3], 1, 5)]);
    let departed: BTreeSet<u64> = [1u64, 2].into_iter().collect();
    let asked = std::cell::RefCell::new(Vec::new());
    let proposals = plan_failovers(&pl, &departed, |q| {
        asked.borrow_mut().push((q.partition, q.survivors.clone()));
        promote_first_in_sync(q, |_| true)
    });
    assert_eq!(asked.into_inner(), vec![(0, vec![3])]);
    assert_eq!(
        proposals,
        vec![MetadataCommand::PlacePartition {
            partition: 0,
            replicas: vec![3],
            leader: 3,
            epoch: 6,
        }]
    );
    assert_eq!(surviving(&vec![3, 1, 2], &departed), vec![3]);
}

#[test]
fn an_invalid_cluster_config_is_rejected() {
    // node id not in the peer set
    let mut lone = config(2, &[1]);
    assert!(matches!(lone.validate(), Err(RuntimeError::Config(_))));
    assert!(matches!(plan_start(&lone), Err(RuntimeError::Config(_))));
    assert_eq!(
        lone.validate().unwrap_err().message(),
        "invalid cluster config: node id 2 is not in the configured peer set"
    );
    assert!(lone.self_addr().is_none());

    // an unsupported size (2 voters)
    let pair = config(1, &[1, 2]);
    assert!(matches!(plan_start(&pair), Err(RuntimeError::Config(_))));
    assert_eq!(
        pair.validate().unwrap_err().message(),
        "invalid cluster config: cluster seeded voter count 2 is unsupported (must be 1, 3, or 5)"
    );

    // the reserved id
    lone = config(1, &[0, 1, 2]);
    assert_eq!(
        lone.validate().unwrap_err().message(),
        "invalid cluster config: node id 0 is reserved (raft INVALID_ID) and cannot be a cluster member"
    );
}

#[test]
fn a_voter_starts_from_its_seeds() {
    let mut c = config(2, &[1, 2, 3, 4]);
    c.pending_learners.insert(4);
    let plan = plan_start(&c).expect("three seeded voters");
    assert_eq!(plan.self_addr, addr("127.0.0.1", 11));
    assert_eq!(plan.seed_voters, vec![1, 2, 3]);
    assert!(!plan.as_learner);
    assert!(plan.registry.is_known(3));
    assert!(!plan.registry.is_known(4));
    let dialed: Vec<u64> = plan.dial.iter().map(|(id, _)| *id).collect();
    assert_eq!(dialed, vec![1, 3, 4]);
    assert_eq!(plan.dial[2].1, addr("127.0.0.1", 13));
    assert_eq!(plan.watched, vec![1, 3]);
    assert!(c.is_non_voter_seed(4));
    assert!(!c.is_non_voter_seed(2));
    assert!(!c.is_learner_join());
}

#[test]
fn a_learner_joins_without_counting_itself() {
    let mut c = config(4, &[1, 2, 3, 4]);
    c.role = StartRole::Learner;
    let plan = plan_start(&c).expect("three seeded voters");
    assert!(plan.as_learner);
    assert_eq!(plan.seed_voters, vec![1, 2, 3]);
    assert!(plan.registry.is_known(4));
    assert_eq!(plan.watched, vec![1, 2, 3]);
    assert_eq!(c.remote_voters(), vec![1, 2, 3]);
    assert_eq!(c.seed_voters(), vec![1, 2, 3]);
    assert_eq!(c.remote_peers().len(), 3);
    assert!(c.is_learner_join());
    assert_eq!(StartRole::default(), StartRole::Voter);
}

#[test]
fn the_dataplane_port_is_shifted_and_never_wraps() {
    assert_eq!(dataplane_addr(&addr("h", 7000)), addr("h", 7001));
    assert_eq!(dataplane_addr(&addr("h", 0)), addr("h", 0));
    assert_eq!(dataplane_addr(&addr("h", u16::MAX)), addr("h", u16::MAX));
}

#[test]
fn durations_and_sleeps_saturate() {
    assert_eq!(duration_to_nanos(5), 5);
    assert_eq!(duration_to_nanos(u128::from(u64::MAX)), u64::MAX);
    assert_eq!(duration_to_nanos(u128::from(u64::MAX) + 1), u64::MAX);
    assert_eq!(sleep_slice(0), (0, 0));
    assert_eq!(sleep_slice(7), (7, 0));
    assert_eq!(sleep_slice(50_000_000), (SLEEP_SLICE_NANOS, 30_000_000));
}

#[test]
fn a_full_queue_and_an_unknown_peer_drop_messages() {
    assert!(may_enqueue(Some(0)));
    assert!(may_enqueue(Some(PEER_OUTBOUND_BOUND - 1)));
    assert!(!may_enqueue(Some(PEER_OUTBOUND_BOUND)));
    assert!(!may_enqueue(None));
}

#[test]
fn liveness_defaults_to_three_seconds() {
    let l = LivenessConfig::default();
    assert_eq!((l.timeout_nanos, l.enabled), (3_000_000_000, true));
}

#[test]
fn a_status_starts_empty_and_fail_stops() {
    let mut s = ClusterStatus::new(7);
    assert_eq!(s.node_id, 7);
    assert!(!s.is_leader && !s.health_failed);
    assert!(s.placements.is_empty() && s.learners.is_empty());
    s.is_leader = true;
    assert!(s.on_drive(true));
    assert!(s.is_leader && !s.health_failed);
    let mut stopped = s.clone();
    assert!(!stopped.on_drive(false));
    assert!(!stopped.is_leader && stopped.health_failed);
    s.fail_stop();
    assert!(s.health_failed);
    assert!(!s.is_leader, "a fail-stopped node does not lead");
    assert_eq!(ClusterStatus::default().node_id, 0);
}

#[test]
fn every_runtime_error_has_its_text() {
    let said = |e: RuntimeError| e.message();
    assert_eq!(said(RuntimeError::Config("c".into())), "invalid cluster config: c");
    assert_eq!(said(RuntimeError::Group("g".into())), "cannot open metadata group: g");
    assert_eq!(
        said(RuntimeError::Listen("l".into())),
        "cannot bind cluster peer listener: l"
    );
}
