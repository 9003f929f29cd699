use ironbus_server::cluster::command::{MetadataCommand, Placement};
use ironbus_server::cluster::driver::{
    check_failover_preserves_committed, decide_failover, may_promote, CommandStep, CyclePlan,
    CycleReading, DriverCmd, DriverState, Failover, FailoverDecision, LearnerCatchup, Withheld,
};
use ironbus_server::cluster::runtime::{
    ClusterStatus, LivenessConfig, METADATA_SNAPSHOT_LOG_THRESHOLD, TICK_INTERVAL_NANOS,
};
use ironbus_server::cluster::state_machine::MetadataStateMachine;
use std::collections::BTreeSet;

const SECOND: u64 = 1_000_000_000;

fn driver(node: u64, watched: &[u64], now: u64) -> DriverState {
    DriverState::new(node, watched, LivenessConfig::default(), now)
}

fn place(partition: u64, replicas: &[u64], leader: u64, epoch: u64) -> MetadataCommand {
    MetadataCommand::PlacePartition {
        partition,
        replicas: replicas.to_vec(),
        leader,
        epoch,
    }
}

fn state(commands: &[MetadataCommand]) -> MetadataStateMachine {
    let mut sm = MetadataStateMachine::new();
    for (i, c) in commands.iter().enumerate() {
        sm.apply(i as u64 + 1, c);
    }
    sm
}

fn reading(now: u64, is_leader: bool, voters: &[u64]) -> CycleReading {
    CycleReading {
        now,
        is_leader,
        voters: voters.to_vec(),
        retained_len: 0,
        committed_index: 5,
    }
}

fn cycle(
    d: &mut DriverState,
    r: &CycleReading,
    sm: &MetadataStateMachine,
    hw: u64,
    frontier: u64,
    catchup: Option<LearnerCatchup>,
) -> CyclePlan {
    d.decide_cycle(r, sm, Some(|_| hw), Some(|_| frontier), |_| catchup)
}

#[test]
fn ticks_follow_the_wall_clock_and_keep_the_remainder() {
    let mut d = driver(1, &[2], 1000);
    assert_eq!(d.on_tick(1000 + TICK_INTERVAL_NANOS - 1), 0);
    assert_eq!(d.on_tick(1000 + TICK_INTERVAL_NANOS), 1);
    assert_eq!(d.on_tick(1000 + TICK_INTERVAL_NANOS), 0);
    assert_eq!(d.on_tick(1000 + 3 * TICK_INTERVAL_NANOS + 5), 2);
    // A stall is caught up ten intervals at a time.
    assert_eq!(d.on_tick(1000 + 20 * TICK_INTERVAL_NANOS), 10);
    assert_eq!(d.on_tick(1000 + 20 * TICK_INTERVAL_NANOS), 7);
    assert_eq!(d.on_tick(0), 0, "a clock that runs backwards fires nothing");
}

#[test]
fn commands_are_passed_on_or_remembered() {
    let mut d = driver(1, &[2], 0);
    let cmd = MetadataCommand::RemoveNode { node: 2 };
    assert_eq!(
        d.on_command(DriverCmd::<u8>::Propose(cmd.clone())),
        CommandStep::Propose(cmd)
    );
    assert_eq!(
        d.on_command(DriverCmd::ProposeMembership(7u8)),
        CommandStep::ProposeMembership(7)
    );
    let voters = vec![1, 2, 3];
    for (unreachable, suspects) in [(true, vec![2]), (false, vec![])] {
        assert_eq!(
            d.on_command(DriverCmd::<u8>::ForcePeerUnreachable { peer: 2, unreachable }),
            CommandStep::Done
        );
        assert_eq!(d.detect_silent(1, true, &voters), suspects);
    }
}

#[test]
fn a_silent_voter_is_suspected_after_a_deadline_and_removed_once() {
    let mut d = driver(1, &[2, 3], 0);
    let voters = vec![1, 2, 3];
    assert!(d.detect_silent(3 * SECOND - 1, true, &voters).is_empty());
    d.record_heard(3, 2 * SECOND);
    d.record_heard(0, 3 * SECOND);
    assert_eq!(d.detect_silent(3 * SECOND, true, &voters), vec![2]);
    assert!(
        d.detect_silent(3 * SECOND, false, &voters).is_empty(),
        "only the leader detects"
    );
    d.removal_accepted(2);
    assert!(d.detect_silent(3 * SECOND, true, &voters).is_empty());
    // A voter that is watched no more is not suspected, however silent.
    assert_eq!(d.detect_silent(9 * SECOND, true, &vec![1, 2]), Vec::<u64>::new());
    assert_eq!(d.detect_silent(9 * SECOND, true, &voters), vec![3]);
}

#[test]
fn a_disabled_detector_suspects_nobody() {
    let off = LivenessConfig { timeout_nanos: 1, enabled: false };
    let mut d = DriverState::new(1, &[2], off, 0);
    assert!(d.detect_silent(SECOND, true, &vec![1, 2]).is_empty());
}

#[test]
fn membership_changes_yield_a_registry_and_departures() {
    let mut d = driver(1, &[2, 3], 0);
    let sm = MetadataStateMachine::new();
    let registry = d.on_membership(&[1, 2, 3], &[]).expect("the first membership is new");
    assert!(registry.is_known(2));
    assert!(d.on_membership(&[1, 2, 3], &[]).is_none());
    let registry = d.on_membership(&[1, 2], &[4]).expect("changed");
    assert!(registry.is_known(4) && !registry.is_known(3));
    assert_eq!(d.learners(), vec![4]);

    let mut status = ClusterStatus::new(0);
    d.publish(&mut status, true, 9, 3, &sm);
    assert_eq!(status.node_id, 1);
    assert_eq!((status.leader_epoch, status.snapshot_index), (9, 3));
    assert_eq!(status.voter_count, 2);
    assert_eq!(status.departed_members, BTreeSet::from([3]));
    assert_eq!(status.learners, BTreeSet::from([4]));

    // A learner that becomes a voter has not departed; its promotion is settled.
    d.promotion_accepted(4);
    assert!(d.on_membership(&[1, 2, 4], &[]).is_none());
    d.publish(&mut status, true, 9, 3, &sm);
    assert_eq!(status.departed_members, BTreeSet::from([3]));
    assert!(status.learners_promoted.is_empty());
    assert_eq!(status.voter_count, 3);
}

#[test]
fn the_status_copies_placements_when_the_applied_index_moves() {
    let d = driver(1, &[], 0);
    let sm = state(&[
        place(0, &[1, 2], 1, 4),
        MetadataCommand::CheckpointCommittedHw { partition: 0, offset: 11 },
    ]);
    let mut status = ClusterStatus::new(1);
    d.publish(&mut status, false, 1, 0, &sm);
    assert_eq!(status.applied_index, 2);
    assert_eq!(status.placements[&0].leader, 1);
    assert_eq!(status.last_committed_hw[&0], 11);
    status.placements.clear();
    d.publish(&mut status, false, 1, 0, &sm);
    assert!(status.placements.is_empty(), "nothing was applied since");
}

#[test]
fn a_failover_is_safe_only_under_all_three_conditions() {
    let good = Failover {
        dead_leader: 1,
        successor: 2,
        successor_in_isr: true,
        successor_durable_prefix: 10,
        committed_hw: 10,
        dead_leader_epoch: 4,
        successor_epoch: 5,
    };
    assert!(check_failover_preserves_committed(&good));
    for bad in [
        Failover { successor_in_isr: false, ..good },
        Failover { successor_durable_prefix: 9, ..good },
        Failover { successor_epoch: 4, ..good },
    ] {
        assert!(!check_failover_preserves_committed(&bad));
    }
}

#[test]
fn a_failover_is_decided_by_the_checkpointed_bar() {
    let dead = Placement { replicas: vec![1, 2, 3], leader: 1, epoch: 5 };
    assert_eq!(
        decide_failover(2, 0, &dead, None, 100),
        FailoverDecision::Withhold(Withheld::NoCheckpoint)
    );
    assert_eq!(
        decide_failover(2, 0, &dead, Some(50), 49),
        FailoverDecision::Withhold(Withheld::Behind { own_frontier: 49, safe_bar: 50 })
    );
    assert_eq!(
        decide_failover(2, 0, &dead, Some(50), 50),
        FailoverDecision::Promote(place(0, &[2, 3], 2, 6))
    );
    // A node that held no replica joins the replica set.
    assert_eq!(
        decide_failover(9, 0, &dead, Some(50), 50),
        FailoverDecision::Promote(place(0, &[2, 3, 9], 9, 6))
    );
    // An epoch that cannot rise cannot fence the dead leader.
    let last = Placement { epoch: u64::MAX, ..dead };
    assert_eq!(
        decide_failover(2, 0, &last, Some(50), 50),
        FailoverDecision::Withhold(Withheld::Unsafe)
    );
}

#[test]
fn a_learner_is_promoted_only_on_evidence() {
    let caught = LearnerCatchup { matched: 5, committed: 5 };
    let behind = LearnerCatchup { matched: 4, committed: 5 };
    assert!(may_promote(5, Some(caught)));
    assert!(!may_promote(5, Some(behind)));
    assert!(!may_promote(5, None));
    assert!(!may_promote(0, Some(LearnerCatchup { matched: 0, committed: 0 })));
}

#[test]
fn one_cycle_of_the_leader() {
    // Node 1 leads the group; node 3, which led partition 0, has left; node 4 is a learner.
    let mut d = driver(1, &[2, 3], 0);
    d.on_membership(&[1, 2, 3], &[]);
    d.on_membership(&[1, 2], &[4]);
    let sm = state(&[
        place(0, &[3, 1, 2], 3, 7),
        place(1, &[1, 2], 1, 2),
        place(2, &[3, 2], 3, 1),
        MetadataCommand::CheckpointCommittedHw { partition: 0, offset: 40 },
        MetadataCommand::CheckpointCommittedHw { partition: 1, offset: 10 },
    ]);
    let caught = Some(LearnerCatchup { matched: 5, committed: 5 });
    let plan = cycle(&mut d, &reading(4 * SECOND, true, &[1, 2]), &sm, 12, 40, caught);
    assert_eq!(plan.removals, vec![2], "silent for a deadline");
    assert_eq!(
        plan.checkpoints,
        vec![MetadataCommand::CheckpointCommittedHw { partition: 1, offset: 12 }],
        "only the led partition whose bar rises"
    );
    assert!(!plan.snapshot);
    assert_eq!(
        plan.failovers,
        vec![
            (0, FailoverDecision::Promote(place(0, &[1, 2], 1, 8))),
            (2, FailoverDecision::Withhold(Withheld::NoCheckpoint)),
        ]
    );
    assert_eq!(plan.promotions, vec![4]);

    // What was accepted is in flight and is not proposed again.
    d.removal_accepted(2);
    d.failover_accepted(0);
    d.promotion_accepted(4);
    let again = cycle(&mut d, &reading(4 * SECOND, true, &[1, 2]), &sm, 12, 40, caught);
    assert!(again.removals.is_empty());
    assert!(again.checkpoints.is_empty(), "the cadence has not passed");
    assert_eq!(again.failovers.len(), 1);
    assert!(again.promotions.is_empty());

    // Once the failover has landed, its mark is dropped.
    let mut landed = sm.clone();
    landed.apply(6, &place(0, &[1, 2], 1, 8));
    cycle(&mut d, &reading(4 * SECOND, true, &[1, 2]), &landed, 12, 40, caught);
    let mut status = ClusterStatus::new(1);
    d.publish(&mut status, true, 1, 0, &landed);
    assert!(status.failover_proposed.is_empty());
    assert_eq!(status.suspected_dead, BTreeSet::from([2]));
}

#[test]
fn a_cycle_of_a_follower_proposes_nothing() {
    let mut d = driver(1, &[2, 3], 0);
    d.on_membership(&[1, 2, 3], &[]);
    d.on_membership(&[1, 2], &[4]);
    let sm = state(&[
        place(0, &[3, 1, 2], 3, 7),
        MetadataCommand::CheckpointCommittedHw { partition: 0, offset: 40 },
    ]);
    let caught = Some(LearnerCatchup { matched: 5, committed: 5 });
    let mut r = reading(11 * SECOND, false, &[1, 2]);
    let plan = cycle(&mut d, &r, &sm, 99, 99, caught);
    assert!(plan.removals.is_empty() && plan.checkpoints.is_empty());
    assert!(plan.failovers.is_empty() && plan.promotions.is_empty());
    assert!(plan.snapshot, "every node snapshots on its cadence");
    r.retained_len = METADATA_SNAPSHOT_LOG_THRESHOLD - 1;
    assert!(!cycle(&mut d, &r, &sm, 0, 0, None).snapshot);
    r.retained_len = METADATA_SNAPSHOT_LOG_THRESHOLD;
    assert!(cycle(&mut d, &r, &sm, 0, 0, None).snapshot, "or once the log is long");
}

#[test]
fn without_a_data_plane_the_leader_fails_nothing_over() {
    let mut d = driver(1, &[3], 0);
    d.on_membership(&[1, 3], &[]);
    d.on_membership(&[1], &[]);
    let sm = state(&[
        place(0, &[3, 1], 3, 7),
        MetadataCommand::CheckpointCommittedHw { partition: 0, offset: 0 },
    ]);
    let absent: Option<fn(u64) -> u64> = None;
    let plan = d.decide_cycle(&reading(SECOND, true, &[1]), &sm, absent, absent, |_| None);
    assert!(plan.checkpoints.is_empty() && plan.failovers.is_empty());
}
