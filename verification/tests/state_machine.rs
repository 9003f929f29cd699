use ironbus_server::cluster::command::{
    MetadataCommand, NodeRole, Placement, TAG_ADD_NODE, TAG_PLACE_PARTITION, TAG_SET_CONFIG,
};
use ironbus_server::cluster::error::DecodeError;
use ironbus_server::cluster::state_machine::MetadataStateMachine;

#[test]
fn add_remove_member_roundtrips_through_apply() {
    let mut sm = MetadataStateMachine::new();
    sm.apply(
        1,
        &MetadataCommand::AddNode {
            node: 7,
            role: NodeRole::Voter,
        },
    );
    sm.apply(
        2,
        &MetadataCommand::AddNode {
            node: 8,
            role: NodeRole::Learner,
        },
    );
    assert_eq!(sm.role(7), Some(NodeRole::Voter));
    assert_eq!(sm.role(8), Some(NodeRole::Learner));
    assert_eq!(sm.voter_count(), 1);
    assert_eq!(sm.applied_index(), 2);

    sm.apply(3, &MetadataCommand::RemoveNode { node: 7 });
    assert_eq!(sm.role(7), None);
    assert_eq!(sm.voter_count(), 0);
}

#[test]
fn placement_and_config_apply() {
    let mut sm = MetadataStateMachine::new();
    sm.apply(
        1,
        &MetadataCommand::AssignPartition {
            partition: 4,
            leader: 2,
            epoch: 9,
        },
    );
    sm.apply(
        2,
        &MetadataCommand::SetConfig {
            key: "replication".to_owned(),
            value: "3".to_owned(),
        },
    );
    assert_eq!(sm.placement(4), Some(Placement::leader_only(2, 9)));
    assert_eq!(sm.config("replication"), Some("3"));
    assert_eq!(sm.config("missing"), None);
}

#[test]
fn place_partition_applies_the_full_replica_set_and_leader() {
    let mut sm = MetadataStateMachine::new();
    sm.apply(
        1,
        &MetadataCommand::PlacePartition {
            partition: 4,
            replicas: vec![2, 1, 3],
            leader: 2,
            epoch: 9,
        },
    );
    let placement = sm.placement(4).expect("placement applied");
    assert_eq!(
        placement.replicas,
        vec![2, 1, 3],
        "the ordered replica set is stored"
    );
    assert_eq!(placement.leader, 2, "the designated leader is stored");
    assert_eq!(placement.epoch, 9);
    assert_eq!(placement.replication_factor(), 3);
    assert!(
        placement.replicas.contains(&placement.leader),
        "the leader is always one of the replicas"
    );
}

#[test]
fn assign_partition_yields_a_leader_only_replica_set() {
    // A leader-only placement has replicas == [leader].
    let mut sm = MetadataStateMachine::new();
    sm.apply(
        1,
        &MetadataCommand::AssignPartition {
            partition: 7,
            leader: 5,
            epoch: 3,
        },
    );
    let placement = sm.placement(7).expect("placement applied");
    assert_eq!(placement.replicas, vec![5]);
    assert_eq!(placement.leader, 5);
    assert_eq!(placement.replication_factor(), 1);
}

#[test]
fn decode_rejects_a_placement_whose_leader_is_not_a_replica() {
    // A hand-built PlacePartition whose leader (99) is absent from its replica set must be
    // rejected fail-closed at decode time — a malformed placement can never enter the state.
    let cmd = MetadataCommand::PlacePartition {
        partition: 1,
        replicas: vec![1, 2, 3],
        leader: 99,
        epoch: 1,
    };
    let bytes = cmd.encode();
    assert_eq!(
        MetadataCommand::decode(&bytes),
        Err(DecodeError::LeaderNotAReplica)
    );
}

#[test]
fn decode_rejects_a_placement_with_an_empty_replica_set() {
    let cmd = MetadataCommand::PlacePartition {
        partition: 1,
        replicas: vec![],
        leader: 0,
        epoch: 1,
    };
    let bytes = cmd.encode();
    assert_eq!(
        MetadataCommand::decode(&bytes),
        Err(DecodeError::EmptyReplicaSet)
    );
}

#[test]
fn decode_rejects_a_placement_with_an_overrunning_replica_count() {
    // A length prefix claiming more replicas than the buffer holds must be rejected BEFORE any
    // large allocation (the hostile-length guard).
    let mut buf = vec![TAG_PLACE_PARTITION];
    buf.extend_from_slice(&1u64.to_le_bytes()); // partition
    buf.extend_from_slice(&1000u32.to_le_bytes()); // claims 1000 replicas
    buf.extend_from_slice(&1u64.to_le_bytes()); // but only one u64 follows
    assert_eq!(MetadataCommand::decode(&buf), Err(DecodeError::BadLength));
}

#[test]
fn every_command_encode_decode_roundtrips() {
    let cmds = [
        MetadataCommand::AddNode {
            node: 42,
            role: NodeRole::Voter,
        },
        MetadataCommand::AddNode {
            node: 43,
            role: NodeRole::Learner,
        },
        MetadataCommand::RemoveNode { node: 99 },
        MetadataCommand::AssignPartition {
            partition: 1,
            leader: 5,
            epoch: 12,
        },
        MetadataCommand::PlacePartition {
            partition: 8,
            replicas: vec![3, 1, 2],
            leader: 3,
            epoch: 7,
        },
        MetadataCommand::PlacePartition {
            partition: 9,
            replicas: vec![42],
            leader: 42,
            epoch: 1,
        },
        MetadataCommand::SetConfig {
            key: "k".to_owned(),
            value: "value with spaces".to_owned(),
        },
        MetadataCommand::SetConfig {
            key: String::new(),
            value: String::new(),
        },
        MetadataCommand::CheckpointCommittedHw {
            partition: 0,
            offset: 0,
        },
        MetadataCommand::CheckpointCommittedHw {
            partition: 7,
            offset: 123_456,
        },
    ];
    for cmd in &cmds {
        let bytes = cmd.encode();
        let back = MetadataCommand::decode(&bytes).expect("decode");
        assert_eq!(&back, cmd, "round-trip mismatch for {cmd:?}");
    }
}

#[test]
fn decode_rejects_malformed() {
    assert_eq!(MetadataCommand::decode(&[]), Err(DecodeError::Truncated));
    assert_eq!(
        MetadataCommand::decode(&[200]),
        Err(DecodeError::UnknownTag(200))
    );
    // AddNode tag with a truncated u64.
    assert_eq!(
        MetadataCommand::decode(&[TAG_ADD_NODE, 1, 2, 3]),
        Err(DecodeError::Truncated)
    );
    // RemoveNode with a trailing extra byte.
    let mut buf = MetadataCommand::RemoveNode { node: 1 }.encode();
    buf.push(0xff);
    assert_eq!(
        MetadataCommand::decode(&buf),
        Err(DecodeError::TrailingBytes)
    );
}

#[test]
fn checkpoint_committed_hw_stores_and_is_monotonic() {
    // The committed-HW checkpoint records the SAFE bar a successor must hold. It is stored
    // per partition and is MONOTONIC: a later, LOWER checkpoint never lowers the bar (it would
    // silently re-open a loss window), so the bar only ever rises.
    let mut sm = MetadataStateMachine::new();
    assert_eq!(sm.committed_hw(0), None, "no checkpoint yet");
    sm.apply(
        1,
        &MetadataCommand::CheckpointCommittedHw {
            partition: 0,
            offset: 100,
        },
    );
    assert_eq!(sm.committed_hw(0), Some(100));
    // A higher checkpoint raises the bar.
    sm.apply(
        2,
        &MetadataCommand::CheckpointCommittedHw {
            partition: 0,
            offset: 150,
        },
    );
    assert_eq!(sm.committed_hw(0), Some(150));
    // A LOWER (stale / out-of-order) checkpoint must NOT lower the bar.
    sm.apply(
        3,
        &MetadataCommand::CheckpointCommittedHw {
            partition: 0,
            offset: 120,
        },
    );
    assert_eq!(
        sm.committed_hw(0),
        Some(150),
        "a stale lower checkpoint never lowers the safe bar"
    );
    // It is per-partition.
    sm.apply(
        4,
        &MetadataCommand::CheckpointCommittedHw {
            partition: 9,
            offset: 42,
        },
    );
    assert_eq!(sm.committed_hw(9), Some(42));
    assert_eq!(sm.committed_hw(0), Some(150));
    assert_eq!(sm.committed_hws().get(&0), Some(&150));
    assert_eq!(sm.committed_hws().get(&9), Some(&42));
}

#[test]
fn apply_encoded_decodes_then_folds() {
    let mut sm = MetadataStateMachine::new();
    let data = MetadataCommand::AddNode {
        node: 1,
        role: NodeRole::Voter,
    }
    .encode();
    sm.apply_encoded(5, &data).expect("apply encoded");
    assert_eq!(sm.role(1), Some(NodeRole::Voter));
    assert_eq!(sm.applied_index(), 5);
}

// State-machine snapshot serialization + restore.

/// Build a state machine with one of every kind of committed state, so the snapshot exercises
/// every map (members, placements, committed-HW, config) and the applied index.
fn populated_sm() -> MetadataStateMachine {
    let mut sm = MetadataStateMachine::new();
    sm.apply(
        1,
        &MetadataCommand::AddNode {
            node: 1,
            role: NodeRole::Voter,
        },
    );
    sm.apply(
        2,
        &MetadataCommand::AddNode {
            node: 2,
            role: NodeRole::Learner,
        },
    );
    sm.apply(
        3,
        &MetadataCommand::PlacePartition {
            partition: 7,
            replicas: vec![1, 2, 3],
            leader: 1,
            epoch: 4,
        },
    );
    sm.apply(
        4,
        &MetadataCommand::AssignPartition {
            partition: 9,
            leader: 2,
            epoch: 5,
        },
    );
    sm.apply(
        5,
        &MetadataCommand::CheckpointCommittedHw {
            partition: 7,
            offset: 1234,
        },
    );
    sm.apply(
        6,
        &MetadataCommand::SetConfig {
            key: "replication".to_owned(),
            value: "3".to_owned(),
        },
    );
    sm
}

/// A snapshot round-trips: restoring a serialized snapshot yields a state machine BYTE-EQUAL to
/// the original (every map + the applied index), proving the snapshot captures ALL committed
/// state at its index.
#[test]
fn snapshot_then_restore_yields_an_identical_state_machine() {
    let sm = populated_sm();
    let bytes = sm.snapshot();
    let restored = MetadataStateMachine::restore_from_snapshot(&bytes).expect("restore");
    assert_eq!(restored, sm, "the restored state machine equals the original");
    assert_eq!(restored.applied_index(), sm.applied_index());
    // Spot-check a representative value from each map survived.
    assert_eq!(restored.role(1), Some(NodeRole::Voter));
    assert_eq!(restored.role(2), Some(NodeRole::Learner));
    assert_eq!(
        restored.placement(7),
        Some(Placement {
            replicas: vec![1, 2, 3],
            leader: 1,
            epoch: 4
        })
    );
    assert_eq!(restored.placement(9), Some(Placement::leader_only(2, 5)));
    assert_eq!(restored.committed_hw(7), Some(1234));
    assert_eq!(restored.config("replication"), Some("3"));
}

/// Two state machines with IDENTICAL committed state serialize to BYTE-IDENTICAL snapshots
/// (the `BTreeMap` order is deterministic), regardless of the ORDER the commands were applied —
/// the point-in-time-consistency property a snapshot relies on.
#[test]
fn snapshot_is_deterministic_regardless_of_apply_order() {
    let a = populated_sm();
    // Apply the same commands in a DIFFERENT order, but at the same final applied index.
    let mut b = MetadataStateMachine::new();
    b.apply(
        6,
        &MetadataCommand::SetConfig {
            key: "replication".to_owned(),
            value: "3".to_owned(),
        },
    );
    b.apply(
        5,
        &MetadataCommand::CheckpointCommittedHw {
            partition: 7,
            offset: 1234,
        },
    );
    b.apply(
        4,
        &MetadataCommand::AssignPartition {
            partition: 9,
            leader: 2,
            epoch: 5,
        },
    );
    b.apply(
        3,
        &MetadataCommand::PlacePartition {
            partition: 7,
            replicas: vec![1, 2, 3],
            leader: 1,
            epoch: 4,
        },
    );
    b.apply(
        2,
        &MetadataCommand::AddNode {
            node: 2,
            role: NodeRole::Learner,
        },
    );
    // Re-set the applied index to match `a` (the last apply above set it to 2).
    b.apply(
        6,
        &MetadataCommand::AddNode {
            node: 1,
            role: NodeRole::Voter,
        },
    );
    assert_eq!(a.snapshot(), b.snapshot(), "snapshots are byte-identical");
}

/// Restoring a snapshot then applying the log TAIL on top reaches the SAME state as a full
/// replay (the snapshot+tail == full-replay invariant, at the SM layer). This is the heart of
/// snapshot-based catch-up: a node that installs a snapshot at index N and applies N+1.. is
/// identical to a node that replayed 1...
#[test]
fn restore_then_apply_tail_equals_full_replay() {
    // Full replay: apply commands 1..=8.
    let mut full = populated_sm();
    full.apply(
        7,
        &MetadataCommand::AddNode {
            node: 3,
            role: NodeRole::Voter,
        },
    );
    full.apply(
        8,
        &MetadataCommand::SetConfig {
            key: "k".to_owned(),
            value: "v".to_owned(),
        },
    );

    // Snapshot-at-6 + tail 7,8: restore the snapshot, then apply only the tail.
    let snapshot = populated_sm().snapshot();
    let mut from_snap = MetadataStateMachine::restore_from_snapshot(&snapshot).expect("restore");
    assert_eq!(from_snap.applied_index(), 6, "restored at the snapshot index");
    from_snap.apply(
        7,
        &MetadataCommand::AddNode {
            node: 3,
            role: NodeRole::Voter,
        },
    );
    from_snap.apply(
        8,
        &MetadataCommand::SetConfig {
            key: "k".to_owned(),
            value: "v".to_owned(),
        },
    );

    assert_eq!(
        from_snap, full,
        "restore(snapshot@6) + apply(7,8) == full replay(1..=8)"
    );
    assert_eq!(from_snap.applied_index(), 8);
}

/// An empty (fresh) state machine snapshots and restores cleanly (the genesis case).
#[test]
fn an_empty_state_machine_snapshots_and_restores() {
    let sm = MetadataStateMachine::new();
    let bytes = sm.snapshot();
    let restored = MetadataStateMachine::restore_from_snapshot(&bytes).expect("restore empty");
    assert_eq!(restored, sm);
    assert_eq!(restored.applied_index(), 0);
}

/// Restore fails CLOSED on a foreign / torn blob: an unknown version, trailing bytes, and a
/// truncated buffer are typed errors, never a silently mis-installed state.
#[test]
fn restore_rejects_a_foreign_or_torn_snapshot() {
    // Unknown version byte.
    assert_eq!(
        MetadataStateMachine::restore_from_snapshot(&[0xff, 0, 0, 0, 0, 0, 0, 0, 0]),
        Err(DecodeError::UnknownSnapshotVersion(0xff))
    );
    // Trailing bytes after a valid snapshot.
    let mut bytes = populated_sm().snapshot();
    bytes.push(0x00);
    assert_eq!(
        MetadataStateMachine::restore_from_snapshot(&bytes),
        Err(DecodeError::TrailingBytes)
    );
    // Truncated mid-snapshot.
    let good = populated_sm().snapshot();
    assert!(matches!(
        MetadataStateMachine::restore_from_snapshot(&good[..good.len() / 2]),
        Err(DecodeError::Truncated | DecodeError::BadLength)
    ));
    // Empty buffer.
    assert_eq!(
        MetadataStateMachine::restore_from_snapshot(&[]),
        Err(DecodeError::Truncated)
    );
}

#[test]
fn a_voter_role_takes_precedence_over_a_learner_role() {
    let mut sm = MetadataStateMachine::new();
    sm.set_membership(3, &[1, 2], &[5], &[2, 4], &[5, 6]);
    assert_eq!(sm.role(1), Some(NodeRole::Voter));
    assert_eq!(sm.role(2), Some(NodeRole::Voter));
    assert_eq!(sm.role(4), Some(NodeRole::Learner));
    assert_eq!(sm.role(5), Some(NodeRole::Voter));
    assert_eq!(sm.role(6), Some(NodeRole::Learner));
    assert_eq!(sm.role(9), None);
    assert_eq!(sm.voter_count(), 3);
    assert_eq!(sm.applied_index(), 3);
    // The table is replaced as a whole.
    sm.set_membership(4, &[7], &[], &[], &[]);
    assert_eq!(sm.role(1), None);
    assert_eq!(sm.voter_count(), 1);
}

#[test]
fn every_decode_error_has_its_input_and_its_text() {
    let mut bad_utf8 = vec![TAG_SET_CONFIG];
    bad_utf8.extend_from_slice(&2u32.to_le_bytes());
    bad_utf8.extend_from_slice(&[0xc3, 0x28]);
    let mut overrun = vec![TAG_SET_CONFIG];
    overrun.extend_from_slice(&9u32.to_le_bytes());
    overrun.push(b'k');
    let mut unknown_role = vec![TAG_ADD_NODE];
    unknown_role.extend_from_slice(&1u64.to_le_bytes());
    unknown_role.push(77);
    for (bytes, error, text) in [
        (vec![], DecodeError::Truncated, "metadata command is truncated"),
        (vec![201], DecodeError::UnknownTag(201), "unknown metadata command tag 201"),
        (unknown_role, DecodeError::UnknownRole(77), "unknown node role byte 77"),
        (
            overrun,
            DecodeError::BadLength,
            "metadata command length field overruns the buffer",
        ),
        (
            bad_utf8,
            DecodeError::BadUtf8,
            "metadata command string field is not valid UTF-8",
        ),
    ] {
        assert_eq!(MetadataCommand::decode(&bytes), Err(error));
        assert_eq!(error.message(), text);
    }
    for (error, text) in [
        (DecodeError::TrailingBytes, "trailing bytes after a metadata command"),
        (
            DecodeError::LeaderNotAReplica,
            "placement leader is not in its own replica set",
        ),
        (DecodeError::EmptyReplicaSet, "placement has an empty replica set"),
        (
            DecodeError::UnknownSnapshotVersion(0),
            "unknown metadata snapshot format version 0",
        ),
    ] {
        assert_eq!(error.message(), text);
    }
}

#[test]
fn bytes_that_decode_are_the_encoding_of_what_they_decode_to() {
    let mut decoded = 0;
    for tag in 0u8..12 {
        for len in 0..40usize {
            let mut bytes = vec![tag];
            bytes.extend((0..len).map(|i| if i % 8 == 0 { 1 } else { 0 }));
            if let Ok(cmd) = MetadataCommand::decode(&bytes) {
                decoded += 1;
                assert_eq!(cmd.encode(), bytes, "canonical for {cmd:?}");
            }
        }
    }
    assert!(decoded > 0);
    let text = MetadataCommand::SetConfig {
        key: "gr\u{fc}n".to_string(),
        value: "\u{1f980}".to_string(),
    };
    assert_eq!(MetadataCommand::decode(&text.encode()), Ok(text));
}

#[test]
fn a_refused_entry_leaves_the_state_as_it_was() {
    let mut sm = populated_sm();
    let before = sm.clone();
    let mut bytes = MetadataCommand::PlacePartition {
        partition: 1,
        replicas: vec![1, 2],
        leader: 1,
        epoch: 3,
    }
    .encode();
    let last = bytes.len() - 16;
    bytes[last] = 9;
    assert_eq!(
        sm.apply_encoded(99, &bytes),
        Err(DecodeError::LeaderNotAReplica)
    );
    assert_eq!(sm, before);
}

#[test]
fn an_unknown_role_is_reported_with_its_own_byte() {
    // A stray byte behind the role changes nothing about what is unknown.
    assert_eq!(
        MetadataCommand::decode(&[TAG_ADD_NODE, 5, 0, 0, 0, 0, 0, 0, 0, 9, 255]),
        Err(DecodeError::UnknownRole(9))
    );
    let mut snapshot = vec![1];
    snapshot.extend_from_slice(&0u64.to_le_bytes());
    snapshot.extend_from_slice(&1u32.to_le_bytes());
    snapshot.extend_from_slice(&5u64.to_le_bytes());
    snapshot.push(7);
    snapshot.extend_from_slice(&[0; 12]);
    assert_eq!(
        MetadataStateMachine::restore_from_snapshot(&snapshot),
        Err(DecodeError::UnknownRole(7))
    );
}

#[test]
fn a_snapshot_takes_what_its_live_entries_take() {
    assert_eq!(MetadataStateMachine::new().snapshot().len(), 25);
    let mut sm = MetadataStateMachine::new();
    sm.apply(1, &MetadataCommand::AddNode { node: 1, role: NodeRole::Voter });
    assert_eq!(sm.snapshot().len(), 25 + 9);
    for epoch in 1..50 {
        sm.apply(
            1 + epoch,
            &MetadataCommand::PlacePartition {
                partition: 3,
                replicas: vec![1, 2, 3],
                leader: 1,
                epoch,
            },
        );
    }
    assert_eq!(sm.snapshot().len(), 25 + 9 + 28 + 8 * 3, "not by the number of commands");
    sm.apply(51, &MetadataCommand::CheckpointCommittedHw { partition: 3, offset: 7 });
    sm.apply(
        52,
        &MetadataCommand::SetConfig {
            key: "gr\u{fc}n".to_string(),
            value: "ab".to_string(),
        },
    );
    assert_eq!(sm.snapshot().len(), 25 + 9 + 52 + 16 + 8 + 5 + 2);
}
