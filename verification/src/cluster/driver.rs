//! The decisions of the metadata-group driver.
//!
//! One thread owns the Raft core and runs a fixed cycle: tick, take commands, step what arrived,
//! drive the core, refresh the membership, detect silent voters, checkpoint, snapshot, fail over,
//! promote learners, publish. What it does to the core is I/O; what it decides is here, as a state
//! and a function for each stage of the cycle.
//!
//! Only the metadata leader proposes anything, and everything that it proposes is either a removal
//! of a silent voter, a checkpoint of a partition that it leads itself, a promotion of itself to a
//! partition whose leader has departed, or a promotion of a learner that has caught up.

use std::collections::{BTreeMap, BTreeSet};
use vstd::prelude::*;
use vstd::std_specs::btree::*;

use crate::cluster::command;
use crate::cluster::command::{CommandView, MetadataCommand, Placement, PlacementView};
use crate::cluster::ids;
use crate::cluster::order;
use crate::cluster::runtime;
use crate::cluster::runtime::{ClusterStatus, LivenessConfig, StatusView};
use crate::cluster::state_machine;
use crate::cluster::state_machine::{MetadataStateMachine, StateView};
use crate::cluster::transport::{known_ids, PeerRegistry, INVALID_ID};

verus! {

broadcast use {vstd::laws_cmp::group_laws_cmp, group_btree_axioms};

/// `a - b`, or 0 where `b` is the larger.
pub open spec fn since(a: u64, b: u64) -> u64 {
    if a >= b {
        (a - b) as u64
    } else {
        0
    }
}

/// A request from the rest of the broker to the driver. `M` is a membership change.
#[derive(Debug, Clone, PartialEq, Eq)]
pub enum DriverCmd<M> {
    /// Propose a metadata command.
    Propose(MetadataCommand),
    /// Propose a membership change.
    ProposeMembership(M),
    /// Treat a peer as unreachable, whenever it was last heard from; or stop doing so.
    ForcePeerUnreachable { peer: u64, unreachable: bool },
}

/// What a request asks of the Raft core.
#[derive(Debug, Clone, PartialEq, Eq)]
pub enum CommandStep<M> {
    /// Propose this command.
    Propose(MetadataCommand),
    /// Propose this membership change.
    ProposeMembership(M),
    /// Nothing.
    Done,
}

/// Everything that the driver remembers from one cycle to the next.
#[derive(Debug, Clone)]
pub struct DriverState {
    node_id: u64,
    liveness: LivenessConfig,
    watched: BTreeSet<u64>,
    members: BTreeSet<u64>,
    ever_seen: BTreeSet<u64>,
    departed: BTreeSet<u64>,
    voter_count: usize,
    learners: BTreeSet<u64>,
    last_heard: BTreeMap<u64, u64>,
    forced_unreachable: BTreeSet<u64>,
    suspected: BTreeSet<u64>,
    removal_proposed: BTreeSet<u64>,
    failover_proposed: BTreeSet<u64>,
    promotion_proposed: BTreeSet<u64>,
    last_tick: u64,
    last_checkpoint: u64,
    last_snapshot: u64,
    last_promotion_eval: u64,
}

/// The driver's memory as a mathematical value.
#[verifier::ext_equal]
pub struct DriverView {
    pub node_id: u64,
    pub liveness: LivenessConfig,
    /// The remote voters whose silence means a crash.
    pub watched: Set<u64>,
    /// The committed members, voters and learners.
    pub members: Set<u64>,
    /// Every node ever seen in the committed membership.
    pub ever_seen: Set<u64>,
    /// The nodes that were seen and are members no more.
    pub departed: Set<u64>,
    pub voter_count: nat,
    /// The committed learners.
    pub learners: Set<u64>,
    /// When each peer was last heard from.
    pub last_heard: Map<u64, u64>,
    pub forced_unreachable: Set<u64>,
    /// The voters found silent in the last cycle.
    pub suspected: Set<u64>,
    /// Peers whose removal is in flight.
    pub removal_proposed: Set<u64>,
    /// Partitions whose failover is in flight.
    pub failover_proposed: Set<u64>,
    /// Learners whose promotion is in flight.
    pub promotion_proposed: Set<u64>,
    pub last_tick: u64,
    pub last_checkpoint: u64,
    pub last_snapshot: u64,
    pub last_promotion_eval: u64,
}

impl View for DriverState {
    type V = DriverView;

    closed spec fn view(&self) -> DriverView {
        DriverView {
            node_id: self.node_id,
            liveness: self.liveness,
            watched: self.watched@,
            members: self.members@,
            ever_seen: self.ever_seen@,
            departed: self.departed@,
            voter_count: self.voter_count as nat,
            learners: self.learners@,
            last_heard: self.last_heard@,
            forced_unreachable: self.forced_unreachable@,
            suspected: self.suspected@,
            removal_proposed: self.removal_proposed@,
            failover_proposed: self.failover_proposed@,
            promotion_proposed: self.promotion_proposed@,
            last_tick: self.last_tick,
            last_checkpoint: self.last_checkpoint,
            last_snapshot: self.last_snapshot,
            last_promotion_eval: self.last_promotion_eval,
        }
    }
}

/// What the driver reads off the Raft core once it has been driven.
#[derive(Debug, Clone)]
pub struct CycleReading {
    pub now: u64,
    pub is_leader: bool,
    /// The committed voters.
    pub voters: Vec<u64>,
    /// The length of the retained metadata log.
    pub retained_len: u64,
    /// The committed index of the metadata log.
    pub committed_index: u64,
}

/// A reading as a mathematical value.
#[verifier::ext_equal]
pub struct CycleView {
    pub now: u64,
    pub is_leader: bool,
    pub voters: Seq<u64>,
    pub retained_len: u64,
    pub committed_index: u64,
}

impl View for CycleReading {
    type V = CycleView;

    open spec fn view(&self) -> CycleView {
        CycleView {
            now: self.now,
            is_leader: self.is_leader,
            voters: self.voters@,
            retained_len: self.retained_len,
            committed_index: self.committed_index,
        }
    }
}

/// What the driver does to the Raft core in one cycle, in this order.
#[derive(Debug)]
pub struct CyclePlan {
    /// The silent voters whose removal is proposed.
    pub removals: Vec<u64>,
    /// The checkpoints that are proposed.
    pub checkpoints: Vec<MetadataCommand>,
    /// Whether the log is snapshotted and compacted.
    pub snapshot: bool,
    /// The decision for every orphaned partition.
    pub failovers: Vec<(u64, FailoverDecision)>,
    /// The learners whose promotion is proposed.
    pub promotions: Vec<u64>,
}

// ---- what each stage does ----

/// The memory of a driver that starts at `now`: every watched voter has a full deadline of grace,
/// and every periodic duty is due at once.
pub open spec fn started(
    node_id: u64,
    watched: Seq<u64>,
    liveness: LivenessConfig,
    now: u64,
) -> DriverView {
    DriverView {
        node_id,
        liveness,
        watched: watched.to_set(),
        members: Set::empty(),
        ever_seen: Set::empty(),
        departed: Set::empty(),
        voter_count: 0,
        learners: Set::empty(),
        last_heard: Map::new(|p: u64| watched.contains(p), |p: u64| now),
        forced_unreachable: Set::empty(),
        suspected: Set::empty(),
        removal_proposed: Set::empty(),
        failover_proposed: Set::empty(),
        promotion_proposed: Set::empty(),
        last_tick: now,
        last_checkpoint: since(now, runtime::COMMITTED_HW_CHECKPOINT_INTERVAL_NANOS),
        last_snapshot: since(now, runtime::METADATA_SNAPSHOT_INTERVAL_NANOS),
        last_promotion_eval: since(now, runtime::LEARNER_PROMOTION_INTERVAL_NANOS),
    }
}

/// The logical ticks that are due: one for every whole interval since the baseline, but never
/// more than the catch-up cap.
pub open spec fn ticks_due(last_tick: u64, now: u64) -> u64 {
    let elapsed = since(now, last_tick) / runtime::TICK_INTERVAL_NANOS;
    if elapsed <= runtime::MAX_TICK_CATCH_UP {
        elapsed
    } else {
        runtime::MAX_TICK_CATCH_UP
    }
}

/// The tick baseline after the ticks that were due: advanced by the consumed intervals only, so
/// that the remainder is kept.
pub open spec fn tick_baseline(last_tick: u64, now: u64) -> int {
    last_tick + ticks_due(last_tick, now) * runtime::TICK_INTERVAL_NANOS
}

impl DriverView {
    /// What the membership stage makes of the committed voters and learners.
    pub open spec fn with_membership(self, voters: Seq<u64>, learners: Seq<u64>) -> DriverView {
        let l = learners.to_set();
        let m = voters.to_set().union(l);
        let d = DriverView {
            voter_count: voters.len(),
            learners: l,
            promotion_proposed: if l != self.learners {
                self.promotion_proposed.intersect(l)
            } else {
                self.promotion_proposed
            },
            ..self
        };
        if m == self.members {
            d
        } else {
            let seen = self.ever_seen.union(m);
            let departed = seen.difference(m);
            DriverView {
                members: m,
                ever_seen: seen,
                departed,
                removal_proposed: self.removal_proposed.difference(departed),
                ..d
            }
        }
    }

    /// The memory once a message of `from` was heard at `now`. The invalid id is nobody.
    pub open spec fn heard(self, from: u64, now: u64) -> DriverView {
        DriverView {
            last_heard: if from != INVALID_ID {
                self.last_heard.insert(from, now)
            } else {
                self.last_heard
            },
            ..self
        }
    }

    /// The memory once `peer` is forced unreachable, or is so no more.
    pub open spec fn forced(self, peer: u64, unreachable: bool) -> DriverView {
        DriverView {
            forced_unreachable: if unreachable {
                self.forced_unreachable.insert(peer)
            } else {
                self.forced_unreachable.remove(peer)
            },
            ..self
        }
    }

    /// The memory once the removal of `peer` is in flight.
    pub open spec fn removing(self, peer: u64) -> DriverView {
        DriverView { removal_proposed: self.removal_proposed.insert(peer), ..self }
    }

    /// The memory once the failover of `partition` is in flight.
    pub open spec fn failing_over(self, partition: u64) -> DriverView {
        DriverView { failover_proposed: self.failover_proposed.insert(partition), ..self }
    }

    /// The memory once the promotion of `learner` is in flight.
    pub open spec fn promoting(self, learner: u64) -> DriverView {
        DriverView { promotion_proposed: self.promotion_proposed.insert(learner), ..self }
    }

    /// `peer` is silent at `now`: it is forced unreachable, was never heard from, or was last
    /// heard from at least a deadline ago.
    pub open spec fn silent(self, peer: u64, now: u64) -> bool {
        ||| self.forced_unreachable.contains(peer)
        ||| !self.last_heard.contains_key(peer)
        ||| since(now, self.last_heard[peer]) >= self.liveness.timeout_nanos
    }

    /// The voters that the detector suspects: watched, still voters, and silent. A node that is
    /// not the leader suspects nobody.
    pub open spec fn suspects(self, is_leader: bool, voters: Seq<u64>, now: u64) -> Set<u64> {
        if self.liveness.enabled && is_leader {
            self.watched.filter(|p: u64| voters.contains(p) && self.silent(p, now))
        } else {
            Set::empty()
        }
    }

    /// A periodic duty is due.
    pub open spec fn due(self, last: u64, interval: u64, now: u64) -> bool {
        since(now, last) >= interval
    }

    /// The promotion of learners runs now: this node leads, there are learners, and it is due.
    pub open spec fn promotion_runs(self, is_leader: bool, now: u64) -> bool {
        is_leader && !self.learners.is_empty() && self.due(
            self.last_promotion_eval,
            runtime::LEARNER_PROMOTION_INTERVAL_NANOS,
            now,
        )
    }

    /// A checkpoint is due on this node.
    pub open spec fn checkpoint_runs(self, is_leader: bool, now: u64) -> bool {
        is_leader && self.due(
            self.last_checkpoint,
            runtime::COMMITTED_HW_CHECKPOINT_INTERVAL_NANOS,
            now,
        )
    }

    /// A snapshot is due on this node, by its cadence or by the length of the retained log.
    pub open spec fn snapshot_runs(self, now: u64, retained_len: u64) -> bool {
        self.due(self.last_snapshot, runtime::METADATA_SNAPSHOT_INTERVAL_NANOS, now)
            || retained_len >= runtime::METADATA_SNAPSHOT_LOG_THRESHOLD
    }

    /// The memory after the decisions of one cycle.
    pub open spec fn after_cycle(self, reading: CycleView, state: StateView) -> DriverView {
        DriverView {
            suspected: self.suspects(reading.is_leader, reading.voters, reading.now),
            last_checkpoint: if self.checkpoint_runs(reading.is_leader, reading.now) {
                reading.now
            } else {
                self.last_checkpoint
            },
            last_snapshot: if self.snapshot_runs(reading.now, reading.retained_len) {
                reading.now
            } else {
                self.last_snapshot
            },
            failover_proposed: self.live_failovers(state.placements),
            last_promotion_eval: if self.promotion_runs(reading.is_leader, reading.now) {
                reading.now
            } else {
                self.last_promotion_eval
            },
            ..self
        }
    }

    /// The failovers in flight whose placement still names a departed leader.
    pub open spec fn live_failovers(self, placements: Map<u64, PlacementView>) -> Set<u64> {
        self.failover_proposed.filter(
            |p: u64| placements.contains_key(p) && self.departed.contains(placements[p].leader),
        )
    }

    /// The partitions whose leader has departed and whose failover is not in flight.
    pub open spec fn orphans(self, placements: Map<u64, PlacementView>) -> Set<u64> {
        placements.dom().filter(
            |p: u64|
                self.departed.contains(placements[p].leader) && !self.failover_proposed.contains(
                    p,
                ),
        )
    }

    /// What the driver publishes.
    pub open spec fn published(
        self,
        before: StatusView,
        is_leader: bool,
        leader_epoch: u64,
        snapshot_index: u64,
        state: StateView,
    ) -> StatusView {
        let moved = state.applied_index != before.applied_index;
        StatusView {
            node_id: self.node_id,
            is_leader,
            leader_epoch,
            voter_count: self.voter_count,
            applied_index: state.applied_index,
            placements: if moved {
                state.placements
            } else {
                before.placements
            },
            last_committed_hw: if moved {
                state.committed_hw
            } else {
                before.last_committed_hw
            },
            departed_members: self.departed,
            suspected_dead: self.suspected,
            failover_proposed: self.failover_proposed,
            learners: self.learners,
            learners_promoted: self.promotion_proposed,
            snapshot_index,
            health_failed: before.health_failed,
        }
    }

    /// What every stage keeps: the departed are exactly the nodes that were seen and are members
    /// no more, and a promotion in flight is that of a current learner.
    pub open spec fn consistent(self) -> bool {
        &&& self.members.subset_of(self.ever_seen)
        &&& self.departed =~= self.ever_seen.difference(self.members)
        &&& self.promotion_proposed.subset_of(self.learners)
        &&& self.learners.subset_of(self.members)
    }
}

// ---- failing over ----

/// A proposed change of leadership, as the safety gate sees it.
#[derive(Debug, Clone, Copy, PartialEq, Eq, Structural)]
pub struct Failover {
    pub dead_leader: u64,
    pub successor: u64,
    pub successor_in_isr: bool,
    pub successor_durable_prefix: u64,
    pub committed_hw: u64,
    pub dead_leader_epoch: u64,
    pub successor_epoch: u64,
}

/// A failover preserves every committed record: the successor is in sync, holds everything below
/// the committed bar, and leads under a strictly higher epoch.
pub open spec fn preserves_committed(f: Failover) -> bool {
    &&& f.successor_in_isr
    &&& f.successor_durable_prefix >= f.committed_hw
    &&& f.successor_epoch > f.dead_leader_epoch
}

/// Whether a failover preserves every committed record.
pub fn check_failover_preserves_committed(f: &Failover) -> (r: bool)
    ensures
        r == preserves_committed(*f),
{
    f.successor_in_isr && f.successor_durable_prefix >= f.committed_hw && f.successor_epoch
        > f.dead_leader_epoch
}

/// Why a promotion is withheld; the partition then stays leaderless until it can be proved safe.
#[derive(Debug, Clone, Copy, PartialEq, Eq, Structural)]
pub enum Withheld {
    /// No committed high-watermark was ever checkpointed, so nobody can be proved complete.
    NoCheckpoint,
    /// This node's own durable frontier is behind the checkpointed bar.
    Behind { own_frontier: u64, safe_bar: u64 },
    /// The promotion fails the safety gate.
    Unsafe,
}

/// What the leader decides for a partition whose leader has departed.
#[derive(Debug, Clone, PartialEq, Eq)]
pub enum FailoverDecision {
    /// Nothing is proposed.
    Withhold(Withheld),
    /// Propose this placement, which promotes this node.
    Promote(MetadataCommand),
}

/// A failover decision as a mathematical value.
#[verifier::ext_equal]
pub enum DecisionView {
    Withhold(Withheld),
    Promote(CommandView),
}

impl View for FailoverDecision {
    type V = DecisionView;

    open spec fn view(&self) -> DecisionView {
        match *self {
            FailoverDecision::Withhold(w) => DecisionView::Withhold(w),
            FailoverDecision::Promote(c) => DecisionView::Promote(c@),
        }
    }
}

/// The replica set after `node` takes over from `dead`: the old replicas without the dead leader,
/// and `node` among them.
pub open spec fn survivors_with(replicas: Seq<u64>, dead: u64, node: u64) -> Seq<u64> {
    let rest = replicas.filter(runtime::other_than(dead));
    if rest.contains(node) {
        rest
    } else {
        rest.push(node)
    }
}

/// The epoch that follows `epoch`, saturating.
pub open spec fn next_epoch(epoch: u64) -> u64 {
    if epoch < u64::MAX {
        (epoch + 1) as u64
    } else {
        u64::MAX
    }
}

/// The decision for one orphaned partition. The only successor that a node can prove complete is
/// itself, and only where its own frontier has reached the checkpointed bar; anything that it
/// cannot prove is withheld.
pub open spec fn decision(
    node: u64,
    partition: u64,
    placement: PlacementView,
    safe_bar: Option<u64>,
    own_frontier: u64,
) -> DecisionView {
    match safe_bar {
        None => DecisionView::Withhold(Withheld::NoCheckpoint),
        Some(bar) => if own_frontier < bar {
            DecisionView::Withhold(Withheld::Behind { own_frontier, safe_bar: bar })
        } else if next_epoch(placement.epoch) <= placement.epoch {
            DecisionView::Withhold(Withheld::Unsafe)
        } else {
            DecisionView::Promote(
                CommandView::PlacePartition {
                    partition,
                    placement: PlacementView {
                        replicas: survivors_with(placement.replicas, placement.leader, node),
                        leader: node,
                        epoch: next_epoch(placement.epoch),
                    },
                },
            )
        },
    }
}

/// The value of an optional map entry.
pub open spec fn entry<V>(m: Map<u64, V>, k: u64) -> Option<V> {
    if m.contains_key(k) {
        Some(m[k])
    } else {
        None
    }
}

/// Decide for one orphaned partition.
pub fn decide_failover(
    node: u64,
    partition: u64,
    placement: &Placement,
    safe_bar: Option<u64>,
    own_frontier: u64,
) -> (d: FailoverDecision)
    ensures
        d@ == decision(node, partition, placement@, safe_bar, own_frontier),
{
    let bar: u64 = match safe_bar {
        Some(b) => b,
        None => {
            return FailoverDecision::Withhold(Withheld::NoCheckpoint);
        },
    };
    if own_frontier < bar {
        return FailoverDecision::Withhold(Withheld::Behind { own_frontier, safe_bar: bar });
    }
    let new_epoch: u64 = placement.epoch.saturating_add(1);
    let gate = Failover {
        dead_leader: placement.leader,
        successor: node,
        successor_in_isr: true,
        successor_durable_prefix: own_frontier,
        committed_hw: bar,
        dead_leader_epoch: placement.epoch,
        successor_epoch: new_epoch,
    };
    if !check_failover_preserves_committed(&gate) {
        return FailoverDecision::Withhold(Withheld::Unsafe);
    }
    let mut survivors = runtime::without(&placement.replicas, placement.leader);
    if !command::contains_id(&survivors, node) {
        survivors.push(node);
    }
    FailoverDecision::Promote(
        MetadataCommand::PlacePartition {
            partition,
            replicas: survivors,
            leader: node,
            epoch: new_epoch,
        },
    )
}

/// A promotion is safe: it names this node, whose frontier holds everything below the
/// checkpointed bar; the dead leader is dropped from the replicas unless it is this node; the new
/// epoch is strictly above the old; and the placement is a valid one.
pub proof fn law_promotion_is_safe(
    node: u64,
    partition: u64,
    placement: PlacementView,
    safe_bar: Option<u64>,
    own_frontier: u64,
)
    ensures
        decision(node, partition, placement, safe_bar, own_frontier) matches DecisionView::Promote(
            c,
        ) ==> {
            &&& safe_bar matches Some(bar) && own_frontier >= bar
            &&& c matches CommandView::PlacePartition { partition: q, placement: p } && q
                == partition && p.leader == node && p.epoch > placement.epoch && p.valid() && (
            node != placement.leader ==> !p.replicas.contains(placement.leader))
        },
{
    broadcast use vstd::seq_lib::group_filter_ensures;

    let rest = placement.replicas.filter(runtime::other_than(placement.leader));
    let all = survivors_with(placement.replicas, placement.leader, node);
    order::lemma_push_to_set(rest, node);
    assert(rest.push(node).to_set().contains(node));
    assert(all.contains(node));
    if node != placement.leader && all.contains(placement.leader) {
        assert(rest.push(node).to_set().contains(placement.leader) ==> rest.to_set().contains(
            placement.leader,
        ));
        assert(rest.contains(placement.leader));
    }
}

/// A node that cannot prove itself complete promotes nobody: without a checkpoint, or behind it,
/// the decision is to withhold, whatever else holds.
pub proof fn law_unproved_failover_is_withheld(
    node: u64,
    partition: u64,
    placement: PlacementView,
    safe_bar: Option<u64>,
    own_frontier: u64,
)
    requires
        safe_bar is None || own_frontier < safe_bar->0,
    ensures
        decision(node, partition, placement, safe_bar, own_frontier) is Withhold,
{
}

// ---- checkpoints ----

/// The checkpoint of one led partition with live high-watermark `hw`, if it would raise the bar.
pub open spec fn checkpoint(
    partition: u64,
    hw: u64,
    persisted: Map<u64, u64>,
) -> Option<CommandView> {
    if hw > state_machine::value_or(persisted, partition, 0) {
        Some(CommandView::CheckpointCommittedHw { partition, offset: hw })
    } else {
        None
    }
}

/// The checkpoints of the led partitions `led` with live high-watermarks `hws`, in order.
pub open spec fn checkpoints(
    led: Seq<u64>,
    hws: Seq<u64>,
    persisted: Map<u64, u64>,
) -> Seq<CommandView>
    decreases led.len(),
{
    if led.len() == 0 {
        Seq::empty()
    } else {
        let rest = checkpoints(led.drop_last(), hws.drop_last(), persisted);
        match checkpoint(led.last(), hws.last(), persisted) {
            Some(c) => rest.push(c),
            None => rest,
        }
    }
}

/// The views of a run of commands.
pub open spec fn views(cmds: Seq<MetadataCommand>) -> Seq<CommandView> {
    cmds.map_values(|c: MetadataCommand| c@)
}

/// A checkpoint never lowers the bar: applying it leaves the partition with exactly the live
/// high-watermark, which is above what was recorded.
pub proof fn law_checkpoint_raises_the_bar(s: StateView, index: u64, partition: u64, hw: u64)
    ensures
        checkpoint(partition, hw, s.committed_hw) matches Some(c) ==> s.apply(
            index,
            c,
        ).committed_hw[partition] == hw && hw > state_machine::value_or(
            s.committed_hw,
            partition,
            0,
        ),
{
}

// ---- learners ----

/// How far a learner has got: its durably replicated frontier and the committed index.
#[derive(Debug, Clone, Copy, PartialEq, Eq, Structural)]
pub struct LearnerCatchup {
    pub matched: u64,
    pub committed: u64,
}

impl LearnerCatchup {
    pub open spec fn caught_up(self) -> bool {
        self.matched >= self.committed
    }

    /// Whether the learner holds everything that is committed.
    pub fn is_caught_up(&self) -> (r: bool)
        ensures
            r == self.caught_up(),
    {
        self.matched >= self.committed
    }
}

/// A learner may be promoted: something is committed at all, and there is evidence that the
/// learner has caught up with it.
pub open spec fn promotable(committed_index: u64, evidence: Option<LearnerCatchup>) -> bool {
    committed_index > 0 && (evidence matches Some(c) && c.caught_up())
}

/// Whether a learner may be promoted.
pub fn may_promote(committed_index: u64, evidence: Option<LearnerCatchup>) -> (r: bool)
    ensures
        r == promotable(committed_index, evidence),
{
    match evidence {
        Some(c) => committed_index > 0 && c.is_caught_up(),
        None => false,
    }
}

// ---- the driver ----

/// `outcomes` are answers of `ask` to the partitions `ps`, one for one.
pub open spec fn answered<A: Fn(u64) -> u64>(ask: A, ps: Seq<u64>, outcomes: Seq<u64>) -> bool {
    &&& outcomes.len() == ps.len()
    &&& forall|i: int|
        0 <= i < ps.len() ==> #[trigger] call_ensures(ask, (ps[i],), outcomes[i])
}

/// `d` is a decision for partition `p` under some answer of `own_frontier`, which is asked where
/// there is a bar to hold the answer against.
pub open spec fn decided_by<A: Fn(u64) -> u64>(
    own_frontier: A,
    node: u64,
    p: u64,
    state: StateView,
    d: DecisionView,
) -> bool {
    match entry(state.committed_hw, p) {
        None => d == decision(node, p, state.placements[p], None, 0),
        Some(bar) => exists|f: u64| #[trigger]
            call_ensures(own_frontier, (p,), f) && d == decision(
                node,
                p,
                state.placements[p],
                Some(bar),
                f,
            ),
    }
}

/// Some evidence that `catchup` gives for learner `l` settles that it may, or may not, be
/// promoted.
pub open spec fn evidence_says<A: Fn(u64) -> Option<LearnerCatchup>>(
    catchup: A,
    committed_index: u64,
    l: u64,
    promote: bool,
) -> bool {
    exists|e: Option<LearnerCatchup>| #[trigger]
        call_ensures(catchup, (l,), e) && promotable(committed_index, e) == promote
}

/// A decision for partition `p` that promotes is safe: there is a checkpointed bar, and the
/// command places the partition, validly and under a strictly higher epoch, with `node` as leader.
pub open spec fn safe_promotion(node: u64, p: u64, state: StateView, d: DecisionView) -> bool {
    d matches DecisionView::Promote(c) ==> {
        &&& state.committed_hw.contains_key(p)
        &&& c matches CommandView::PlacePartition { partition, placement } && partition == p
            && placement.leader == node && placement.valid() && placement.epoch
            > state.placements[p].epoch
    }
}

proof fn lemma_decided_is_safe<A: Fn(u64) -> u64>(
    own_frontier: A,
    node: u64,
    p: u64,
    state: StateView,
    d: DecisionView,
)
    requires
        decided_by(own_frontier, node, p, state, d),
    ensures
        safe_promotion(node, p, state, d),
{
    let bar = entry(state.committed_hw, p);
    if bar is Some {
        let f = choose|f: u64| #[trigger]
            call_ensures(own_frontier, (p,), f) && d == decision(
                node,
                p,
                state.placements[p],
                bar,
                f,
            );
        law_promotion_is_safe(node, p, state.placements[p], bar, f);
    }
}

/// `cmds` are the checkpoints of the partitions that `node` leads, under some answers of
/// `committed_hw`.
pub open spec fn checkpoints_by<A: Fn(u64) -> u64>(
    committed_hw: A,
    node: u64,
    state: StateView,
    cmds: Seq<MetadataCommand>,
) -> bool {
    let led = order::sorted(runtime::led_by(state.placements, node), order::id_order());
    exists|hws: Seq<u64>| #[trigger]
        answered(committed_hw, led, hws) && views(cmds) == checkpoints(
            led,
            hws,
            state.committed_hw,
        )
}

/// `plan` holds the decision for each of the orphaned partitions `ps`, in order.
pub open spec fn failovers_by<A: Fn(u64) -> u64>(
    own_frontier: A,
    node: u64,
    ps: Seq<u64>,
    state: StateView,
    plan: Seq<(u64, FailoverDecision)>,
) -> bool {
    &&& plan.len() == ps.len()
    &&& forall|i: int|
        0 <= i < ps.len() ==> (#[trigger] plan[i]).0 == ps[i] && decided_by(
            own_frontier,
            node,
            ps[i],
            state,
            plan[i].1@,
        )
}

/// `plan` holds, in id order, exactly the learners of `open` that may be promoted, as `catchup`
/// reports.
pub open spec fn promotions_by<A: Fn(u64) -> Option<LearnerCatchup>>(
    catchup: A,
    open: Set<u64>,
    committed_index: u64,
    plan: Seq<u64>,
) -> bool {
    &&& order::increasing(plan, order::id_order())
    &&& forall|l: u64| #[trigger]
        plan.contains(l) ==> open.contains(l) && evidence_says(catchup, committed_index, l, true)
    &&& forall|l: u64| #[trigger]
        open.contains(l) && !plan.contains(l) ==> evidence_says(catchup, committed_index, l, false)
}

impl DriverState {
    /// The memory of a driver that starts at `now` and watches the voters `watched`.
    pub fn new(node_id: u64, watched: &[u64], liveness: LivenessConfig, now: u64) -> (d:
        DriverState)
        ensures
            d@ == started(node_id, watched@, liveness, now),
            d@.consistent(),
    {
        let mut last_heard: BTreeMap<u64, u64> = BTreeMap::new();
        let mut i: usize = 0;
        assert(last_heard@ =~= Map::new(|p: u64| watched@.take(0).contains(p), |p: u64| now));
        while i < watched.len()
            invariant
                i <= watched@.len(),
                last_heard@ == Map::new(
                    |p: u64| watched@.take(i as int).contains(p),
                    |p: u64| now,
                ),
            decreases watched@.len() - i,
        {
            last_heard.insert(watched[i], now);
            proof {
                let t = watched@.take(i as int);
                let u = watched@.take(i + 1);
                assert(t.push(watched@[i as int]) =~= u);
                order::lemma_push_to_set(t, watched@[i as int]);
                assert forall|p: u64| u.contains(p) == (t.contains(p) || p
                    == watched@[i as int]) by {
                    assert(u.to_set().contains(p) == (t.to_set().contains(p) || p
                        == watched@[i as int]));
                }
                assert(last_heard@ =~= Map::new(|p: u64| u.contains(p), |p: u64| now));
            }
            i = i + 1;
        }
        assert(watched@.take(watched@.len() as int) =~= watched@);
        let d = DriverState {
            node_id,
            liveness,
            watched: ids::id_set(watched),
            members: BTreeSet::new(),
            ever_seen: BTreeSet::new(),
            departed: BTreeSet::new(),
            voter_count: 0,
            learners: BTreeSet::new(),
            last_heard,
            forced_unreachable: BTreeSet::new(),
            suspected: BTreeSet::new(),
            removal_proposed: BTreeSet::new(),
            failover_proposed: BTreeSet::new(),
            promotion_proposed: BTreeSet::new(),
            last_tick: now,
            last_checkpoint: now.saturating_sub(runtime::COMMITTED_HW_CHECKPOINT_INTERVAL_NANOS),
            last_snapshot: now.saturating_sub(runtime::METADATA_SNAPSHOT_INTERVAL_NANOS),
            last_promotion_eval: now.saturating_sub(runtime::LEARNER_PROMOTION_INTERVAL_NANOS),
        };
        assert(d@ =~= started(node_id, watched@, liveness, now));
        d
    }

    /// How many logical ticks to fire now. The logical clock runs at wall-clock pace, however
    /// often the driver wakes up: whole intervals that were missed are caught up, at most the cap
    /// in one cycle, and the baseline never passes `now`.
    pub fn on_tick(&mut self, now: u64) -> (ticks: u64)
        ensures
            ticks == ticks_due(old(self)@.last_tick, now),
            final(self)@ == (DriverView {
                last_tick: tick_baseline(old(self)@.last_tick, now) as u64,
                ..old(self)@
            }),
            tick_baseline(old(self)@.last_tick, now) <= u64::MAX,
            old(self)@.last_tick <= now ==> final(self)@.last_tick <= now,
    {
        let elapsed: u64 = now.saturating_sub(self.last_tick) / runtime::TICK_INTERVAL_NANOS;
        let ticks: u64 = if elapsed <= runtime::MAX_TICK_CATCH_UP {
            elapsed
        } else {
            runtime::MAX_TICK_CATCH_UP
        };
        assert(ticks * runtime::TICK_INTERVAL_NANOS <= since(now, self.last_tick)) by (
        nonlinear_arith)
            requires
                ticks <= since(now, self.last_tick) / runtime::TICK_INTERVAL_NANOS,
                runtime::TICK_INTERVAL_NANOS == 100_000_000,
        ;
        if ticks > 0 {
            self.last_tick = self.last_tick + ticks * runtime::TICK_INTERVAL_NANOS;
        }
        ticks
    }

    /// Take one request from the rest of the broker.
    pub fn on_command<M>(&mut self, cmd: DriverCmd<M>) -> (s: CommandStep<M>)
        ensures
            match cmd {
                DriverCmd::Propose(c) => s == CommandStep::<M>::Propose(c) && *final(self)
                    == *old(self),
                DriverCmd::ProposeMembership(m) => s == CommandStep::ProposeMembership(m)
                    && *final(self) == *old(self),
                DriverCmd::ForcePeerUnreachable { peer, unreachable } => s == CommandStep::<
                    M,
                >::Done && final(self)@ == old(self)@.forced(peer, unreachable),
            },
    {
        match cmd {
            DriverCmd::Propose(c) => CommandStep::Propose(c),
            DriverCmd::ProposeMembership(m) => CommandStep::ProposeMembership(m),
            DriverCmd::ForcePeerUnreachable { peer, unreachable } => {
                if unreachable {
                    self.forced_unreachable.insert(peer);
                } else {
                    self.forced_unreachable.remove(&peer);
                }
                CommandStep::Done
            },
        }
    }

    /// Record that a message of `from` was heard at `now`. The invalid id is nobody.
    pub fn record_heard(&mut self, from: u64, now: u64)
        ensures
            final(self)@ == old(self)@.heard(from, now),
    {
        if from != INVALID_ID {
            self.last_heard.insert(from, now);
        }
    }

    /// Refresh the membership from the committed voters and learners. Where the members changed,
    /// the registry that readers authenticate against is handed back anew.
    pub fn on_membership(&mut self, voters: &[u64], learners: &[u64]) -> (r: Option<PeerRegistry>)
        ensures
            final(self)@ == old(self)@.with_membership(voters@, learners@),
            match r {
                Some(registry) => voters@.to_set().union(learners@.to_set()) != old(self)@.members
                    && registry@ == known_ids(voters@, learners@),
                None => voters@.to_set().union(learners@.to_set()) == old(self)@.members,
            },
            old(self)@.consistent() ==> final(self)@.consistent(),
    {
        let ghost before = self@;
        self.voter_count = voters.len();
        let new_learners = ids::id_set(learners);
        let mut members = ids::id_set(voters);
        ids::insert_all(&mut members, learners);
        if !ids::same_ids(&new_learners, &self.learners) {
            self.promotion_proposed = ids::intersection(&self.promotion_proposed, &new_learners);
            self.learners = new_learners;
        }
        if ids::same_ids(&members, &self.members) {
            assert(self@ =~= before.with_membership(voters@, learners@));
            return None;
        }
        let registry = PeerRegistry::from_members(voters, learners);
        ids::insert_all(&mut self.ever_seen, voters);
        ids::insert_all(&mut self.ever_seen, learners);
        self.departed = ids::difference(&self.ever_seen, &members);
        self.members = members;
        self.removal_proposed = ids::difference(&self.removal_proposed, &self.departed);
        assert(self.ever_seen@ =~= before.ever_seen.union(self.members@));
        assert(self@ =~= before.with_membership(voters@, learners@));
        Some(registry)
    }

    /// `peer` is silent at `now`.
    fn is_silent(&self, peer: u64, now: u64) -> (r: bool)
        ensures
            r == self@.silent(peer, now),
    {
        if self.forced_unreachable.contains(&peer) {
            return true;
        }
        match self.last_heard.get(&peer) {
            Some(t) => now.saturating_sub(*t) >= self.liveness.timeout_nanos,
            None => true,
        }
    }

    /// Detect silent voters: which are suspected, and whose removal is to be proposed now because
    /// it is not in flight yet.
    pub fn detect_silent(&mut self, now: u64, is_leader: bool, voters: &Vec<u64>) -> (r: Vec<u64>)
        ensures
            final(self)@ == (DriverView {
                suspected: old(self)@.suspects(is_leader, voters@, now),
                ..old(self)@
            }),
            order::lists(
                r@,
                old(self)@.suspects(is_leader, voters@, now).difference(
                    old(self)@.removal_proposed,
                ),
                order::id_order(),
            ),
    {
        let ghost before = self@;
        let mut suspected: BTreeSet<u64> = BTreeSet::new();
        if self.liveness.enabled && is_leader {
            let watched = ids::sorted_ids(&self.watched);
            let ghost keep = |p: u64| voters@.contains(p) && before.silent(p, now);
            let mut i: usize = 0;
            assert(suspected@ =~= watched@.take(0).to_set().filter(keep));
            while i < watched.len()
                invariant
                    i <= watched@.len(),
                    self@ == before,
                    keep == (|p: u64| voters@.contains(p) && before.silent(p, now)),
                    suspected@ == watched@.take(i as int).to_set().filter(keep),
                decreases watched@.len() - i,
            {
                let peer: u64 = watched[i];
                if command::contains_id(voters, peer) && self.is_silent(peer, now) {
                    suspected.insert(peer);
                }
                proof {
                    order::lemma_push_to_set(watched@.take(i as int), peer);
                    assert(watched@.take(i as int).push(peer) =~= watched@.take(i + 1));
                    assert(suspected@ =~= watched@.take(i + 1).to_set().filter(keep));
                }
                i = i + 1;
            }
            proof {
                assert(watched@.take(watched@.len() as int) =~= watched@);
                assert(watched@.to_set() =~= before.watched);
            }
            assert(suspected@ =~= before.suspects(is_leader, voters@, now));
        } else {
            assert(suspected@ =~= before.suspects(is_leader, voters@, now));
        }
        let remove = ids::difference(&suspected, &self.removal_proposed);
        self.suspected = suspected;
        ids::sorted_ids(&remove)
    }

    /// The removal of `peer` was accepted by the core.
    pub fn removal_accepted(&mut self, peer: u64)
        ensures
            final(self)@ == old(self)@.removing(peer),
    {
        self.removal_proposed.insert(peer);
    }

    /// Whether the leader is to checkpoint now. The cadence restarts whether or not there is
    /// anything to checkpoint.
    pub fn checkpoint_due(&mut self, now: u64, is_leader: bool) -> (r: bool)
        ensures
            r == old(self)@.checkpoint_runs(is_leader, now),
            final(self)@ == (DriverView {
                last_checkpoint: if r {
                    now
                } else {
                    old(self)@.last_checkpoint
                },
                ..old(self)@
            }),
    {
        if is_leader && now.saturating_sub(self.last_checkpoint)
            >= runtime::COMMITTED_HW_CHECKPOINT_INTERVAL_NANOS {
            self.last_checkpoint = now;
            true
        } else {
            false
        }
    }

    /// The checkpoints to propose: one for each partition that this node leads and whose live
    /// committed high-watermark, as `committed_hw` reports it, would raise the recorded bar.
    pub fn plan_checkpoints<A: Fn(u64) -> u64>(
        &self,
        state: &MetadataStateMachine,
        committed_hw: A,
    ) -> (r: Vec<MetadataCommand>)
        requires
            forall|p: u64| call_requires(committed_hw, (p,)),
        ensures
            checkpoints_by(committed_hw, self@.node_id, state@, r@),
    {
        let placements = state.placements();
        let led = runtime::partitions_led_by(&placements, self.node_id);
        let ghost key_of = |e: (u64, Placement)| e.0;
        let ghost keys = led@.map_values(key_of);
        proof {
            order::lemma_id_order();
            order::lemma_listing_is_sorted(
                keys,
                runtime::led_by(state@.placements, self@.node_id),
                order::id_order(),
            );
        }
        let mut r: Vec<MetadataCommand> = Vec::new();
        let ghost mut hws: Seq<u64> = Seq::empty();
        let mut i: usize = 0;
        assert(views(r@) =~= checkpoints(keys.take(0), hws, state@.committed_hw));
        while i < led.len()
            invariant
                i <= led@.len(),
                forall|p: u64| call_requires(committed_hw, (p,)),
                key_of == (|e: (u64, Placement)| e.0),
                keys == led@.map_values(key_of),
                answered(committed_hw, keys.take(i as int), hws),
                views(r@) == checkpoints(keys.take(i as int), hws, state@.committed_hw),
            decreases led@.len() - i,
        {
            let partition: u64 = led[i].0;
            let hw: u64 = committed_hw(partition);
            let persisted: u64 = match state.committed_hw(partition) {
                Some(h) => h,
                None => 0,
            };
            let ghost before = r@;
            if hw > persisted {
                r.push(MetadataCommand::CheckpointCommittedHw { partition, offset: hw });
                assert(views(r@) =~= views(before).push(
                    CommandView::CheckpointCommittedHw { partition, offset: hw },
                ));
            }
            proof {
                let prior = hws;
                hws = prior.push(hw);
                let t = keys.take(i as int);
                let u = keys.take(i + 1);
                assert(u =~= t.push(partition));
                assert(u.drop_last() =~= t);
                assert(hws.drop_last() =~= prior);
                assert forall|k: int| 0 <= k < u.len() implies #[trigger] call_ensures(
                    committed_hw,
                    (u[k],),
                    hws[k],
                ) by {
                    if k < t.len() {
                        assert(call_ensures(committed_hw, (t[k],), prior[k]));
                    }
                }
            }
            i = i + 1;
        }
        proof {
            assert(keys.take(keys.len() as int) =~= keys);
        }
        r
    }

    /// Whether the node is to snapshot and compact its metadata log now: on its cadence, or once
    /// the retained log has grown to the threshold. Every node does, not only the leader.
    pub fn snapshot_due(&mut self, now: u64, retained_len: u64) -> (r: bool)
        ensures
            r == old(self)@.snapshot_runs(now, retained_len),
            final(self)@ == (DriverView {
                last_snapshot: if r {
                    now
                } else {
                    old(self)@.last_snapshot
                },
                ..old(self)@
            }),
    {
        if now.saturating_sub(self.last_snapshot) >= runtime::METADATA_SNAPSHOT_INTERVAL_NANOS
            || retained_len >= runtime::METADATA_SNAPSHOT_LOG_THRESHOLD {
            self.last_snapshot = now;
            true
        } else {
            false
        }
    }

    /// Forget the failovers that have landed: those whose placement no longer names a departed
    /// leader.
    pub fn settle_failovers(&mut self, placements: &BTreeMap<u64, Placement>)
        ensures
            final(self)@ == (DriverView {
                failover_proposed: old(self)@.live_failovers(
                    state_machine::placement_views(placements@),
                ),
                ..old(self)@
            }),
    {
        let ghost before = self@;
        let ghost pv = state_machine::placement_views(placements@);
        let ghost keep = |p: u64| pv.contains_key(p) && before.departed.contains(pv[p].leader);
        let proposed = ids::sorted_ids(&self.failover_proposed);
        let mut live: BTreeSet<u64> = BTreeSet::new();
        let mut i: usize = 0;
        assert(live@ =~= proposed@.take(0).to_set().filter(keep));
        while i < proposed.len()
            invariant
                i <= proposed@.len(),
                self@ == before,
                pv == state_machine::placement_views(placements@),
                keep == (|p: u64| pv.contains_key(p) && before.departed.contains(pv[p].leader)),
                live@ == proposed@.take(i as int).to_set().filter(keep),
            decreases proposed@.len() - i,
        {
            let p: u64 = proposed[i];
            match placements.get(&p) {
                Some(pl) => {
                    if self.departed.contains(&pl.leader) {
                        live.insert(p);
                    }
                },
                None => {},
            }
            proof {
                order::lemma_push_to_set(proposed@.take(i as int), p);
                assert(proposed@.take(i as int).push(p) =~= proposed@.take(i + 1));
                assert(live@ =~= proposed@.take(i + 1).to_set().filter(keep));
            }
            i = i + 1;
        }
        proof {
            assert(proposed@.take(proposed@.len() as int) =~= proposed@);
            assert(proposed@.to_set() =~= before.failover_proposed);
            assert(live@ =~= before.live_failovers(pv));
        }
        self.failover_proposed = live;
        assert(self@ =~= (DriverView { failover_proposed: live@, ..before }));
    }

    /// Decide the failover of every orphaned partition, in id order. A node that is not the
    /// leader decides nothing, and so does one with no data plane to report a frontier.
    pub fn plan_auto_failovers<A: Fn(u64) -> u64>(
        &self,
        is_leader: bool,
        state: &MetadataStateMachine,
        own_frontier: Option<A>,
    ) -> (r: Vec<(u64, FailoverDecision)>)
        requires
            own_frontier matches Some(ask) ==> forall|p: u64| call_requires(ask, (p,)),
        ensures
            !is_leader || own_frontier is None ==> r@.len() == 0,
            is_leader ==> (own_frontier matches Some(ask) ==> failovers_by(
                ask,
                self@.node_id,
                order::sorted(self@.orphans(state@.placements), order::id_order()),
                state@,
                r@,
            )),
    {
        let mut r: Vec<(u64, FailoverDecision)> = Vec::new();
        let ask = match own_frontier {
            Some(a) => a,
            None => {
                return r;
            },
        };
        if !is_leader {
            return r;
        }
        let ghost pv = state@.placements;
        let placements = state.placements();
        let entries = ids::sorted_entries(&placements);
        let ghost keys = ids::entry_keys(entries@);
        let ghost keep = |p: u64|
            self@.departed.contains(pv[p].leader) && !self@.failover_proposed.contains(p);
        let mut i: usize = 0;
        proof {
            reveal(Seq::filter);
            assert(keys.take(0).filter(keep) =~= Seq::empty());
        }
        while i < entries.len()
            invariant
                i <= entries@.len(),
                forall|p: u64| call_requires(ask, (p,)),
                pv == state@.placements,
                pv == state_machine::placement_views(placements@),
                keys == ids::entry_keys(entries@),
                keep == (|p: u64|
                    self@.departed.contains(pv[p].leader) && !self@.failover_proposed.contains(
                        p,
                    )),
                forall|j: int|
                    0 <= j < entries@.len() ==> placements@.contains_key(entries@[j].0) && *(
                    #[trigger] entries@[j]).1 == placements@[entries@[j].0],
                r@.len() == keys.take(i as int).filter(keep).len(),
                forall|j: int|
                    0 <= j < r@.len() ==> (#[trigger] r@[j]).0 == keys.take(i as int).filter(
                        keep,
                    )[j] && decided_by(ask, self@.node_id, r@[j].0, state@, r@[j].1@),
            decreases entries@.len() - i,
        {
            let partition: u64 = entries[i].0;
            let placement: &Placement = entries[i].1;
            assert(placements@.contains_key(entries@[i as int].0));
            assert(pv[partition] == placement@);
            proof {
                order::lemma_filter_push(keys.take(i as int), partition, keep);
                assert(keys.take(i as int).push(partition) =~= keys.take(i + 1));
            }
            if self.departed.contains(&placement.leader) && !self.failover_proposed.contains(
                &partition,
            ) {
                let bar = state.committed_hw(partition);
                let frontier: u64 = match bar {
                    Some(_) => ask(partition),
                    None => 0,
                };
                let d = decide_failover(self.node_id, partition, placement, bar, frontier);
                proof {
                    assert(bar == entry(state@.committed_hw, partition));
                    assert(decided_by(ask, self@.node_id, partition, state@, d@));
                }
                r.push((partition, d));
            }
            i = i + 1;
        }
        proof {
            order::lemma_id_order();
            assert(keys.take(keys.len() as int) =~= keys);
            assert(pv.dom() =~= placements@.dom());
            order::lemma_filter_listing(keys, pv.dom(), order::id_order(), keep);
            order::lemma_listing_is_sorted(
                keys.filter(keep),
                self@.orphans(pv),
                order::id_order(),
            );
        }
        r
    }

    /// The failover of `partition` was accepted by the core.
    pub fn failover_accepted(&mut self, partition: u64)
        ensures
            final(self)@ == old(self)@.failing_over(partition),
    {
        self.failover_proposed.insert(partition);
    }

    /// The committed learners, in id order.
    pub fn learners(&self) -> (r: Vec<u64>)
        ensures
            order::lists(r@, self@.learners, order::id_order()),
    {
        ids::sorted_ids(&self.learners)
    }

    /// The learners to promote now: on its cadence the leader promotes each one that has caught
    /// up, as `catchup` reports, and whose promotion is not in flight yet.
    pub fn plan_promotions<A: Fn(u64) -> Option<LearnerCatchup>>(
        &mut self,
        now: u64,
        is_leader: bool,
        committed_index: u64,
        catchup: A,
    ) -> (r: Vec<u64>)
        requires
            forall|l: u64| call_requires(catchup, (l,)),
        ensures
            final(self)@ == (DriverView {
                last_promotion_eval: if old(self)@.promotion_runs(is_leader, now) {
                    now
                } else {
                    old(self)@.last_promotion_eval
                },
                ..old(self)@
            }),
            !old(self)@.promotion_runs(is_leader, now) ==> r@.len() == 0,
            old(self)@.promotion_runs(is_leader, now) ==> promotions_by(
                catchup,
                old(self)@.learners.difference(old(self)@.promotion_proposed),
                committed_index,
                r@,
            ),
    {
        let ghost before = self@;
        let mut r: Vec<u64> = Vec::new();
        if !is_leader || self.learners.is_empty() || now.saturating_sub(self.last_promotion_eval)
            < runtime::LEARNER_PROMOTION_INTERVAL_NANOS {
            return r;
        }
        let open = ids::difference(&self.learners, &self.promotion_proposed);
        let candidates = ids::sorted_ids(&open);
        let mut i: usize = 0;
        while i < candidates.len()
            invariant
                i <= candidates@.len(),
                self@ == before,
                forall|l: u64| call_requires(catchup, (l,)),
                order::lists(
                    candidates@,
                    before.learners.difference(before.promotion_proposed),
                    order::id_order(),
                ),
                order::increasing(r@, order::id_order()),
                forall|l: u64| #[trigger]
                    r@.contains(l) ==> candidates@.take(i as int).contains(l) && evidence_says(
                        catchup,
                        committed_index,
                        l,
                        true,
                    ),
                forall|l: u64| #[trigger]
                    candidates@.take(i as int).contains(l) && !r@.contains(l) ==> evidence_says(
                        catchup,
                        committed_index,
                        l,
                        false,
                    ),
            decreases candidates@.len() - i,
        {
            let learner: u64 = candidates[i];
            let evidence = catchup(learner);
            let ghost seen = evidence;
            let ghost prior = r@;
            let promote = may_promote(committed_index, evidence);
            if promote {
                r.push(learner);
            }
            proof {
                let t = candidates@.take(i as int);
                let u = candidates@.take(i + 1);
                assert(t.push(learner) =~= u);
                order::lemma_push_to_set(t, learner);
                order::lemma_push_to_set(prior, learner);
                assert(call_ensures(catchup, (learner,), seen));
                assert(evidence_says(catchup, committed_index, learner, promote));
                assert forall|l: u64| u.contains(l) == (t.contains(l) || l == learner) by {
                    assert(u.to_set().contains(l) == (t.to_set().contains(l) || l == learner));
                }
                assert forall|l: u64|
                    r@.contains(l) == (prior.contains(l) || (promote && l == learner)) by {
                    assert(prior.push(learner).to_set().contains(l) == (prior.to_set().contains(l)
                        || l == learner));
                }
                assert(!t.contains(learner)) by {
                    if t.contains(learner) {
                        let k = choose|k: int| 0 <= k < t.len() && t[k] == learner;
                        assert((order::id_order())(candidates@[k], candidates@[i as int]));
                    }
                }
                assert forall|l: u64| #[trigger] r@.contains(l) implies u.contains(l)
                    && evidence_says(catchup, committed_index, l, true) by {
                    if !(promote && l == learner) {
                        assert(prior.contains(l));
                        assert(t.contains(l));
                    }
                }
                assert forall|l: u64| #[trigger] u.contains(l) && !r@.contains(l) implies
                    evidence_says(catchup, committed_index, l, false) by {
                    if l != learner {
                        assert(t.contains(l) && !prior.contains(l));
                    }
                }
                if promote {
                    assert forall|a: int, b: int| 0 <= a < b < r@.len() implies (
                    order::id_order())(#[trigger] r@[a], #[trigger] r@[b]) by {
                        if b == r@.len() - 1 {
                            assert(prior.contains(r@[a])) by {
                                assert(prior[a] == r@[a]);
                            }
                            let k = choose|k: int| 0 <= k < t.len() && t[k] == r@[a];
                            assert((order::id_order())(candidates@[k], candidates@[i as int]));
                        } else {
                            assert((order::id_order())(prior[a], prior[b]));
                        }
                    }
                }
            }
            i = i + 1;
        }
        self.last_promotion_eval = now;
        proof {
            assert(candidates@.take(candidates@.len() as int) =~= candidates@);
            assert forall|l: u64| #[trigger] r@.contains(l) implies open@.contains(l) by {
                assert(candidates@.contains(l));
            }
            assert forall|l: u64| #[trigger]
                open@.contains(l) && !r@.contains(l) implies evidence_says(
                catchup,
                committed_index,
                l,
                false,
            ) by {
                assert(candidates@.contains(l));
            }
        }
        r
    }

    /// Decide one cycle from a reading of the core: which silent voters to remove, what to
    /// checkpoint, whether to snapshot, which partitions to fail over, and whom to promote.
    /// `committed_hw` and `own_frontier` are the data plane's, and absent while there is none.
    pub fn decide_cycle<
        H: Fn(u64) -> u64,
        O: Fn(u64) -> u64,
        C: Fn(u64) -> Option<LearnerCatchup>,
    >(
        &mut self,
        reading: &CycleReading,
        state: &MetadataStateMachine,
        committed_hw: Option<H>,
        own_frontier: Option<O>,
        catchup: C,
    ) -> (plan: CyclePlan)
        requires
            committed_hw matches Some(ask) ==> forall|p: u64| call_requires(ask, (p,)),
            own_frontier matches Some(ask) ==> forall|p: u64| call_requires(ask, (p,)),
            forall|l: u64| call_requires(catchup, (l,)),
        ensures
            final(self)@ == old(self)@.after_cycle(reading@, state@),
            old(self)@.consistent() ==> final(self)@.consistent(),
            order::lists(
                plan.removals@,
                final(self)@.suspected.difference(old(self)@.removal_proposed),
                order::id_order(),
            ),
            match committed_hw {
                Some(ask) if old(self)@.checkpoint_runs(reading.is_leader, reading.now) => {
                    checkpoints_by(ask, old(self)@.node_id, state@, plan.checkpoints@)
                },
                _ => plan.checkpoints@.len() == 0,
            },
            plan.snapshot == old(self)@.snapshot_runs(reading.now, reading.retained_len),
            match own_frontier {
                Some(ask) if reading.is_leader => failovers_by(
                    ask,
                    old(self)@.node_id,
                    order::sorted(
                        final(self)@.orphans(state@.placements),
                        order::id_order(),
                    ),
                    state@,
                    plan.failovers@,
                ),
                _ => plan.failovers@.len() == 0,
            },
            if old(self)@.promotion_runs(reading.is_leader, reading.now) {
                promotions_by(
                    catchup,
                    old(self)@.learners.difference(old(self)@.promotion_proposed),
                    reading.committed_index,
                    plan.promotions@,
                )
            } else {
                plan.promotions@.len() == 0
            },
            // Only the leader proposes anything.
            !reading.is_leader ==> plan.removals@.len() == 0 && plan.checkpoints@.len() == 0
                && plan.failovers@.len() == 0 && plan.promotions@.len() == 0,
            // Nobody is promoted but this node, to a valid placement under a higher epoch.
            forall|i: int|
                0 <= i < plan.failovers@.len() ==> safe_promotion(
                    old(self)@.node_id,
                    (#[trigger] plan.failovers@[i]).0,
                    state@,
                    plan.failovers@[i].1@,
                ),
    {
        let removals = self.detect_silent(reading.now, reading.is_leader, &reading.voters);
        let due = self.checkpoint_due(reading.now, reading.is_leader);
        let checkpoints = match committed_hw {
            Some(ask) => if due {
                self.plan_checkpoints(state, ask)
            } else {
                Vec::new()
            },
            None => Vec::new(),
        };
        let snapshot = self.snapshot_due(reading.now, reading.retained_len);
        let placements = state.placements();
        self.settle_failovers(&placements);
        let ghost settled = self@;
        let failovers = self.plan_auto_failovers(reading.is_leader, state, own_frontier);
        let promotions = self.plan_promotions(
            reading.now,
            reading.is_leader,
            reading.committed_index,
            catchup,
        );
        proof {
            assert(self@ =~= old(self)@.after_cycle(reading@, state@));
            assert(self@.orphans(state@.placements) =~= settled.orphans(state@.placements));
            if !reading.is_leader {
                if removals@.len() > 0 {
                    assert(removals@.contains(removals@[0]));
                }
            }
            assert forall|i: int| 0 <= i < failovers@.len() implies safe_promotion(
                old(self)@.node_id,
                (#[trigger] failovers@[i]).0,
                state@,
                failovers@[i].1@,
            ) by {
                lemma_decided_is_safe(
                    own_frontier->0,
                    settled.node_id,
                    failovers@[i].0,
                    state@,
                    failovers@[i].1@,
                );
            }
        }
        CyclePlan { removals, checkpoints, snapshot, failovers, promotions }
    }

    /// The promotion of `learner` was accepted by the core.
    pub fn promotion_accepted(&mut self, learner: u64)
        ensures
            final(self)@ == old(self)@.promoting(learner),
            old(self)@.consistent() && old(self)@.learners.contains(learner)
                ==> final(self)@.consistent(),
    {
        self.promotion_proposed.insert(learner);
    }

    /// Publish the latest status. The placements and the checkpointed bars are copied only when
    /// the applied index has moved.
    pub fn publish(
        &self,
        status: &mut ClusterStatus,
        is_leader: bool,
        leader_epoch: u64,
        snapshot_index: u64,
        state: &MetadataStateMachine,
    )
        ensures
            final(status)@ == self@.published(
                old(status)@,
                is_leader,
                leader_epoch,
                snapshot_index,
                state@,
            ),
    {
        status.node_id = self.node_id;
        status.is_leader = is_leader;
        status.leader_epoch = leader_epoch;
        status.voter_count = self.voter_count;
        let applied: u64 = state.applied_index();
        if applied != status.applied_index {
            status.placements = state.placements();
            status.last_committed_hw = state.committed_hws();
        }
        status.applied_index = applied;
        status.snapshot_index = snapshot_index;
        status.departed_members = self.departed.clone();
        status.suspected_dead = self.suspected.clone();
        status.failover_proposed = self.failover_proposed.clone();
        status.learners = self.learners.clone();
        status.learners_promoted = self.promotion_proposed.clone();
    }
}

// ---- laws of the cycle ----

/// The logical clock is paced: at most the cap of ticks fires in one cycle, the baseline neither
/// passes `now` nor falls back, and no part of an interval is lost.
pub proof fn law_ticks_are_paced(last_tick: u64, now: u64)
    requires
        last_tick <= now,
    ensures
        ticks_due(last_tick, now) <= runtime::MAX_TICK_CATCH_UP,
        last_tick <= tick_baseline(last_tick, now) <= now,
        ticks_due(last_tick, now) < runtime::MAX_TICK_CATCH_UP ==> now - tick_baseline(
            last_tick,
            now,
        ) < runtime::TICK_INTERVAL_NANOS,
{
    assert((now - last_tick) / 100_000_000 * 100_000_000 <= now - last_tick < ((now - last_tick)
        / 100_000_000 + 1) * 100_000_000) by (nonlinear_arith);
    assert(ticks_due(last_tick, now) * 100_000_000 <= (now - last_tick) / 100_000_000
        * 100_000_000) by (nonlinear_arith)
        requires
            ticks_due(last_tick, now) <= (now - last_tick) / 100_000_000,
    ;
}

/// No false failover: a watched peer that was heard from within the deadline, and is not forced
/// unreachable, is never suspected. A node that is not the leader suspects nobody.
pub proof fn law_heard_peers_are_never_suspected(
    d: DriverView,
    is_leader: bool,
    voters: Seq<u64>,
    now: u64,
    peer: u64,
)
    ensures
        d.last_heard.contains_key(peer) && since(now, d.last_heard[peer])
            < d.liveness.timeout_nanos && !d.forced_unreachable.contains(peer) ==> !d.suspects(
            is_leader,
            voters,
            now,
        ).contains(peer),
        !is_leader ==> d.suspects(is_leader, voters, now) =~= Set::<u64>::empty(),
{
}

/// A crash is detected: a watched voter that has been silent for a deadline is suspected by the
/// leader.
pub proof fn law_silent_voters_are_suspected(
    d: DriverView,
    voters: Seq<u64>,
    now: u64,
    peer: u64,
)
    requires
        d.liveness.enabled,
        d.watched.contains(peer),
        voters.contains(peer),
        d.last_heard.contains_key(peer),
        since(now, d.last_heard[peer]) >= d.liveness.timeout_nanos,
    ensures
        d.suspects(true, voters, now).contains(peer),
{
}

/// A fresh driver grants every watched voter a full deadline before it suspects anybody.
pub proof fn law_start_grants_a_full_deadline(
    node_id: u64,
    watched: Seq<u64>,
    liveness: LivenessConfig,
    start: u64,
    now: u64,
    voters: Seq<u64>,
)
    requires
        since(now, start) < liveness.timeout_nanos,
    ensures
        started(node_id, watched, liveness, start).suspects(true, voters, now) =~= Set::<
            u64,
        >::empty(),
{
    let d = started(node_id, watched, liveness, start);
    assert forall|p: u64| !d.suspects(true, voters, now).contains(p) by {
        if d.watched.contains(p) {
            assert(d.last_heard.contains_key(p));
        }
    }
}

/// A promotion is no departure: a member that stays a member, in whatever role, is not departed;
/// and a node that has departed was a member once.
pub proof fn law_departed_are_former_members(
    d: DriverView,
    voters: Seq<u64>,
    learners: Seq<u64>,
    node: u64,
)
    requires
        d.consistent(),
    ensures
        ({
            let e = d.with_membership(voters, learners);
            &&& e.consistent()
            &&& voters.contains(node) || learners.contains(node) ==> !e.departed.contains(node)
            &&& d.members.contains(node) && !voters.contains(node) && !learners.contains(node)
                ==> e.departed.contains(node)
            &&& e.departed.contains(node) ==> d.ever_seen.contains(node)
        }),
{
}

/// A learner does not count toward the quorum while it catches up: the voter count is that of the
/// committed voters, whoever the learners are.
pub proof fn law_learners_leave_the_quorum_alone(
    d: DriverView,
    voters: Seq<u64>,
    learners: Seq<u64>,
    more: Seq<u64>,
)
    ensures
        d.with_membership(voters, learners).voter_count == voters.len(),
        d.with_membership(voters, learners).voter_count == d.with_membership(
            voters,
            more,
        ).voter_count,
{
}

/// Every orphan is led by a departed node, so a cluster that nobody has left decides no failover.
pub proof fn law_no_departure_no_orphans(d: DriverView, placements: Map<u64, PlacementView>)
    ensures
        d.departed =~= Set::<u64>::empty() ==> d.orphans(placements) =~= Set::<u64>::empty(),
        forall|p: u64| #[trigger]
            d.orphans(placements).contains(p) ==> d.departed.contains(placements[p].leader),
{
}

/// A failover that has landed can fire again for a later departure: once a surviving node leads
/// the partition its mark is dropped, and a mark whose leader is still departed is kept.
pub proof fn law_failover_marks_settle(
    d: DriverView,
    placements: Map<u64, PlacementView>,
    partition: u64,
)
    ensures
        d.live_failovers(placements).contains(partition) <==> d.failover_proposed.contains(
            partition,
        ) && placements.contains_key(partition) && d.departed.contains(
            placements[partition].leader,
        ),
{
}

/// A promotion that lands ends the orphanage: applied to the metadata, it makes this node the
/// leader under a strictly higher epoch and leaves every checkpointed bar and every other placement
/// as it was; and as long as this node is a member, the partition is no orphan any more and its
/// mark is dropped.
pub proof fn law_landed_promotion_settles(
    d: DriverView,
    state: StateView,
    index: u64,
    partition: u64,
    own_frontier: u64,
    other: u64,
)
    requires
        state.placements.contains_key(partition),
        !d.departed.contains(d.node_id),
    ensures
        decision(
            d.node_id,
            partition,
            state.placements[partition],
            entry(state.committed_hw, partition),
            own_frontier,
        ) matches DecisionView::Promote(c) ==> {
            let after = state.apply(index, c);
            &&& after.placements.contains_key(partition)
            &&& after.placements[partition].leader == d.node_id
            &&& after.placements[partition].epoch > state.placements[partition].epoch
            &&& after.committed_hw == state.committed_hw
            &&& other != partition ==> entry(after.placements, other) == entry(
                state.placements,
                other,
            )
            &&& !d.orphans(after.placements).contains(partition)
            &&& !d.live_failovers(after.placements).contains(partition)
        },
{
    law_promotion_is_safe(
        d.node_id,
        partition,
        state.placements[partition],
        entry(state.committed_hw, partition),
        own_frontier,
    );
}


// ---- laws of failing over ----

/// A complete node takes over: where its frontier has reached the checkpointed bar, and a higher
/// epoch exists, it proposes to lead the partition itself, under the next epoch, with exactly the
/// old replicas other than the departed leader, in their order, and itself at the end if it was
/// not among them.
pub proof fn law_complete_node_takes_over(
    node: u64,
    partition: u64,
    placement: PlacementView,
    bar: u64,
    own_frontier: u64,
)
    requires
        own_frontier >= bar,
        placement.epoch < u64::MAX,
    ensures
        decision(node, partition, placement, Some(bar), own_frontier) matches DecisionView::Promote(
            c,
        ) && c matches CommandView::PlacePartition { partition: q, placement: p } && {
            let rest = placement.replicas.filter(|n: u64| n != placement.leader);
            &&& q == partition
            &&& p.leader == node
            &&& p.epoch == placement.epoch + 1
            &&& p.replicas == if rest.contains(node) {
                rest
            } else {
                rest.push(node)
            }
        },
{
    let leader = placement.leader;
    assert(runtime::other_than(leader) =~= |n: u64| n != leader);
}

/// A withheld failover says why: there is no checkpoint if and only if none was recorded; the node
/// is behind if and only if its frontier is below the bar, and both are reported; and a
/// promotion is unsafe if and only if the node is complete and the epochs are used up.
pub proof fn law_withheld_failover_says_why(
    node: u64,
    partition: u64,
    placement: PlacementView,
    safe_bar: Option<u64>,
    own_frontier: u64,
    reported_frontier: u64,
    reported_bar: u64,
)
    ensures
        ({
            let d = decision(node, partition, placement, safe_bar, own_frontier);
            &&& d == DecisionView::Withhold(Withheld::NoCheckpoint) <==> safe_bar is None
            &&& d == DecisionView::Withhold(
                Withheld::Behind { own_frontier: reported_frontier, safe_bar: reported_bar },
            ) <==> safe_bar == Some(reported_bar) && reported_frontier == own_frontier
                && own_frontier < reported_bar
            &&& d == DecisionView::Withhold(Withheld::Unsafe) <==> (safe_bar matches Some(bar)
                && own_frontier >= bar && placement.epoch == u64::MAX)
        }),
{
}

/// A failover keeps what is committed if and only if the successor is in sync, holds everything
/// below the committed bar, and leads under a strictly higher epoch.
pub proof fn law_safe_failover_keeps_what_is_committed(f: Failover)
    ensures
        preserves_committed(f) <==> f.successor_in_isr && f.committed_hw
            <= f.successor_durable_prefix && f.dead_leader_epoch < f.successor_epoch,
{
}

/// A partition is orphaned if and only if it is placed, its leader has departed, and no failover of
/// it is in flight.
pub proof fn law_orphans_are_led_by_the_departed(
    d: DriverView,
    placements: Map<u64, PlacementView>,
    partition: u64,
)
    ensures
        d.orphans(placements).contains(partition) <==> placements.contains_key(partition)
            && d.departed.contains(placements[partition].leader) && !d.failover_proposed.contains(
            partition,
        ),
{
}

/// The failovers that are planned for the orphans: every orphan has one decision, in increasing
/// order of the partitions, and nothing else is decided. Without a recorded bar nothing is asked
/// and nothing is promoted; with one, an answer of the data plane at or above it promotes this node
/// (unless the epochs are used up), and one below it is reported as behind.
pub proof fn law_every_orphan_is_decided<A: Fn(u64) -> u64>(
    d: DriverView,
    own_frontier: A,
    state: StateView,
    plan: Seq<(u64, FailoverDecision)>,
)
    requires
        state.placements.dom().finite(),
        failovers_by(
            own_frontier,
            d.node_id,
            order::sorted(d.orphans(state.placements), order::id_order()),
            state,
            plan,
        ),
    ensures
        forall|i: int, j: int| 0 <= i < j < plan.len() ==> (#[trigger] plan[i]).0 < (
        #[trigger] plan[j]).0,
        forall|i: int|
            0 <= i < plan.len() ==> {
                let p = (#[trigger] plan[i]).0;
                &&& state.placements.contains_key(p)
                &&& d.departed.contains(state.placements[p].leader)
                &&& !d.failover_proposed.contains(p)
                &&& !state.committed_hw.contains_key(p) ==> plan[i].1@ == DecisionView::Withhold(
                    Withheld::NoCheckpoint,
                )
                &&& state.committed_hw.contains_key(p) ==> exists|f: u64| #[trigger]
                    call_ensures(own_frontier, (p,), f) && if f < state.committed_hw[p] {
                        plan[i].1@ == DecisionView::Withhold(
                            Withheld::Behind { own_frontier: f, safe_bar: state.committed_hw[p] },
                        )
                    } else if state.placements[p].epoch == u64::MAX {
                        plan[i].1@ == DecisionView::Withhold(Withheld::Unsafe)
                    } else {
                        plan[i].1@ matches DecisionView::Promote(c)
                            && c matches CommandView::PlacePartition { partition, placement }
                            && partition == p && placement.leader == d.node_id && placement.epoch
                            == state.placements[p].epoch + 1
                    }
            },
        forall|p: u64| #[trigger]
            state.placements.contains_key(p) && d.departed.contains(state.placements[p].leader)
                && !d.failover_proposed.contains(p) ==> exists|i: int|
                0 <= i < plan.len() && (#[trigger] plan[i]).0 == p,
{
    let set = d.orphans(state.placements);
    let ps = order::sorted(set, order::id_order());
    order::lemma_id_order();
    order::lemma_sorted(set, order::id_order());
    assert forall|i: int, j: int| 0 <= i < j < plan.len() implies (#[trigger] plan[i]).0 < (
    #[trigger] plan[j]).0 by {
        assert((order::id_order())(ps[i], ps[j]));
    }
    assert forall|i: int| 0 <= i < plan.len() implies {
        let p = (#[trigger] plan[i]).0;
        &&& state.placements.contains_key(p)
        &&& d.departed.contains(state.placements[p].leader)
        &&& !d.failover_proposed.contains(p)
        &&& !state.committed_hw.contains_key(p) ==> plan[i].1@ == DecisionView::Withhold(
            Withheld::NoCheckpoint,
        )
        &&& state.committed_hw.contains_key(p) ==> exists|f: u64| #[trigger]
            call_ensures(own_frontier, (p,), f) && if f < state.committed_hw[p] {
                plan[i].1@ == DecisionView::Withhold(
                    Withheld::Behind { own_frontier: f, safe_bar: state.committed_hw[p] },
                )
            } else if state.placements[p].epoch == u64::MAX {
                plan[i].1@ == DecisionView::Withhold(Withheld::Unsafe)
            } else {
                plan[i].1@ matches DecisionView::Promote(c)
                    && c matches CommandView::PlacePartition { partition, placement } && partition
                    == p && placement.leader == d.node_id && placement.epoch
                    == state.placements[p].epoch + 1
            }
    } by {
        let p = plan[i].0;
        assert(ps.contains(p)) by {
            assert(ps[i] == p);
        }
        assert(set.contains(p));
        let decided = plan[i].1@;
        assert(decided_by(own_frontier, d.node_id, p, state, decided));
        if state.committed_hw.contains_key(p) {
            let bar = state.committed_hw[p];
            let f = choose|f: u64| #[trigger]
                call_ensures(own_frontier, (p,), f) && decided == decision(
                    d.node_id,
                    p,
                    state.placements[p],
                    Some(bar),
                    f,
                );
            assert(call_ensures(own_frontier, (p,), f));
        }
    }
    assert forall|p: u64| #[trigger]
        state.placements.contains_key(p) && d.departed.contains(state.placements[p].leader)
            && !d.failover_proposed.contains(p) implies exists|i: int|
        0 <= i < plan.len() && (#[trigger] plan[i]).0 == p by {
        assert(set.contains(p));
        assert(ps.contains(p));
        let k = choose|k: int| 0 <= k < ps.len() && ps[k] == p;
        assert(plan[k].0 == p);
    }
}

// ---- laws of checkpointing ----

/// Checkpointing makes progress: a led partition whose live high-watermark is above what is
/// recorded, or above zero where nothing is recorded, is checkpointed at that high-watermark, and
/// once that is applied the recorded bar is exactly it. No other partition is checkpointed, and
/// nothing but what is live.
pub proof fn law_checkpointing_makes_progress(
    led: Seq<u64>,
    hws: Seq<u64>,
    state: StateView,
    index: u64,
)
    requires
        led.len() == hws.len(),
    ensures
        forall|i: int|
            #![trigger led[i]]
            #![trigger hws[i]]
            0 <= i < led.len() && hws[i] > 0 && (state.committed_hw.contains_key(led[i]) ==> hws[i]
                > state.committed_hw[led[i]]) ==> {
                let c = CommandView::CheckpointCommittedHw { partition: led[i], offset: hws[i] };
                &&& checkpoints(led, hws, state.committed_hw).contains(c)
                &&& state.apply(index, c).committed_hw.contains_key(led[i])
                &&& state.apply(index, c).committed_hw[led[i]] == hws[i]
            },
        forall|c: CommandView| #[trigger]
            checkpoints(led, hws, state.committed_hw).contains(c) ==> exists|i: int|
                0 <= i < led.len() && c == (CommandView::CheckpointCommittedHw {
                    partition: #[trigger] led[i],
                    offset: hws[i],
                }) && hws[i] > 0 && (state.committed_hw.contains_key(led[i]) ==> hws[i]
                    > state.committed_hw[led[i]]),
    decreases led.len(),
{
    let persisted = state.committed_hw;
    let all = checkpoints(led, hws, persisted);
    if led.len() > 0 {
        let n = led.len() - 1;
        let l = led.drop_last();
        let h = hws.drop_last();
        let rest = checkpoints(l, h, persisted);
        let last = CommandView::CheckpointCommittedHw { partition: led[n], offset: hws[n] };
        law_checkpointing_makes_progress(l, h, state, index);
        order::lemma_push_to_set(rest, last);
        assert forall|c: CommandView| rest.push(last).contains(c) == (rest.contains(c) || c
            == last) by {
            assert(rest.push(last).to_set().contains(c) == (rest.to_set().contains(c) || c
                == last));
        }
        assert forall|i: int|
            #![trigger led[i]]
            #![trigger hws[i]]
            0 <= i < led.len() && hws[i] > 0 && (persisted.contains_key(led[i]) ==> hws[i]
                > persisted[led[i]]) implies {
            let c = CommandView::CheckpointCommittedHw { partition: led[i], offset: hws[i] };
            &&& all.contains(c)
            &&& state.apply(index, c).committed_hw.contains_key(led[i])
            &&& state.apply(index, c).committed_hw[led[i]] == hws[i]
        } by {
            if i < n {
                assert(l[i] == led[i] && h[i] == hws[i]);
                assert(rest.contains(
                    CommandView::CheckpointCommittedHw { partition: led[i], offset: hws[i] },
                ));
            } else {
                assert(checkpoint(led.last(), hws.last(), persisted) == Some(last));
                assert(all[rest.len() as int] == last);
            }
        }
        assert forall|c: CommandView| #[trigger] all.contains(c) implies exists|i: int|
            0 <= i < led.len() && c == (CommandView::CheckpointCommittedHw {
                partition: #[trigger] led[i],
                offset: hws[i],
            }) && hws[i] > 0 && (persisted.contains_key(led[i]) ==> hws[i] > persisted[led[i]]) by {
            if rest.contains(c) {
                let i = choose|i: int|
                    0 <= i < l.len() && c == (CommandView::CheckpointCommittedHw {
                        partition: #[trigger] l[i],
                        offset: h[i],
                    }) && h[i] > 0 && (persisted.contains_key(l[i]) ==> h[i] > persisted[l[i]]);
                assert(led[i] == l[i] && hws[i] == h[i]);
            } else {
                assert(c == last);
                assert(led[n] == led.last());
            }
        }
    }
}

/// The checkpoints keep the order of the partitions, one at most for each: those of a run of
/// partitions followed by another are those of the first followed by those of the second.
pub proof fn law_checkpoints_keep_the_order(
    first: Seq<u64>,
    first_hws: Seq<u64>,
    then_led: Seq<u64>,
    then_hws: Seq<u64>,
    persisted: Map<u64, u64>,
)
    requires
        first.len() == first_hws.len(),
        then_led.len() == then_hws.len(),
    ensures
        checkpoints(first + then_led, first_hws + then_hws, persisted) == checkpoints(
            first,
            first_hws,
            persisted,
        ) + checkpoints(then_led, then_hws, persisted),
        then_led.len() == 1 ==> checkpoints(then_led, then_hws, persisted).len() <= 1,
    decreases then_led.len(),
{
    if then_led.len() == 0 {
        assert(first + then_led =~= first);
        assert(first_hws + then_hws =~= first_hws);
    } else {
        let l = then_led.drop_last();
        let h = then_hws.drop_last();
        law_checkpoints_keep_the_order(first, first_hws, l, h, persisted);
        assert((first + then_led).drop_last() =~= first + l);
        assert((first_hws + then_hws).drop_last() =~= first_hws + h);
        assert(then_led.len() == 1 ==> checkpoints(l, h, persisted).len() == 0);
    }
}

/// What is planned covers what is led: of every partition that the node leads the data plane is
/// asked, and an answer that would raise the recorded bar is checkpointed; and every planned
/// command checkpoints a partition that the node leads at an answer that raises its bar.
pub proof fn law_planned_checkpoints_cover_what_is_led<A: Fn(u64) -> u64>(
    committed_hw: A,
    node: u64,
    state: StateView,
    cmds: Seq<MetadataCommand>,
)
    requires
        state.placements.dom().finite(),
        checkpoints_by(committed_hw, node, state, cmds),
    ensures
        forall|p: u64| #[trigger]
            state.placements.contains_key(p) && state.placements[p].leader == node
                ==> exists|h: u64| #[trigger]
                call_ensures(committed_hw, (p,), h) && (h > 0 && (state.committed_hw.contains_key(
                    p,
                ) ==> h > state.committed_hw[p]) ==> exists|i: int|
                    0 <= i < cmds.len() && (#[trigger] cmds[i])@
                        == (CommandView::CheckpointCommittedHw { partition: p, offset: h })),
        forall|i: int|
            0 <= i < cmds.len() ==> ((#[trigger] cmds[i])@ matches
                CommandView::CheckpointCommittedHw { partition: p, offset: h }
                && state.placements.contains_key(p) && state.placements[p].leader == node
                && call_ensures(committed_hw, (p,), h) && h > 0 && (state.committed_hw.contains_key(
                p,
            ) ==> h > state.committed_hw[p])),
{
    let set = runtime::led_by(state.placements, node);
    let led = order::sorted(set, order::id_order());
    order::lemma_id_order();
    order::lemma_sorted(set, order::id_order());
    let hws = choose|hws: Seq<u64>| #[trigger]
        answered(committed_hw, led, hws) && views(cmds) == checkpoints(
            led,
            hws,
            state.committed_hw,
        );
    let plan = views(cmds);
    law_checkpointing_makes_progress(led, hws, state, 0);
    assert forall|p: u64| #[trigger]
        state.placements.contains_key(p) && state.placements[p].leader == node implies exists|
        h: u64,
    | #[trigger]
        call_ensures(committed_hw, (p,), h) && (h > 0 && (state.committed_hw.contains_key(p) ==> h
            > state.committed_hw[p]) ==> exists|i: int|
            0 <= i < cmds.len() && (#[trigger] cmds[i])@ == (CommandView::CheckpointCommittedHw {
                partition: p,
                offset: h,
            })) by {
        assert(set.contains(p));
        assert(led.contains(p));
        let k = choose|k: int| 0 <= k < led.len() && led[k] == p;
        let h = hws[k];
        assert(call_ensures(committed_hw, (led[k],), hws[k]));
        if h > 0 && (state.committed_hw.contains_key(p) ==> h > state.committed_hw[p]) {
            let c = CommandView::CheckpointCommittedHw { partition: p, offset: h };
            assert(plan.contains(c));
            let i = choose|i: int| 0 <= i < plan.len() && plan[i] == c;
            assert(cmds[i]@ == c);
        }
    }
    assert forall|i: int| 0 <= i < cmds.len() implies ((#[trigger] cmds[i])@ matches
        CommandView::CheckpointCommittedHw { partition: p, offset: h }
        && state.placements.contains_key(p) && state.placements[p].leader == node && call_ensures(
        committed_hw,
        (p,),
        h,
    ) && h > 0 && (state.committed_hw.contains_key(p) ==> h > state.committed_hw[p])) by {
        let c = cmds[i]@;
        assert(plan[i] == c);
        assert(plan.contains(c));
        let k = choose|k: int|
            0 <= k < led.len() && c == (CommandView::CheckpointCommittedHw {
                partition: #[trigger] led[k],
                offset: hws[k],
            }) && hws[k] > 0 && (state.committed_hw.contains_key(led[k]) ==> hws[k]
                > state.committed_hw[led[k]]);
        assert(call_ensures(committed_hw, (led[k],), hws[k]));
        assert(led.contains(led[k]));
        assert(set.contains(led[k]));
    }
}

// ---- laws of the membership ----

/// A departure is remembered: whoever was ever seen stays so, whatever the membership becomes; so a
/// departed node that is in neither list is still departed, and only coming back ends a departure.
pub proof fn law_departures_are_remembered(
    d: DriverView,
    voters: Seq<u64>,
    learners: Seq<u64>,
    node: u64,
)
    requires
        d.consistent(),
    ensures
        ({
            let e = d.with_membership(voters, learners);
            &&& e.ever_seen.contains(node) <==> d.ever_seen.contains(node) || voters.contains(node)
                || learners.contains(node)
            &&& e.departed.contains(node) <==> d.ever_seen.contains(node) && !voters.contains(node)
                && !learners.contains(node)
            &&& d.departed.contains(node) && !voters.contains(node) && !learners.contains(node)
                ==> e.departed.contains(node)
        }),
{
    let m = voters.to_set().union(learners.to_set());
    assert(m.contains(node) <==> voters.contains(node) || learners.contains(node));
}

/// A departure outlives any number of later refreshes: over two refreshes in a row, a member that
/// the first leaves out is departed after the second unless the second brings it back.
pub proof fn law_departure_outlives_a_refresh(
    d: DriverView,
    voters: Seq<u64>,
    learners: Seq<u64>,
    later_voters: Seq<u64>,
    later_learners: Seq<u64>,
    node: u64,
)
    requires
        d.consistent(),
        d.members.contains(node),
        !voters.contains(node),
        !learners.contains(node),
    ensures
        d.with_membership(voters, learners).with_membership(
            later_voters,
            later_learners,
        ).departed.contains(node) <==> !later_voters.contains(node) && !later_learners.contains(
            node,
        ),
{
    let e = d.with_membership(voters, learners);
    law_departed_are_former_members(d, voters, learners, node);
    law_departures_are_remembered(d, voters, learners, node);
    law_departures_are_remembered(e, later_voters, later_learners, node);
}

/// The membership is what is committed: the members are the voters and the learners, the learners
/// are the committed ones, a promotion in flight is kept for as long as its learner is one, a
/// removal in flight is dropped once its target is gone and kept while it is a member, and nothing
/// else of the memory changes.
pub proof fn law_membership_is_what_is_committed(
    d: DriverView,
    voters: Seq<u64>,
    learners: Seq<u64>,
    node: u64,
)
    requires
        d.consistent(),
    ensures
        ({
            let e = d.with_membership(voters, learners);
            let stays = voters.contains(node) || learners.contains(node);
            &&& e.members.contains(node) <==> stays
            &&& e.learners.contains(node) <==> learners.contains(node)
            &&& e.promotion_proposed.contains(node) <==> d.promotion_proposed.contains(node)
                && learners.contains(node)
            &&& stays ==> (e.removal_proposed.contains(node) <==> d.removal_proposed.contains(node))
            &&& d.members.contains(node) && !stays ==> !e.removal_proposed.contains(node)
            &&& e.removal_proposed.contains(node) ==> d.removal_proposed.contains(node)
            &&& e.voter_count == voters.len()
            &&& e.node_id == d.node_id
            &&& e.liveness == d.liveness
            &&& e.watched == d.watched
            &&& e.last_heard == d.last_heard
            &&& e.forced_unreachable == d.forced_unreachable
            &&& e.suspected == d.suspected
            &&& e.failover_proposed == d.failover_proposed
            &&& e.last_tick == d.last_tick
            &&& e.last_checkpoint == d.last_checkpoint
            &&& e.last_snapshot == d.last_snapshot
            &&& e.last_promotion_eval == d.last_promotion_eval
        }),
{
    let l = learners.to_set();
    let m = voters.to_set().union(l);
    assert(l.contains(node) <==> learners.contains(node));
    assert(m.contains(node) <==> voters.contains(node) || learners.contains(node));
    if d.promotion_proposed.contains(node) {
        assert(d.learners.contains(node));
    }
}

// ---- laws of time ----

/// No tick is lost or fired twice, however often the driver wakes up: the baseline advances by
/// exactly the intervals that were fired, and as long as the cap is not reached, waking up in
/// between fires in all as many ticks as sleeping through.
pub proof fn law_wakeups_lose_no_ticks(last_tick: u64, now: u64, later: u64)
    requires
        last_tick <= now <= later,
        later - last_tick < (runtime::MAX_TICK_CATCH_UP + 1) * runtime::TICK_INTERVAL_NANOS,
    ensures
        ticks_due(last_tick, now) + ticks_due(tick_baseline(last_tick, now) as u64, later)
            == ticks_due(last_tick, later),
        ticks_due(last_tick, later) * runtime::TICK_INTERVAL_NANOS <= later - last_tick < (ticks_due(
            last_tick,
            later,
        ) + 1) * runtime::TICK_INTERVAL_NANOS,
        tick_baseline(last_tick, now) - last_tick == ticks_due(last_tick, now)
            * runtime::TICK_INTERVAL_NANOS,
{
    law_ticks_are_paced(last_tick, now);
    law_ticks_are_paced(last_tick, later);
    law_ticks_are_paced(tick_baseline(last_tick, now) as u64, later);
}

/// Where more intervals were missed than the cap, exactly the cap is fired; and a clock that has
/// not passed the baseline fires nothing and leaves the baseline alone.
pub proof fn law_tick_catch_up_is_capped(last_tick: u64, now: u64)
    ensures
        now - last_tick >= runtime::MAX_TICK_CATCH_UP * runtime::TICK_INTERVAL_NANOS ==> ticks_due(
            last_tick,
            now,
        ) == runtime::MAX_TICK_CATCH_UP,
        now <= last_tick ==> ticks_due(last_tick, now) == 0 && tick_baseline(last_tick, now)
            == last_tick,
{
}

/// A voter is suspected if and only if the detector runs on this leader, watches the peer, finds it
/// among the voters, and it is forced unreachable, was never heard from, or was last heard from at
/// least a deadline ago.
pub proof fn law_suspicion_is_exact(
    d: DriverView,
    is_leader: bool,
    voters: Seq<u64>,
    now: u64,
    peer: u64,
)
    ensures
        d.suspects(is_leader, voters, now).contains(peer) <==> {
            &&& d.liveness.enabled
            &&& is_leader
            &&& d.watched.contains(peer)
            &&& voters.contains(peer)
            &&& d.forced_unreachable.contains(peer) || !d.last_heard.contains_key(peer) || now
                - d.last_heard[peer] >= d.liveness.timeout_nanos || d.liveness.timeout_nanos == 0
        },
{
}

/// A periodic duty runs once its interval has passed: a checkpoint and the promotion of learners on
/// the leader only, the latter only where there are learners; a snapshot on every node, and as soon
/// as the retained log has reached the threshold.
pub proof fn law_duties_run_on_their_cadence(
    d: DriverView,
    is_leader: bool,
    now: u64,
    retained_len: u64,
)
    ensures
        d.checkpoint_runs(is_leader, now) <==> is_leader && now - d.last_checkpoint
            >= runtime::COMMITTED_HW_CHECKPOINT_INTERVAL_NANOS,
        d.promotion_runs(is_leader, now) <==> is_leader && (exists|l: u64| #[trigger]
            d.learners.contains(l)) && now - d.last_promotion_eval
            >= runtime::LEARNER_PROMOTION_INTERVAL_NANOS,
        d.snapshot_runs(now, retained_len) <==> now - d.last_snapshot
            >= runtime::METADATA_SNAPSHOT_INTERVAL_NANOS || retained_len
            >= runtime::METADATA_SNAPSHOT_LOG_THRESHOLD,
{
    if d.learners.is_empty() {
        assert(d.learners =~= Set::empty());
    } else {
        assert(exists|l: u64| #[trigger] d.learners.contains(l)) by {
            if forall|l: u64| !#[trigger] d.learners.contains(l) {
                assert(d.learners =~= Set::empty());
            }
        }
    }
}

/// A duty that has run rests for its interval, one that has not keeps its time, and a cycle changes
/// nothing of the memory but the suspects, the marks of failovers and the times of the duties.
pub proof fn law_a_duty_that_ran_rests(
    d: DriverView,
    reading: CycleView,
    state: StateView,
    later: u64,
)
    ensures
        ({
            let e = d.after_cycle(reading, state);
            let checkpointed = reading.is_leader && reading.now - d.last_checkpoint
                >= runtime::COMMITTED_HW_CHECKPOINT_INTERVAL_NANOS;
            let snapshotted = reading.now - d.last_snapshot
                >= runtime::METADATA_SNAPSHOT_INTERVAL_NANOS || reading.retained_len
                >= runtime::METADATA_SNAPSHOT_LOG_THRESHOLD;
            let evaluated = reading.is_leader && (exists|l: u64| #[trigger] d.learners.contains(l))
                && reading.now - d.last_promotion_eval >= runtime::LEARNER_PROMOTION_INTERVAL_NANOS;
            &&& e.last_checkpoint == if checkpointed {
                reading.now
            } else {
                d.last_checkpoint
            }
            &&& e.last_snapshot == if snapshotted {
                reading.now
            } else {
                d.last_snapshot
            }
            &&& e.last_promotion_eval == if evaluated {
                reading.now
            } else {
                d.last_promotion_eval
            }
            &&& checkpointed && later - reading.now
                < runtime::COMMITTED_HW_CHECKPOINT_INTERVAL_NANOS ==> !e.checkpoint_runs(
                reading.is_leader,
                later,
            )
            &&& evaluated && later - reading.now < runtime::LEARNER_PROMOTION_INTERVAL_NANOS
                ==> !e.promotion_runs(reading.is_leader, later)
            &&& snapshotted && later - reading.now < runtime::METADATA_SNAPSHOT_INTERVAL_NANOS
                ==> !e.snapshot_runs(later, 0)
            &&& forall|p: u64| #[trigger]
                e.failover_proposed.contains(p) <==> d.failover_proposed.contains(p)
                    && state.placements.contains_key(p) && d.departed.contains(
                    state.placements[p].leader,
                )
            &&& e.node_id == d.node_id
            &&& e.liveness == d.liveness
            &&& e.watched == d.watched
            &&& e.members == d.members
            &&& e.ever_seen == d.ever_seen
            &&& e.departed == d.departed
            &&& e.voter_count == d.voter_count
            &&& e.learners == d.learners
            &&& e.last_heard == d.last_heard
            &&& e.forced_unreachable == d.forced_unreachable
            &&& e.removal_proposed == d.removal_proposed
            &&& e.promotion_proposed == d.promotion_proposed
            &&& e.last_tick == d.last_tick
            &&& forall|p: u64| #[trigger]
                e.suspected.contains(p) <==> d.liveness.enabled && reading.is_leader
                    && d.watched.contains(p) && reading.voters.contains(p) && (
                d.forced_unreachable.contains(p) || !d.last_heard.contains_key(p) || reading.now
                    - d.last_heard[p] >= d.liveness.timeout_nanos || d.liveness.timeout_nanos == 0)
        }),
{
    law_duties_run_on_their_cadence(d, reading.is_leader, reading.now, reading.retained_len);
}

/// A driver starts with nothing but its watch: it has heard from every watched voter just now and
/// from nobody else, knows no member and has nothing in flight, and on a clock that is past the
/// intervals every duty is due at once.
pub proof fn law_driver_starts_with_its_watch(
    node_id: u64,
    watched: Seq<u64>,
    liveness: LivenessConfig,
    now: u64,
    node: u64,
)
    ensures
        ({
            let d = started(node_id, watched, liveness, now);
            &&& d.node_id == node_id
            &&& d.liveness == liveness
            &&& d.watched.contains(node) <==> watched.contains(node)
            &&& d.last_heard.contains_key(node) <==> watched.contains(node)
            &&& watched.contains(node) ==> d.last_heard[node] == now
            &&& !d.members.contains(node)
            &&& !d.ever_seen.contains(node)
            &&& !d.departed.contains(node)
            &&& !d.learners.contains(node)
            &&& !d.forced_unreachable.contains(node)
            &&& !d.suspected.contains(node)
            &&& !d.removal_proposed.contains(node)
            &&& !d.failover_proposed.contains(node)
            &&& !d.promotion_proposed.contains(node)
            &&& d.voter_count == 0
            &&& d.last_tick == now
            &&& now >= runtime::COMMITTED_HW_CHECKPOINT_INTERVAL_NANOS ==> d.checkpoint_runs(
                true,
                now,
            )
            &&& now >= runtime::METADATA_SNAPSHOT_INTERVAL_NANOS ==> d.snapshot_runs(now, 0)
            &&& now >= runtime::LEARNER_PROMOTION_INTERVAL_NANOS ==> now - d.last_promotion_eval
                >= runtime::LEARNER_PROMOTION_INTERVAL_NANOS
        }),
{
}

// ---- laws of learners ----

/// A learner may be promoted if and only if something is committed and there is evidence that the
/// learner has reached the committed index that the evidence names.
pub proof fn law_promotion_needs_evidence(committed_index: u64, evidence: Option<LearnerCatchup>)
    ensures
        promotable(committed_index, evidence) <==> committed_index > 0 && (evidence matches Some(c)
            && c.committed <= c.matched),
{
}

/// The promotions that are planned are, in increasing order, the open learners with evidence that
/// they have caught up; an open learner is passed over only for want of it.
pub proof fn law_caught_up_learners_are_promoted<A: Fn(u64) -> Option<LearnerCatchup>>(
    catchup: A,
    open: Set<u64>,
    committed_index: u64,
    plan: Seq<u64>,
    learner: u64,
)
    requires
        promotions_by(catchup, open, committed_index, plan),
    ensures
        forall|i: int, j: int| 0 <= i < j < plan.len() ==> #[trigger] plan[i] < #[trigger] plan[j],
        plan.contains(learner) ==> open.contains(learner) && committed_index > 0 && exists|
            c: LearnerCatchup,
        | #[trigger]
            call_ensures(catchup, (learner,), Some(c)) && c.committed <= c.matched,
        open.contains(learner) && !plan.contains(learner) ==> committed_index == 0 || exists|
            e: Option<LearnerCatchup>,
        | #[trigger]
            call_ensures(catchup, (learner,), e) && (e matches Some(c) ==> c.matched
                < c.committed),
{
    assert forall|i: int, j: int| 0 <= i < j < plan.len() implies #[trigger] plan[i]
        < #[trigger] plan[j] by {
        assert((order::id_order())(plan[i], plan[j]));
    }
    if plan.contains(learner) {
        assert(evidence_says(catchup, committed_index, learner, true));
        let e = choose|e: Option<LearnerCatchup>| #[trigger]
            call_ensures(catchup, (learner,), e) && promotable(committed_index, e);
        assert(call_ensures(catchup, (learner,), Some(e->0)));
    }
}

// ---- laws of the status ----

/// What is published is what the driver holds: its own identity, membership and marks, the core's
/// leadership and snapshot, and the applied state, whose tables are as fresh as its index.
pub proof fn law_status_is_what_the_driver_holds(
    d: DriverView,
    before: StatusView,
    is_leader: bool,
    leader_epoch: u64,
    snapshot_index: u64,
    state: StateView,
)
    requires
        before.applied_index == state.applied_index ==> before.placements == state.placements
            && before.last_committed_hw == state.committed_hw,
    ensures
        d.published(before, is_leader, leader_epoch, snapshot_index, state) == (StatusView {
            node_id: d.node_id,
            is_leader,
            leader_epoch,
            voter_count: d.voter_count,
            applied_index: state.applied_index,
            placements: state.placements,
            last_committed_hw: state.committed_hw,
            departed_members: d.departed,
            suspected_dead: d.suspected,
            failover_proposed: d.failover_proposed,
            learners: d.learners,
            learners_promoted: d.promotion_proposed,
            snapshot_index,
            health_failed: before.health_failed,
        }),
{
}


// ---- laws of what is heard and what is in flight ----

/// Being heard from clears a peer for a full deadline, unless it is forced unreachable, and says
/// nothing of anybody else; the invalid id is never heard from.
pub proof fn law_heard_peer_is_cleared_for_a_deadline(
    d: DriverView,
    from: u64,
    at: u64,
    now: u64,
    other: u64,
)
    ensures
        ({
            let e = d.heard(from, at);
            &&& from != 0 ==> e.last_heard.contains_key(from) && e.last_heard[from] == at
            &&& from != 0 && !d.forced_unreachable.contains(from) && d.liveness.timeout_nanos > 0
                && now - at < d.liveness.timeout_nanos ==> !e.silent(from, now)
            &&& from != 0 && at <= now && now - at >= d.liveness.timeout_nanos ==> e.silent(
                from,
                now,
            )
            &&& other != from ==> (e.last_heard.contains_key(other) <==> d.last_heard.contains_key(
                other,
            ))
            &&& other != from && d.last_heard.contains_key(other) ==> e.last_heard[other]
                == d.last_heard[other]
            &&& e.last_heard.contains_key(0) <==> d.last_heard.contains_key(0)
            &&& e == (DriverView { last_heard: e.last_heard, ..d })
        }),
{
}

/// Forcing a peer unreachable silences it whatever was heard, until that is taken back, which
/// leaves it as silent as it would be had it never been forced; nobody else is touched.
pub proof fn law_forcing_silences_until_taken_back(d: DriverView, peer: u64, now: u64, other: u64)
    ensures
        d.forced(peer, true).silent(peer, now),
        !d.forced(peer, false).forced_unreachable.contains(peer),
        !d.forced_unreachable.contains(peer) ==> (d.forced(peer, true).forced(peer, false).silent(
            peer,
            now,
        ) <==> d.silent(peer, now)),
        other != peer ==> (d.forced(peer, true).silent(other, now) <==> d.silent(other, now)),
        other != peer ==> (d.forced(peer, false).silent(other, now) <==> d.silent(other, now)),
        d.forced(peer, true) == (DriverView {
            forced_unreachable: d.forced(peer, true).forced_unreachable,
            ..d
        }),
{
}

/// What is in flight is not proposed again: a removal of a suspect, a failover of an orphan and a
/// promotion of a learner each drop out of what is open once they are marked, and nothing else does.
pub proof fn law_in_flight_is_not_proposed_again(
    d: DriverView,
    placements: Map<u64, PlacementView>,
    id: u64,
    other: u64,
)
    ensures
        d.removing(id).removal_proposed.contains(other) <==> other == id
            || d.removal_proposed.contains(other),
        d.removing(id) == (DriverView { removal_proposed: d.removing(id).removal_proposed, ..d }),
        d.failing_over(id).orphans(placements).contains(other) <==> other != id && d.orphans(
            placements,
        ).contains(other),
        d.failing_over(id) == (DriverView {
            failover_proposed: d.failing_over(id).failover_proposed,
            ..d
        }),
        d.promoting(id).promotion_proposed.contains(other) <==> other == id
            || d.promotion_proposed.contains(other),
        d.promoting(id) == (DriverView {
            promotion_proposed: d.promoting(id).promotion_proposed,
            ..d
        }),
{
}

/// Only one node can take over under an epoch: two decisions to promote, by whatever nodes, for one
/// placement come with the same epoch, and the one that lands makes the other stale.
pub proof fn law_promotions_of_one_placement_share_an_epoch(
    a: u64,
    b: u64,
    partition: u64,
    placement: PlacementView,
    safe_bar: Option<u64>,
    frontier_a: u64,
    frontier_b: u64,
)
    ensures
        decision(a, partition, placement, safe_bar, frontier_a) matches DecisionView::Promote(x)
            ==> (decision(
            b,
            partition,
            placement,
            safe_bar,
            frontier_b,
        ) matches DecisionView::Promote(y) ==> x->PlacePartition_placement.epoch
            == y->PlacePartition_placement.epoch && x->PlacePartition_placement.epoch
            == placement.epoch + 1 && x->PlacePartition_placement.leader == a
            && y->PlacePartition_placement.leader == b),
{
}


/// The tables of the status are replaced only once the applied index has moved; until then they
/// stay as they were published.
pub proof fn law_status_tables_follow_the_index(
    d: DriverView,
    before: StatusView,
    is_leader: bool,
    leader_epoch: u64,
    snapshot_index: u64,
    state: StateView,
)
    ensures
        ({
            let s = d.published(before, is_leader, leader_epoch, snapshot_index, state);
            &&& state.applied_index == before.applied_index ==> s.placements == before.placements
                && s.last_committed_hw == before.last_committed_hw
            &&& state.applied_index != before.applied_index ==> s.placements == state.placements
                && s.last_committed_hw == state.committed_hw
            &&& s.applied_index == state.applied_index
        }),
{
}

/// The cadence in time: a leader checkpoints, and looks at its learners, every half second; a node
/// snapshots every ten seconds, and whenever it retains 1024 entries; and a tick is a tenth of a
/// second, of which at most ten are caught up at once.
pub proof fn law_cadence_in_time(d: DriverView, now: u64, retained_len: u64, last_tick: u64)
    requires
        last_tick <= now,
    ensures
        d.checkpoint_runs(true, now) <==> now - d.last_checkpoint >= 500_000_000,
        !d.checkpoint_runs(false, now),
        d.promotion_runs(true, now) ==> now - d.last_promotion_eval >= 500_000_000,
        d.learners.contains(d.node_id) && now - d.last_promotion_eval >= 500_000_000
            ==> d.promotion_runs(true, now),
        !d.promotion_runs(false, now),
        d.snapshot_runs(now, retained_len) <==> now - d.last_snapshot >= 10_000_000_000
            || retained_len >= 1024,
        now - last_tick < 1_000_000_000 ==> ticks_due(last_tick, now) == (now - last_tick)
            / 100_000_000,
        now - last_tick >= 1_000_000_000 ==> ticks_due(last_tick, now) == 10,
{
}

}
