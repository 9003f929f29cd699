//! The rules by which a node joins and runs the metadata group: its configuration, what it starts,
//! what it publishes, and how leadership moves when a node departs.

use std::collections::{BTreeMap, BTreeSet};
use vstd::prelude::*;
use vstd::std_specs::btree::*;
use vstd::string::*;

use crate::cluster::command;
use crate::cluster::command::{MetadataCommand, Placement, PlacementView};
use crate::cluster::ids;
use crate::cluster::order;
use crate::cluster::state_machine;
use crate::cluster::transport::{PeerRegistry, INVALID_ID};
use crate::text;

verus! {

broadcast use {vstd::laws_cmp::group_laws_cmp, group_btree_axioms};

/// How often the driver advances the logical election and heartbeat timer.
pub const TICK_INTERVAL_NANOS: u64 = 100_000_000;

/// The most logical ticks that the driver fires in one cycle when it catches up.
pub const MAX_TICK_CATCH_UP: u64 = 10;

/// The bound on each per-peer outbound queue.
pub const PEER_OUTBOUND_BOUND: usize = 1024;

/// How long a dialer waits after a failed connect before it retries.
pub const DIALER_RECONNECT_BACKOFF_NANOS: u64 = 500_000_000;

/// How long a voter may be silent before its removal is proposed: ten heartbeat intervals.
pub const DEFAULT_LIVENESS_TIMEOUT_NANOS: u64 = 3_000_000_000;

/// How often a leader checkpoints the committed high-watermarks of the partitions that it leads.
pub const COMMITTED_HW_CHECKPOINT_INTERVAL_NANOS: u64 = 500_000_000;

/// How often the leader looks for learners that have caught up.
pub const LEARNER_PROMOTION_INTERVAL_NANOS: u64 = 500_000_000;

/// How often a node snapshots and compacts its metadata log.
pub const METADATA_SNAPSHOT_INTERVAL_NANOS: u64 = 10_000_000_000;

/// The retained log length from which a node snapshots ahead of its cadence.
pub const METADATA_SNAPSHOT_LOG_THRESHOLD: u64 = 1024;

/// The port offset of the data-plane listener relative to a node's metadata address.
pub const DATAPLANE_PORT_OFFSET: u16 = 1;

/// The slice in which an interruptible sleep waits between looks at the shutdown flag.
pub const SLEEP_SLICE_NANOS: u64 = 20_000_000;

/// A network address: the host as text, and the port.
#[derive(Debug, Clone, PartialEq, Eq)]
pub struct PeerAddr {
    pub host: String,
    pub port: u16,
}

impl PeerAddr {
    /// An equal address.
    pub fn duplicate(&self) -> (a: PeerAddr)
        ensures
            a == *self,
    {
        PeerAddr { host: self.host.clone(), port: self.port }
    }
}

/// The data-plane port for a metadata port: shifted by the offset, saturating so that it never
/// wraps; a port of 0 (assigned by the system) stays 0.
pub open spec fn dataplane_port(port: u16) -> u16 {
    if port == 0 {
        0
    } else if port + DATAPLANE_PORT_OFFSET <= u16::MAX {
        (port + DATAPLANE_PORT_OFFSET) as u16
    } else {
        u16::MAX
    }
}

/// The data-plane listener address for a node's configured metadata address.
#[must_use]
pub fn dataplane_addr(addr: &PeerAddr) -> (r: PeerAddr)
    ensures
        r.host == addr.host,
        r.port == dataplane_port(addr.port),
{
    let port: u16 = if addr.port == 0 {
        0
    } else {
        addr.port.saturating_add(DATAPLANE_PORT_OFFSET)
    };
    PeerAddr { host: addr.host.clone(), port }
}

/// A duration in nanoseconds, saturating at `u64::MAX` so that an absurdly large one never wraps.
pub fn duration_to_nanos(nanos: u128) -> (r: u64)
    ensures
        r == (if nanos <= u64::MAX {
            nanos as u64
        } else {
            u64::MAX
        }),
{
    if nanos <= u64::MAX as u128 {
        nanos as u64
    } else {
        u64::MAX
    }
}

/// The next slice of an interruptible sleep with `left` to go: how long to sleep now, and what is
/// left afterwards.
pub fn sleep_slice(left: u64) -> (r: (u64, u64))
    ensures
        r.0 <= SLEEP_SLICE_NANOS,
        r.0 + r.1 == left,
        left > 0 ==> r.1 < left,
        r.0 == (if left < SLEEP_SLICE_NANOS {
            left
        } else {
            SLEEP_SLICE_NANOS
        }),
{
    let now: u64 = if left < SLEEP_SLICE_NANOS {
        left
    } else {
        SLEEP_SLICE_NANOS
    };
    (now, left - now)
}

/// Whether an outbound message may be queued for a peer whose queue holds `depth` messages, or
/// for an unknown peer (`None`). A message that may not is dropped: the group re-sends it.
pub fn may_enqueue(depth: Option<usize>) -> (r: bool)
    ensures
        r == (depth matches Some(n) && n < PEER_OUTBOUND_BOUND),
{
    match depth {
        Some(n) => n < PEER_OUTBOUND_BOUND,
        None => false,
    }
}

/// The tuning of the peer-liveness detector.
#[derive(Clone, Copy, Debug, PartialEq, Eq)]
pub struct LivenessConfig {
    /// How long a voter may be silent before the leader proposes its removal.
    pub timeout_nanos: u64,
    /// Whether the detector runs at all.
    pub enabled: bool,
}

impl Default for LivenessConfig {
    fn default() -> (c: LivenessConfig)
        ensures
            c.timeout_nanos == DEFAULT_LIVENESS_TIMEOUT_NANOS,
            c.enabled,
    {
        LivenessConfig { timeout_nanos: DEFAULT_LIVENESS_TIMEOUT_NANOS, enabled: true }
    }
}

/// A point-in-time snapshot of the local member's metadata-plane state.
#[derive(Clone, Debug)]
pub struct ClusterStatus {
    /// This node's id.
    pub node_id: u64,
    /// Whether this node currently believes itself the metadata leader.
    pub is_leader: bool,
    /// The current cluster leader epoch.
    pub leader_epoch: u64,
    /// The number of voting members of the durable membership.
    pub voter_count: usize,
    /// The applied index of the local metadata state machine.
    pub applied_index: u64,
    /// Every committed partition placement.
    pub placements: BTreeMap<u64, Placement>,
    /// The nodes that left the committed membership since the cluster formed.
    pub departed_members: BTreeSet<u64>,
    /// The voters currently silent past the liveness deadline.
    pub suspected_dead: BTreeSet<u64>,
    /// The partitions with a failover promotion in flight.
    pub failover_proposed: BTreeSet<u64>,
    /// The last-checkpointed committed high-watermark of every partition.
    pub last_committed_hw: BTreeMap<u64, u64>,
    /// The non-voting learners of the durable membership.
    pub learners: BTreeSet<u64>,
    /// The learners with a promotion in flight.
    pub learners_promoted: BTreeSet<u64>,
    /// The index of the last metadata-log snapshot, 0 before any.
    pub snapshot_index: u64,
    /// Latched once the node's Raft role has fail-stopped.
    pub health_failed: bool,
}

/// A cluster status as a mathematical value.
#[verifier::ext_equal]
pub struct StatusView {
    pub node_id: u64,
    pub is_leader: bool,
    pub leader_epoch: u64,
    pub voter_count: nat,
    pub applied_index: u64,
    pub placements: Map<u64, PlacementView>,
    pub departed_members: Set<u64>,
    pub suspected_dead: Set<u64>,
    pub failover_proposed: Set<u64>,
    pub last_committed_hw: Map<u64, u64>,
    pub learners: Set<u64>,
    pub learners_promoted: Set<u64>,
    pub snapshot_index: u64,
    pub health_failed: bool,
}

impl View for ClusterStatus {
    type V = StatusView;

    open spec fn view(&self) -> StatusView {
        StatusView {
            node_id: self.node_id,
            is_leader: self.is_leader,
            leader_epoch: self.leader_epoch,
            voter_count: self.voter_count as nat,
            applied_index: self.applied_index,
            placements: state_machine::placement_views(self.placements@),
            departed_members: self.departed_members@,
            suspected_dead: self.suspected_dead@,
            failover_proposed: self.failover_proposed@,
            last_committed_hw: self.last_committed_hw@,
            learners: self.learners@,
            learners_promoted: self.learners_promoted@,
            snapshot_index: self.snapshot_index,
            health_failed: self.health_failed,
        }
    }
}

/// The status of a node that has not published anything yet.
pub open spec fn initial_status(node_id: u64) -> StatusView {
    StatusView {
        node_id,
        is_leader: false,
        leader_epoch: 0,
        voter_count: 0,
        applied_index: 0,
        placements: Map::empty(),
        departed_members: Set::empty(),
        suspected_dead: Set::empty(),
        failover_proposed: Set::empty(),
        last_committed_hw: Map::empty(),
        learners: Set::empty(),
        learners_promoted: Set::empty(),
        snapshot_index: 0,
        health_failed: false,
    }
}

impl StatusView {
    /// The status of a node that has fail-stopped.
    pub open spec fn fail_stopped(self) -> StatusView {
        StatusView { health_failed: true, is_leader: false, ..self }
    }
}

impl ClusterStatus {
    /// The status of node `node_id` before its driver has published anything.
    pub fn new(node_id: u64) -> (s: ClusterStatus)
        ensures
            s@ == initial_status(node_id),
    {
        let s = ClusterStatus {
            node_id,
            is_leader: false,
            leader_epoch: 0,
            voter_count: 0,
            applied_index: 0,
            placements: BTreeMap::new(),
            departed_members: BTreeSet::new(),
            suspected_dead: BTreeSet::new(),
            failover_proposed: BTreeSet::new(),
            last_committed_hw: BTreeMap::new(),
            learners: BTreeSet::new(),
            learners_promoted: BTreeSet::new(),
            snapshot_index: 0,
            health_failed: false,
        };
        assert(s@ =~= initial_status(node_id));
        s
    }

    /// Publish that the node has fail-stopped: it is no healthy leader any more. Everything else
    /// stays as it was last published.
    pub fn fail_stop(&mut self)
        ensures
            final(self)@ == old(self)@.fail_stopped(),
    {
        self.health_failed = true;
        self.is_leader = false;
    }

    /// Decide whether the driver goes on once the core has been driven. A core that failed to
    /// persist can make no safe progress again, so the node fail-stops.
    pub fn on_drive(&mut self, ok: bool) -> (go_on: bool)
        ensures
            go_on == ok,
            ok ==> *final(self) == *old(self),
            !ok ==> final(self)@ == old(self)@.fail_stopped(),
    {
        if !ok {
            self.fail_stop();
        }
        ok
    }
}

impl Default for ClusterStatus {
    fn default() -> (s: ClusterStatus)
        ensures
            s@ == initial_status(0),
    {
        ClusterStatus::new(0)
    }
}

/// Errors starting the cluster runtime.
#[derive(Debug)]
pub enum RuntimeError {
    /// The cluster config was invalid.
    Config(String),
    /// The metadata group could not be opened.
    Group(String),
    /// The peer listener could not bind its address.
    Listen(String),
}

impl RuntimeError {
    /// What the error says.
    pub open spec fn text(self) -> Seq<char> {
        match self {
            RuntimeError::Config(m) => "invalid cluster config: "@ + m@,
            RuntimeError::Group(e) => "cannot open metadata group: "@ + e@,
            RuntimeError::Listen(e) => "cannot bind cluster peer listener: "@ + e@,
        }
    }

    /// The error as a message for an operator.
    #[must_use]
    pub fn message(&self) -> (s: String)
        ensures
            s@ == self.text(),
    {
        match self {
            RuntimeError::Config(m) => "invalid cluster config: ".to_owned().concat(m.as_str()),
            RuntimeError::Group(e) => "cannot open metadata group: ".to_owned().concat(e.as_str()),
            RuntimeError::Listen(e) => "cannot bind cluster peer listener: ".to_owned().concat(
                e.as_str(),
            ),
        }
    }
}

/// How a node starts in the metadata group.
#[derive(Clone, Copy, Debug, PartialEq, Eq, Structural)]
pub enum StartRole {
    /// A seeded voter of a brand-new group.
    Voter,
    /// A node joining a running cluster as a non-voting learner.
    Learner,
}

impl Default for StartRole {
    fn default() -> (r: StartRole)
        ensures
            r == StartRole::Voter,
    {
        StartRole::Voter
    }
}

/// The cluster configuration: this node's id and the address book of the metadata group.
#[derive(Clone, Debug)]
pub struct ClusterConfig {
    /// This node's id within the metadata group.
    pub node_id: u64,
    /// Every known member id with its address, this node's own among them.
    pub peers: BTreeMap<u64, PeerAddr>,
    /// How this node starts.
    pub role: StartRole,
    /// Members in the address book that are to join as learners and are not seeded as voters.
    pub pending_learners: BTreeSet<u64>,
}

impl ClusterConfig {
    /// `id` is in the address book but not seeded as a voter.
    pub open spec fn non_voter_seed(&self, id: u64) -> bool {
        self.pending_learners@.contains(id) || (self.role == StartRole::Learner && id
            == self.node_id)
    }

    /// The seeded voters: the address book without the learners-to-be.
    pub open spec fn seed_set(&self) -> Set<u64> {
        self.peers@.dom().filter(|id: u64| !self.non_voter_seed(id))
    }

    /// The members other than this node.
    pub open spec fn remote_set(&self) -> Set<u64> {
        self.peers@.dom().filter(|id: u64| id != self.node_id)
    }

    /// The seeded voters other than this node.
    pub open spec fn watched_set(&self) -> Set<u64> {
        self.peers@.dom().filter(|id: u64| id != self.node_id && !self.non_voter_seed(id))
    }

    /// What is wrong with the configuration, if anything: this node is not in the address book,
    /// the reserved id is, or the seeded voters are not 1, 3 or 5.
    pub open spec fn fault(&self) -> Option<Seq<char>> {
        let n = self.seed_set().len();
        if !self.peers@.contains_key(self.node_id) {
            Some(
                "node id "@ + text::decimal(self.node_id as nat)
                    + " is not in the configured peer set"@,
            )
        } else if self.peers@.contains_key(INVALID_ID) {
            Some("node id 0 is reserved (raft INVALID_ID) and cannot be a cluster member"@)
        } else if n != 1 && n != 3 && n != 5 {
            Some(
                "cluster seeded voter count "@ + text::decimal(n)
                    + " is unsupported (must be 1, 3, or 5)"@,
            )
        } else {
            None
        }
    }

    /// The local node's own address, if it is in the address book.
    pub fn self_addr(&self) -> (r: Option<PeerAddr>)
        ensures
            match r {
                Some(a) => self.peers@.contains_key(self.node_id) && a
                    == self.peers@[self.node_id],
                None => !self.peers@.contains_key(self.node_id),
            },
    {
        match self.peers.get(&self.node_id) {
            Some(a) => Some(a.duplicate()),
            None => None,
        }
    }

    /// True if this node starts as a joining learner rather than a seeded voter.
    pub fn is_learner_join(&self) -> (r: bool)
        ensures
            r == (self.role == StartRole::Learner),
    {
        match self.role {
            StartRole::Learner => true,
            StartRole::Voter => false,
        }
    }

    /// True if `id` is not seeded as a voter.
    pub fn is_non_voter_seed(&self, id: u64) -> (r: bool)
        ensures
            r == self.non_voter_seed(id),
    {
        self.pending_learners.contains(&id) || (self.is_learner_join() && id == self.node_id)
    }

    /// The voters that the metadata group is seeded with, in id order.
    pub fn seed_voters(&self) -> (r: Vec<u64>)
        ensures
            order::lists(r@, self.seed_set(), order::id_order()),
    {
        let keys = ids::sorted_keys(&self.peers);
        let ghost keep = |id: u64| !self.non_voter_seed(id);
        let mut r: Vec<u64> = Vec::new();
        let mut i: usize = 0;
        proof {
            reveal(Seq::filter);
            assert(r@ =~= keys@.take(0).filter(keep));
        }
        while i < keys.len()
            invariant
                i <= keys@.len(),
                keep == (|id: u64| !self.non_voter_seed(id)),
                r@ == keys@.take(i as int).filter(keep),
            decreases keys@.len() - i,
        {
            if !self.is_non_voter_seed(keys[i]) {
                r.push(keys[i]);
            }
            proof {
                order::lemma_filter_push(keys@.take(i as int), keys@[i as int], keep);
                assert(keys@.take(i as int).push(keys@[i as int]) =~= keys@.take(i + 1));
            }
            i = i + 1;
        }
        proof {
            assert(keys@.take(keys@.len() as int) =~= keys@);
            order::lemma_filter_listing(keys@, self.peers@.dom(), order::id_order(), keep);
        }
        r
    }

    /// The remote peers, in id order: a dialer exists for every member that the group may route
    /// to, learners-to-be among them.
    pub fn remote_peers(&self) -> (r: Vec<(u64, PeerAddr)>)
        ensures
            order::lists(
                r@.map_values(|e: (u64, PeerAddr)| e.0),
                self.remote_set(),
                order::id_order(),
            ),
            forall|i: int|
                0 <= i < r@.len() ==> (#[trigger] r@[i]).1 == self.peers@[r@[i].0],
    {
        let entries = ids::sorted_entries(&self.peers);
        let ghost keys = ids::entry_keys(entries@);
        let ghost keep = |id: u64| id != self.node_id;
        let ghost key_of = |e: (u64, PeerAddr)| e.0;
        let mut r: Vec<(u64, PeerAddr)> = Vec::new();
        let mut i: usize = 0;
        proof {
            reveal(Seq::filter);
            assert(r@.map_values(key_of) =~= keys.take(0).filter(keep));
        }
        while i < entries.len()
            invariant
                i <= entries@.len(),
                keys == ids::entry_keys(entries@),
                keep == (|id: u64| id != self.node_id),
                key_of == (|e: (u64, PeerAddr)| e.0),
                forall|j: int|
                    0 <= j < entries@.len() ==> *(#[trigger] entries@[j]).1
                        == self.peers@[entries@[j].0],
                r@.map_values(key_of) == keys.take(i as int).filter(keep),
                forall|j: int|
                    0 <= j < r@.len() ==> (#[trigger] r@[j]).1 == self.peers@[r@[j].0],
            decreases entries@.len() - i,
        {
            let ghost before = r@;
            if entries[i].0 != self.node_id {
                r.push((entries[i].0, entries[i].1.duplicate()));
                assert(r@.map_values(key_of) =~= before.map_values(key_of).push(keys[i as int]));
            }
            proof {
                order::lemma_filter_push(keys.take(i as int), keys[i as int], keep);
                assert(keys.take(i as int).push(keys[i as int]) =~= keys.take(i + 1));
            }
            i = i + 1;
        }
        proof {
            assert(keys.take(keys.len() as int) =~= keys);
            order::lemma_filter_listing(keys, self.peers@.dom(), order::id_order(), keep);
        }
        r
    }

    /// The remote voters that the liveness detector watches, in id order. A learner's silence is
    /// no crash.
    pub fn remote_voters(&self) -> (r: Vec<u64>)
        ensures
            order::lists(r@, self.watched_set(), order::id_order()),
    {
        let keys = ids::sorted_keys(&self.peers);
        let ghost keep = |id: u64| id != self.node_id && !self.non_voter_seed(id);
        let mut r: Vec<u64> = Vec::new();
        let mut i: usize = 0;
        proof {
            reveal(Seq::filter);
            assert(r@ =~= keys@.take(0).filter(keep));
        }
        while i < keys.len()
            invariant
                i <= keys@.len(),
                keep == (|id: u64| id != self.node_id && !self.non_voter_seed(id)),
                r@ == keys@.take(i as int).filter(keep),
            decreases keys@.len() - i,
        {
            if keys[i] != self.node_id && !self.is_non_voter_seed(keys[i]) {
                r.push(keys[i]);
            }
            proof {
                order::lemma_filter_push(keys@.take(i as int), keys@[i as int], keep);
                assert(keys@.take(i as int).push(keys@[i as int]) =~= keys@.take(i + 1));
            }
            i = i + 1;
        }
        proof {
            assert(keys@.take(keys@.len() as int) =~= keys@);
            order::lemma_filter_listing(keys@, self.peers@.dom(), order::id_order(), keep);
        }
        r
    }

    /// Validate the configuration: the cluster that the node forms or joins is a valid quorum.
    pub fn validate(&self) -> (r: Result<(), RuntimeError>)
        ensures
            match r {
                Ok(()) => self.fault() is None,
                Err(RuntimeError::Config(m)) => self.fault() == Some(m@),
                Err(_) => false,
            },
    {
        if !self.peers.contains_key(&self.node_id) {
            return Err(
                RuntimeError::Config(
                    text::around(
                        "node id ",
                        self.node_id,
                        " is not in the configured peer set",
                    ),
                ),
            );
        }
        if self.peers.contains_key(&INVALID_ID) {
            return Err(
                RuntimeError::Config(
                    "node id 0 is reserved (raft INVALID_ID) and cannot be a cluster member".to_owned(),
                ),
            );
        }
        let seeds = self.seed_voters();
        let n: usize = seeds.len();
        proof {
            order::lemma_id_order();
            order::lemma_listing_len(seeds@, self.seed_set(), order::id_order());
        }
        if n != 1 && n != 3 && n != 5 {
            return Err(
                RuntimeError::Config(
                    text::around(
                        "cluster seeded voter count ",
                        n as u64,
                        " is unsupported (must be 1, 3, or 5)",
                    ),
                ),
            );
        }
        Ok(())
    }
}

/// What a node starts from a valid configuration.
#[derive(Debug)]
pub struct StartPlan {
    /// The address that the peer listener binds.
    pub self_addr: PeerAddr,
    /// The voters that the metadata group is opened with.
    pub seed_voters: Vec<u64>,
    /// Whether the group is opened as a joining learner.
    pub as_learner: bool,
    /// The senders that a reader accepts until the committed membership is known.
    pub registry: PeerRegistry,
    /// The peers to dial, each with its own outbound queue.
    pub dial: Vec<(u64, PeerAddr)>,
    /// The voters whose silence means a crash.
    pub watched: Vec<u64>,
}

/// The senders that a starting node accepts: a joining learner takes every member of the address
/// book, since it must hear the voters before its own membership is known; a voter takes the
/// seeded voters.
pub open spec fn initial_senders(config: &ClusterConfig) -> Set<u64> {
    if config.role == StartRole::Learner {
        config.peers@.dom().remove(INVALID_ID)
    } else {
        config.seed_set().remove(INVALID_ID)
    }
}

/// Derive what a node starts from its configuration, or refuse the configuration.
pub fn plan_start(config: &ClusterConfig) -> (r: Result<StartPlan, RuntimeError>)
    ensures
        match r {
            Ok(plan) => {
                &&& config.fault() is None
                &&& plan.self_addr == config.peers@[config.node_id]
                &&& order::lists(plan.seed_voters@, config.seed_set(), order::id_order())
                &&& plan.as_learner == (config.role == StartRole::Learner)
                &&& plan.registry@ == initial_senders(config)
                &&& order::lists(
                    plan.dial@.map_values(|e: (u64, PeerAddr)| e.0),
                    config.remote_set(),
                    order::id_order(),
                )
                &&& forall|i: int|
                    0 <= i < plan.dial@.len() ==> (#[trigger] plan.dial@[i]).1
                        == config.peers@[plan.dial@[i].0]
                &&& order::lists(plan.watched@, config.watched_set(), order::id_order())
            },
            Err(RuntimeError::Config(m)) => config.fault() == Some(m@),
            Err(_) => false,
        },
{
    config.validate()?;
    let self_addr = match config.self_addr() {
        Some(a) => a,
        None => {
            return Err(RuntimeError::Config("missing this node's own address".to_owned()));
        },
    };
    let seed_voters = config.seed_voters();
    let as_learner = config.is_learner_join();
    let none: Vec<u64> = Vec::new();
    let registry = if as_learner {
        let all = ids::sorted_keys(&config.peers);
        let r = PeerRegistry::from_members(all.as_slice(), none.as_slice());
        assert(all@.to_set().union(none@.to_set()) =~= config.peers@.dom());
        r
    } else {
        let r = PeerRegistry::from_members(seed_voters.as_slice(), none.as_slice());
        assert(seed_voters@.to_set().union(none@.to_set()) =~= config.seed_set());
        r
    };
    Ok(
        StartPlan {
            self_addr,
            seed_voters,
            as_learner,
            registry,
            dial: config.remote_peers(),
            watched: config.remote_voters(),
        },
    )
}

/// A valid configuration watches only voters that it seeds, never the node itself and never a
/// learner-to-be; and it dials everybody but itself.
pub proof fn law_watched_are_remote_seeded_voters(config: &ClusterConfig, id: u64)
    ensures
        config.watched_set().contains(id) <==> config.seed_set().contains(id) && id
            != config.node_id,
        config.watched_set().contains(id) ==> config.remote_set().contains(id),
        config.pending_learners@.contains(id) ==> !config.watched_set().contains(id),
{
}

// ---- planning failovers ----

/// The partitions that `node` leads.
pub open spec fn led_by(placements: Map<u64, PlacementView>, node: u64) -> Set<u64> {
    placements.dom().filter(|p: u64| placements[p].leader == node)
}

/// The partitions that `node` currently leads, in id order, each with its placement.
#[must_use]
pub fn partitions_led_by(placements: &BTreeMap<u64, Placement>, node: u64) -> (r: Vec<
    (u64, Placement),
>)
    ensures
        order::lists(
            r@.map_values(|e: (u64, Placement)| e.0),
            led_by(state_machine::placement_views(placements@), node),
            order::id_order(),
        ),
        forall|i: int|
            0 <= i < r@.len() ==> (#[trigger] r@[i]).1@ == state_machine::placement_views(
                placements@,
            )[r@[i].0],
{
    let ghost views = state_machine::placement_views(placements@);
    let entries = ids::sorted_entries(placements);
    let ghost keys = ids::entry_keys(entries@);
    let ghost keep = |p: u64| views[p].leader == node;
    let ghost key_of = |e: (u64, Placement)| e.0;
    let mut r: Vec<(u64, Placement)> = Vec::new();
    let mut i: usize = 0;
    proof {
        reveal(Seq::filter);
        assert(r@.map_values(key_of) =~= keys.take(0).filter(keep));
    }
    while i < entries.len()
        invariant
            i <= entries@.len(),
            views == state_machine::placement_views(placements@),
            keys == ids::entry_keys(entries@),
            keep == (|p: u64| views[p].leader == node),
            key_of == (|e: (u64, Placement)| e.0),
            forall|j: int|
                0 <= j < entries@.len() ==> placements@.contains_key(entries@[j].0) && *(
                #[trigger] entries@[j]).1 == placements@[entries@[j].0],
            r@.map_values(key_of) == keys.take(i as int).filter(keep),
            forall|j: int| 0 <= j < r@.len() ==> (#[trigger] r@[j]).1@ == views[r@[j].0],
        decreases entries@.len() - i,
    {
        let ghost before = r@;
        assert(placements@.contains_key(entries@[i as int].0));
        if entries[i].1.leader == node {
            r.push((entries[i].0, entries[i].1.duplicate()));
            assert(r@.map_values(key_of) =~= before.map_values(key_of).push(keys[i as int]));
        }
        proof {
            order::lemma_filter_push(keys.take(i as int), keys[i as int], keep);
            assert(keys.take(i as int).push(keys[i as int]) =~= keys.take(i + 1));
        }
        i = i + 1;
    }
    proof {
        assert(keys.take(keys.len() as int) =~= keys);
        assert(views.dom() =~= placements@.dom());
        order::lemma_filter_listing(keys, views.dom(), order::id_order(), keep);
    }
    r
}

/// The test for ids other than `id`.
pub open spec fn other_than(id: u64) -> spec_fn(u64) -> bool {
    |n: u64| n != id
}

/// The ids of `ids` other than `id`, in their order.
pub fn without(ids: &Vec<u64>, id: u64) -> (r: Vec<u64>)
    ensures
        r@ == ids@.filter(other_than(id)),
{
    let ghost keep = other_than(id);
    let mut r: Vec<u64> = Vec::new();
    let mut i: usize = 0;
    proof {
        reveal(Seq::filter);
        assert(r@ =~= ids@.take(0).filter(keep));
    }
    while i < ids.len()
        invariant
            i <= ids@.len(),
            keep == other_than(id),
            r@ == ids@.take(i as int).filter(keep),
        decreases ids@.len() - i,
    {
        if ids[i] != id {
            r.push(ids[i]);
        }
        proof {
            order::lemma_filter_push(ids@.take(i as int), ids@[i as int], keep);
            assert(ids@.take(i as int).push(ids@[i as int]) =~= ids@.take(i + 1));
        }
        i = i + 1;
    }
    assert(ids@.take(ids@.len() as int) =~= ids@);
    r
}

/// The test for ids outside `gone`.
pub open spec fn outside(gone: Set<u64>) -> spec_fn(u64) -> bool {
    |n: u64| !gone.contains(n)
}

/// The ids of `ids` that are not in `gone`, in their order.
pub fn surviving(ids: &Vec<u64>, gone: &BTreeSet<u64>) -> (r: Vec<u64>)
    ensures
        r@ == ids@.filter(outside(gone@)),
{
    let ghost keep = outside(gone@);
    let mut r: Vec<u64> = Vec::new();
    let mut i: usize = 0;
    proof {
        reveal(Seq::filter);
        assert(r@ =~= ids@.take(0).filter(keep));
    }
    while i < ids.len()
        invariant
            i <= ids@.len(),
            keep == outside(gone@),
            r@ == ids@.take(i as int).filter(keep),
        decreases ids@.len() - i,
    {
        if !gone.contains(&ids[i]) {
            r.push(ids[i]);
        }
        proof {
            order::lemma_filter_push(ids@.take(i as int), ids@[i as int], keep);
            assert(ids@.take(i as int).push(ids@[i as int]) =~= ids@.take(i + 1));
        }
        i = i + 1;
    }
    assert(ids@.take(ids@.len() as int) =~= ids@);
    r
}

/// One partition that lost its leader: what the reassignment policy decides on.
#[derive(Debug, Clone, PartialEq, Eq)]
pub struct FailoverRequest {
    pub partition: u64,
    /// The departed leader.
    pub dead: u64,
    /// The replica set of the committed placement.
    pub replicas: Vec<u64>,
    /// The surviving replicas: those that have not departed.
    pub survivors: Vec<u64>,
    /// The epoch of the committed placement.
    pub epoch: u64,
}

/// A failover request as a mathematical value.
#[verifier::ext_equal]
pub struct RequestView {
    pub partition: u64,
    pub dead: u64,
    pub replicas: Seq<u64>,
    pub survivors: Seq<u64>,
    pub epoch: u64,
}

impl View for FailoverRequest {
    type V = RequestView;

    open spec fn view(&self) -> RequestView {
        RequestView {
            partition: self.partition,
            dead: self.dead,
            replicas: self.replicas@,
            survivors: self.survivors@,
            epoch: self.epoch,
        }
    }
}

/// The request for one partition that `dead` led, when the nodes of `departed` have departed.
pub open spec fn request_for(
    placements: Map<u64, PlacementView>,
    departed: Set<u64>,
    dead: u64,
    partition: u64,
) -> RequestView {
    RequestView {
        partition,
        dead,
        replicas: placements[partition].replicas,
        survivors: placements[partition].replicas.filter(outside(departed)),
        epoch: placements[partition].epoch,
    }
}

/// The requests for every partition that `dead` led, in id order.
pub open spec fn requests_of(
    placements: Map<u64, PlacementView>,
    departed: Set<u64>,
    dead: u64,
) -> Seq<RequestView> {
    order::sorted(led_by(placements, dead), order::id_order()).map_values(
        |p: u64| request_for(placements, departed, dead, p),
    )
}

/// The requests for every partition that one of the `dead` nodes led, node by node.
pub open spec fn requests_of_all(
    placements: Map<u64, PlacementView>,
    departed: Set<u64>,
    dead: Seq<u64>,
) -> Seq<RequestView>
    decreases dead.len(),
{
    if dead.len() == 0 {
        Seq::empty()
    } else {
        requests_of_all(placements, departed, dead.drop_last()) + requests_of(
            placements,
            departed,
            dead.last(),
        )
    }
}

/// The decisions that propose something, in order.
pub open spec fn proposed(outcomes: Seq<Option<MetadataCommand>>) -> Seq<MetadataCommand>
    decreases outcomes.len(),
{
    if outcomes.len() == 0 {
        Seq::empty()
    } else {
        match outcomes.last() {
            Some(c) => proposed(outcomes.drop_last()).push(c),
            None => proposed(outcomes.drop_last()),
        }
    }
}

/// `outcome` is a decision of the policy `reassign` on a request.
pub open spec fn decision_of<R: Fn(FailoverRequest) -> Option<MetadataCommand>>(
    reassign: R,
    request: RequestView,
    outcome: Option<MetadataCommand>,
) -> bool {
    exists|q: FailoverRequest| q@ == request && #[trigger] call_ensures(reassign, (q,), outcome)
}

/// `outcomes` are decisions of the policy `reassign` on `requests`, one for one.
pub open spec fn decided<R: Fn(FailoverRequest) -> Option<MetadataCommand>>(
    reassign: R,
    requests: Seq<RequestView>,
    outcomes: Seq<Option<MetadataCommand>>,
) -> bool {
    &&& outcomes.len() == requests.len()
    &&& forall|i: int|
        0 <= i < requests.len() ==> #[trigger] decision_of(reassign, requests[i], outcomes[i])
}

/// Plan the re-placements for a set of departed nodes: the policy `reassign` is asked once for
/// every partition that a departed node led, and its promotions are collected. A partition for
/// which it finds no eligible survivor gets no proposal.
#[must_use]
pub fn plan_failovers<R: Fn(FailoverRequest) -> Option<MetadataCommand>>(
    placements: &BTreeMap<u64, Placement>,
    departed: &BTreeSet<u64>,
    reassign: R,
) -> (r: Vec<MetadataCommand>)
    requires
        forall|q: FailoverRequest| call_requires(reassign, (q,)),
    ensures
        exists|outcomes: Seq<Option<MetadataCommand>>| #[trigger]
            decided(
                reassign,
                requests_of_all(
                    state_machine::placement_views(placements@),
                    departed@,
                    order::sorted(departed@, order::id_order()),
                ),
                outcomes,
            ) && r@ == proposed(outcomes),
{
    let ghost views = state_machine::placement_views(placements@);
    let gone = ids::sorted_ids(departed);
    proof {
        order::lemma_id_order();
        order::lemma_listing_is_sorted(gone@, departed@, order::id_order());
    }
    let mut proposals: Vec<MetadataCommand> = Vec::new();
    let ghost mut outcomes: Seq<Option<MetadataCommand>> = Seq::empty();
    let mut i: usize = 0;
    while i < gone.len()
        invariant
            i <= gone@.len(),
            views == state_machine::placement_views(placements@),
            forall|q: FailoverRequest| call_requires(reassign, (q,)),
            decided(reassign, requests_of_all(views, departed@, gone@.take(i as int)), outcomes),
            proposals@ == proposed(outcomes),
        decreases gone@.len() - i,
    {
        let dead: u64 = gone[i];
        let led = partitions_led_by(placements, dead);
        let ghost key_of = |e: (u64, Placement)| e.0;
        let ghost before = requests_of_all(views, departed@, gone@.take(i as int));
        let ghost mine = requests_of(views, departed@, dead);
        proof {
            order::lemma_id_order();
            order::lemma_listing_is_sorted(
                led@.map_values(key_of),
                led_by(views, dead),
                order::id_order(),
            );
            assert(before + mine.take(0) =~= before);
        }
        let mut j: usize = 0;
        while j < led.len()
            invariant
                j <= led@.len(),
                forall|q: FailoverRequest| call_requires(reassign, (q,)),
                key_of == (|e: (u64, Placement)| e.0),
                mine == requests_of(views, departed@, dead),
                led@.map_values(key_of) == order::sorted(led_by(views, dead), order::id_order()),
                forall|k: int| 0 <= k < led@.len() ==> (#[trigger] led@[k]).1@ == views[led@[k].0],
                decided(reassign, before + mine.take(j as int), outcomes),
                proposals@ == proposed(outcomes),
            decreases led@.len() - j,
        {
            let p: &Placement = &led[j].1;
            let q = FailoverRequest {
                partition: led[j].0,
                dead,
                replicas: command::copy_ids(&p.replicas),
                survivors: surviving(&p.replicas, departed),
                epoch: p.epoch,
            };
            let ghost asked = q;
            proof {
                assert(led@.map_values(key_of)[j as int] == led@[j as int].0);
                assert(asked@ =~= request_for(views, departed@, dead, led@[j as int].0));
                assert(mine[j as int] == asked@);
            }
            let outcome = reassign(q);
            let ghost said = outcome;
            match outcome {
                Some(c) => {
                    proposals.push(c);
                },
                None => {},
            }
            proof {
                let prior = outcomes;
                outcomes = prior.push(said);
                assert(outcomes.drop_last() =~= prior);
                let reqs = before + mine.take(j as int);
                let next = before + mine.take(j + 1);
                assert(next =~= reqs.push(mine[j as int]));
                assert forall|k: int| 0 <= k < next.len() implies #[trigger] decision_of(
                    reassign,
                    next[k],
                    outcomes[k],
                ) by {
                    if k < reqs.len() {
                        assert(decision_of(reassign, reqs[k], prior[k]));
                    } else {
                        assert(call_ensures(reassign, (asked,), said));
                    }
                }
                assert(decided(reassign, next, outcomes));
            }
            j = j + 1;
        }
        proof {
            assert(mine.len() == led@.map_values(key_of).len());
            assert(mine.take(mine.len() as int) =~= mine);
            assert(gone@.take(i + 1).drop_last() =~= gone@.take(i as int));
            assert(gone@.take(i + 1).last() == dead);
        }
        i = i + 1;
    }
    assert(gone@.take(gone@.len() as int) =~= gone@);
    proposals
}

/// A steady cluster plans no failover: without a departure there is nothing to decide.
pub proof fn law_no_departure_no_failover(placements: Map<u64, PlacementView>)
    ensures
        requests_of_all(
            placements,
            Set::<u64>::empty(),
            order::sorted(Set::<u64>::empty(), order::id_order()),
        ) == Seq::<RequestView>::empty(),
{
    order::lemma_id_order();
    let none = Seq::<u64>::empty();
    order::lemma_listing_is_sorted(none, Set::<u64>::empty(), order::id_order());
}

/// Nobody that has departed is among the survivors that the policy may choose from, and every
/// replica that has not departed is.
pub proof fn law_no_departed_node_is_a_survivor(
    placements: Map<u64, PlacementView>,
    departed: Set<u64>,
    dead: u64,
    partition: u64,
    node: u64,
)
    ensures
        request_for(placements, departed, dead, partition).survivors.contains(node)
            <==> placements[partition].replicas.contains(node) && !departed.contains(node),
{
    broadcast use vstd::seq_lib::group_filter_ensures;

    let replicas = placements[partition].replicas;
    let keep = outside(departed);
    if replicas.contains(node) && !departed.contains(node) {
        replicas.lemma_filter_contains(keep, replicas.index_of(node));
    }
    if replicas.filter(keep).contains(node) {
        replicas.lemma_filter_contains_rev(keep, node);
    }
}


/// What the policy is asked for one partition: exactly what is committed of it, and the replicas
/// that have not departed, in their order.
pub proof fn law_request_says_what_is_committed(
    placements: Map<u64, PlacementView>,
    departed: Set<u64>,
    dead: u64,
    partition: u64,
)
    ensures
        ({
            let q = request_for(placements, departed, dead, partition);
            &&& q.partition == partition
            &&& q.dead == dead
            &&& q.replicas == placements[partition].replicas
            &&& q.epoch == placements[partition].epoch
            &&& q.survivors == placements[partition].replicas.filter(
                |n: u64| !departed.contains(n),
            )
        }),
{
    assert(outside(departed) =~= |n: u64| !departed.contains(n));
}

/// A partition is led by the node that its placement names, and by no other.
pub proof fn law_led_partitions_name_their_leader(
    placements: Map<u64, PlacementView>,
    node: u64,
    p: u64,
)
    ensures
        led_by(placements, node).contains(p) <==> placements.contains_key(p) && placements[p].leader
            == node,
{
}

proof fn lemma_requests_of(
    placements: Map<u64, PlacementView>,
    departed: Set<u64>,
    dead: u64,
)
    requires
        placements.dom().finite(),
    ensures
        ({
            let rs = requests_of(placements, departed, dead);
            &&& forall|i: int|
                0 <= i < rs.len() ==> (#[trigger] rs[i]).dead == dead && placements.contains_key(
                    rs[i].partition,
                ) && placements[rs[i].partition].leader == dead && rs[i] == request_for(
                    placements,
                    departed,
                    dead,
                    rs[i].partition,
                )
            &&& forall|i: int, j: int|
                0 <= i < j < rs.len() ==> (#[trigger] rs[i]).partition < (
                #[trigger] rs[j]).partition
            &&& forall|p: u64| #[trigger]
                placements.contains_key(p) && placements[p].leader == dead ==> exists|i: int|
                    0 <= i < rs.len() && (#[trigger] rs[i]).partition == p
        }),
{
    let set = led_by(placements, dead);
    let ids = order::id_order();
    let keys = order::sorted(set, ids);
    let rs = requests_of(placements, departed, dead);
    order::lemma_id_order();
    order::lemma_sorted(set, ids);
    assert forall|i: int| 0 <= i < rs.len() implies (#[trigger] rs[i]).dead == dead
        && placements.contains_key(rs[i].partition) && placements[rs[i].partition].leader == dead
        && rs[i] == request_for(placements, departed, dead, rs[i].partition) by {
        assert(keys.contains(keys[i]));
        assert(set.contains(keys[i]));
    }
    assert forall|i: int, j: int| 0 <= i < j < rs.len() implies (#[trigger] rs[i]).partition < (
    #[trigger] rs[j]).partition by {
        assert(ids(keys[i], keys[j]));
    }
    assert forall|p: u64| #[trigger]
        placements.contains_key(p) && placements[p].leader == dead implies exists|i: int|
        0 <= i < rs.len() && (#[trigger] rs[i]).partition == p by {
        assert(set.contains(p));
        assert(keys.contains(p));
        let i = choose|i: int| 0 <= i < keys.len() && keys[i] == p;
        assert(rs[i].partition == p);
    }
}

/// The requests of a list of dead nodes are those of the nodes in the order of the list.
pub proof fn law_requests_follow_the_departures(
    placements: Map<u64, PlacementView>,
    departed: Set<u64>,
    dead: Seq<u64>,
    next: u64,
)
    ensures
        requests_of_all(placements, departed, Seq::empty()) == Seq::<RequestView>::empty(),
        requests_of_all(placements, departed, dead.push(next)) == requests_of_all(
            placements,
            departed,
            dead,
        ) + requests_of(placements, departed, next),
{
    assert(dead.push(next).drop_last() =~= dead);
}

/// The policy is asked about every orphan and about nothing else: each partition whose leader is on
/// the list of the dead has a request that names it and that leader, and each request is for such a
/// partition, with the survivors, replicas and epoch of its placement.
pub proof fn law_every_orphan_is_asked_about(
    placements: Map<u64, PlacementView>,
    departed: Set<u64>,
    dead: Seq<u64>,
)
    requires
        placements.dom().finite(),
    ensures
        forall|p: u64| #[trigger]
            placements.contains_key(p) && dead.contains(placements[p].leader) ==> exists|i: int|
                0 <= i < requests_of_all(placements, departed, dead).len() && (
                #[trigger] requests_of_all(placements, departed, dead)[i]).partition == p,
        forall|i: int|
            0 <= i < requests_of_all(placements, departed, dead).len() ==> {
                let q = #[trigger] requests_of_all(placements, departed, dead)[i];
                &&& placements.contains_key(q.partition)
                &&& dead.contains(q.dead)
                &&& q.dead == placements[q.partition].leader
                &&& q.replicas == placements[q.partition].replicas
                &&& q.epoch == placements[q.partition].epoch
                &&& q.survivors == placements[q.partition].replicas.filter(
                    |n: u64| !departed.contains(n),
                )
            },
    decreases dead.len(),
{
    let all = requests_of_all(placements, departed, dead);
    if dead.len() > 0 {
        let init = dead.drop_last();
        let last = dead.last();
        let before = requests_of_all(placements, departed, init);
        let mine = requests_of(placements, departed, last);
        law_every_orphan_is_asked_about(placements, departed, init);
        lemma_requests_of(placements, departed, last);
        assert(all == before + mine);
        assert(dead[dead.len() - 1] == last);
        assert forall|p: u64| #[trigger]
            placements.contains_key(p) && dead.contains(placements[p].leader) implies exists|i: int|
            0 <= i < all.len() && (#[trigger] all[i]).partition == p by {
            let leader = placements[p].leader;
            if leader == last {
                let k = choose|k: int| 0 <= k < mine.len() && (#[trigger] mine[k]).partition == p;
                assert(all[before.len() + k] == mine[k]);
            } else {
                let d = choose|d: int| 0 <= d < dead.len() && dead[d] == leader;
                assert(init[d] == leader);
                assert(init.contains(leader));
                let k = choose|k: int|
                    0 <= k < before.len() && (#[trigger] before[k]).partition == p;
                assert(all[k] == before[k]);
            }
        }
        assert forall|i: int| 0 <= i < all.len() implies {
            let q = #[trigger] all[i];
            &&& placements.contains_key(q.partition)
            &&& dead.contains(q.dead)
            &&& q.dead == placements[q.partition].leader
            &&& q.replicas == placements[q.partition].replicas
            &&& q.epoch == placements[q.partition].epoch
            &&& q.survivors == placements[q.partition].replicas.filter(
                |n: u64| !departed.contains(n),
            )
        } by {
            if i < before.len() {
                let q = before[i];
                assert(all[i] == q);
                assert(init.contains(q.dead));
                let d = choose|d: int| 0 <= d < init.len() && init[d] == q.dead;
                assert(dead[d] == q.dead);
            } else {
                let q = mine[i - before.len()];
                assert(all[i] == q);
                law_request_says_what_is_committed(placements, departed, last, q.partition);
            }
        }
    }
}

/// The plan holds the policy's proposals, all of them and nothing else, in the order in which they
/// were decided: a decision to propose nothing adds nothing, and one to propose adds its command at
/// the end.
pub proof fn law_plan_holds_every_proposal(
    outcomes: Seq<Option<MetadataCommand>>,
    more: Seq<Option<MetadataCommand>>,
    c: MetadataCommand,
)
    ensures
        proposed(Seq::empty()) == Seq::<MetadataCommand>::empty(),
        proposed(outcomes.push(None)) == proposed(outcomes),
        proposed(outcomes.push(Some(c))) == proposed(outcomes).push(c),
        proposed(outcomes + more) == proposed(outcomes) + proposed(more),
        proposed(outcomes).len() <= outcomes.len(),
    decreases more.len(), outcomes.len(),
{
    assert(outcomes.push(None).drop_last() =~= outcomes);
    assert(outcomes.push(Some(c)).drop_last() =~= outcomes);
    if more.len() == 0 {
        assert(outcomes + more =~= outcomes);
    } else {
        law_plan_holds_every_proposal(outcomes, more.drop_last(), c);
        assert((outcomes + more).drop_last() =~= outcomes + more.drop_last());
        assert((outcomes + more).last() == more.last());
        assert(proposed(outcomes + more) =~= proposed(outcomes) + proposed(more));
    }
    if outcomes.len() > 0 {
        law_plan_holds_every_proposal(outcomes.drop_last(), Seq::empty(), c);
    }
}

/// The decisions of a plan are the policy's, one for each request and on that very request.
pub proof fn law_decisions_are_the_policys<R: Fn(FailoverRequest) -> Option<MetadataCommand>>(
    reassign: R,
    requests: Seq<RequestView>,
    outcomes: Seq<Option<MetadataCommand>>,
    i: int,
)
    requires
        decided(reassign, requests, outcomes),
        0 <= i < requests.len(),
    ensures
        outcomes.len() == requests.len(),
        exists|q: FailoverRequest|
            {
                &&& q.partition == requests[i].partition
                &&& q.dead == requests[i].dead
                &&& q.replicas@ == requests[i].replicas
                &&& q.survivors@ == requests[i].survivors
                &&& q.epoch == requests[i].epoch
                &&& #[trigger] call_ensures(reassign, (q,), outcomes[i])
            },
{
    assert(decision_of(reassign, requests[i], outcomes[i]));
    let q = choose|q: FailoverRequest|
        q@ == requests[i] && #[trigger] call_ensures(reassign, (q,), outcomes[i]);
    assert(q.partition == q@.partition && q.dead == q@.dead && q.epoch == q@.epoch);
    assert(q.replicas@ == q@.replicas && q.survivors@ == q@.survivors);
    assert(call_ensures(reassign, (q,), outcomes[i]));
}

// ---- laws of the configuration ----

/// The data-plane port stands the offset above the metadata port; a port that the system assigns
/// stays so, and one at the end of the range stays at it.
pub proof fn law_dataplane_port_is_offset(port: u16, other: u16)
    ensures
        0 < port <= u16::MAX - DATAPLANE_PORT_OFFSET ==> dataplane_port(port) == port
            + DATAPLANE_PORT_OFFSET,
        port > u16::MAX - DATAPLANE_PORT_OFFSET ==> dataplane_port(port) == u16::MAX,
        dataplane_port(port) == 0 <==> port == 0,
        port <= other ==> dataplane_port(port) <= dataplane_port(other),
        port < other <= u16::MAX - DATAPLANE_PORT_OFFSET ==> dataplane_port(port)
            != dataplane_port(other),
{
}

/// Who is who in a configuration: a seeded voter is in the address book, is no learner-to-be, and
/// is not this node where it joins as a learner; a remote peer is anybody else in the book; and the
/// watched are the seeded voters among those.
pub proof fn law_address_book_says_who_is_who(config: &ClusterConfig, id: u64)
    ensures
        ({
            let listed = config.peers@.contains_key(id);
            let joins = config.role == StartRole::Learner && id == config.node_id;
            let pending = config.pending_learners@.contains(id);
            &&& config.seed_set().contains(id) <==> listed && !pending && !joins
            &&& config.remote_set().contains(id) <==> listed && id != config.node_id
            &&& config.watched_set().contains(id) <==> listed && !pending && id != config.node_id
        }),
{
}

/// A starting voter takes messages of the seeded voters only; a joining learner takes them of
/// everybody in the address book; and nobody takes them of the invalid id.
pub proof fn law_initial_senders_are_known(config: &ClusterConfig, id: u64)
    ensures
        initial_senders(config).contains(id) <==> id != INVALID_ID && config.peers@.contains_key(id)
            && (config.role == StartRole::Learner || !config.pending_learners@.contains(id)),
{
}

/// A configuration is valid if and only if this node is in the address book, the invalid id is not,
/// and one, three or five voters are seeded; else the first of these that fails is reported.
pub proof fn law_configuration_faults(config: &ClusterConfig)
    ensures
        ({
            let here = config.peers@.contains_key(config.node_id);
            let reserved = config.peers@.contains_key(0);
            let n = config.seed_set().len();
            let quorum = n == 1 || n == 3 || n == 5;
            &&& config.fault() is None <==> here && !reserved && quorum
            &&& !here ==> config.fault() == Some(
                "node id "@ + text::decimal(config.node_id as nat)
                    + " is not in the configured peer set"@,
            )
            &&& here && reserved ==> config.fault() == Some(
                "node id 0 is reserved (raft INVALID_ID) and cannot be a cluster member"@,
            )
            &&& here && !reserved && !quorum ==> config.fault() == Some(
                "cluster seeded voter count "@ + text::decimal(n)
                    + " is unsupported (must be 1, 3, or 5)"@,
            )
        }),
{
}

/// A node that has published nothing leads nothing, counts nobody and knows of nothing.
pub proof fn law_initial_status_is_blank(node_id: u64, id: u64)
    ensures
        ({
            let s = initial_status(node_id);
            &&& s.node_id == node_id
            &&& !s.is_leader
            &&& !s.health_failed
            &&& s.leader_epoch == 0
            &&& s.voter_count == 0
            &&& s.applied_index == 0
            &&& s.snapshot_index == 0
            &&& !s.placements.contains_key(id)
            &&& !s.last_committed_hw.contains_key(id)
            &&& !s.departed_members.contains(id)
            &&& !s.suspected_dead.contains(id)
            &&& !s.failover_proposed.contains(id)
            &&& !s.learners.contains(id)
            &&& !s.learners_promoted.contains(id)
        }),
{
}

/// A startup error says what could not be done, and why.
pub proof fn law_startup_errors_say_why(why: String)
    ensures
        RuntimeError::Config(why).text() == "invalid cluster config: "@ + why@,
        RuntimeError::Group(why).text() == "cannot open metadata group: "@ + why@,
        RuntimeError::Listen(why).text() == "cannot bind cluster peer listener: "@ + why@,
{
}


/// A node that has fail-stopped says so and is no leader, and stays with what it last published.
pub proof fn law_fail_stop_keeps_what_was_published(s: StatusView)
    ensures
        s.fail_stopped().health_failed,
        !s.fail_stopped().is_leader,
        s.fail_stopped().node_id == s.node_id,
        s.fail_stopped().leader_epoch == s.leader_epoch,
        s.fail_stopped().voter_count == s.voter_count,
        s.fail_stopped().applied_index == s.applied_index,
        s.fail_stopped().placements == s.placements,
        s.fail_stopped().last_committed_hw == s.last_committed_hw,
        s.fail_stopped().departed_members == s.departed_members,
        s.fail_stopped().suspected_dead == s.suspected_dead,
        s.fail_stopped().failover_proposed == s.failover_proposed,
        s.fail_stopped().learners == s.learners,
        s.fail_stopped().learners_promoted == s.learners_promoted,
        s.fail_stopped().snapshot_index == s.snapshot_index,
{
}

/// A sleep is cut into slices that add up to it: each is at most a slice long, and a whole one as
/// long as that much is left.
pub proof fn law_sleep_slices_add_up(left: u64, r: (u64, u64))
    requires
        call_ensures(sleep_slice, (left,), r),
    ensures
        r.0 + r.1 == left,
        left >= SLEEP_SLICE_NANOS ==> r.0 == SLEEP_SLICE_NANOS,
        left < SLEEP_SLICE_NANOS ==> r.1 == 0,
{
}

/// A message is queued if and only if its peer is known and its queue is not full.
pub proof fn law_full_queues_take_nothing(depth: Option<usize>, r: bool)
    requires
        call_ensures(may_enqueue, (depth,), r),
    ensures
        depth is None ==> !r,
        depth matches Some(n) ==> (r <==> n + 1 <= PEER_OUTBOUND_BOUND),
{
}

/// A duration is counted exactly as long as it can be, and never wraps.
pub proof fn law_durations_never_wrap(nanos: u128, r: u64)
    requires
        call_ensures(duration_to_nanos, (nanos,), r),
    ensures
        nanos <= u64::MAX ==> r == nanos,
        nanos > u64::MAX ==> r == u64::MAX,
{
}

/// The data plane listens on the host of the metadata plane, on the offset port.
pub proof fn law_dataplane_shares_the_host(addr: &PeerAddr, r: PeerAddr)
    requires
        call_ensures(dataplane_addr, (addr,), r),
    ensures
        r.host == addr.host,
        0 < addr.port < u16::MAX - DATAPLANE_PORT_OFFSET ==> r.port == addr.port
            + DATAPLANE_PORT_OFFSET,
{
}

/// What is planned for a valid configuration: the listener binds this node's own address; the group
/// is opened with exactly the seeded voters; every other member is dialed at its own address; and
/// the watched are the other seeded voters, all in increasing order.
pub proof fn law_start_follows_the_configuration(config: &ClusterConfig, plan: StartPlan)
    requires
        call_ensures(plan_start, (config,), Ok(plan)),
    ensures
        config.peers@.contains_key(config.node_id),
        plan.self_addr == config.peers@[config.node_id],
        plan.as_learner <==> config.role == StartRole::Learner,
        plan.seed_voters@.len() == 1 || plan.seed_voters@.len() == 3 || plan.seed_voters@.len() == 5,
        forall|id: u64| #[trigger]
            plan.seed_voters@.contains(id) <==> config.peers@.contains_key(id)
                && !config.pending_learners@.contains(id) && !(config.role == StartRole::Learner
                && id == config.node_id),
        forall|id: u64| #[trigger]
            plan.watched@.contains(id) <==> config.peers@.contains_key(id)
                && !config.pending_learners@.contains(id) && id != config.node_id,
        forall|i: int|
            0 <= i < plan.dial@.len() ==> (#[trigger] plan.dial@[i]).0 != config.node_id
                && config.peers@.contains_key(plan.dial@[i].0) && plan.dial@[i].1
                == config.peers@[plan.dial@[i].0],
        forall|id: u64| #[trigger]
            config.peers@.contains_key(id) && id != config.node_id ==> exists|i: int|
                0 <= i < plan.dial@.len() && (#[trigger] plan.dial@[i]).0 == id,
        forall|id: u64| #[trigger]
            plan.registry@.contains(id) <==> id != 0 && config.peers@.contains_key(id) && (
            config.role == StartRole::Learner || !config.pending_learners@.contains(id)),
{
    let ids = order::id_order();
    order::lemma_id_order();
    order::lemma_listing_len(plan.seed_voters@, config.seed_set(), ids);
    let keys = plan.dial@.map_values(|e: (u64, PeerAddr)| e.0);
    assert forall|i: int| 0 <= i < plan.dial@.len() implies (#[trigger] plan.dial@[i]).0
        != config.node_id && config.peers@.contains_key(plan.dial@[i].0) && plan.dial@[i].1
        == config.peers@[plan.dial@[i].0] by {
        assert(keys[i] == plan.dial@[i].0);
        assert(keys.contains(keys[i]));
    }
    assert forall|id: u64| #[trigger]
        config.peers@.contains_key(id) && id != config.node_id implies exists|i: int|
        0 <= i < plan.dial@.len() && (#[trigger] plan.dial@[i]).0 == id by {
        assert(config.remote_set().contains(id));
        assert(keys.contains(id));
        let i = choose|i: int| 0 <= i < keys.len() && keys[i] == id;
        assert(plan.dial@[i].0 == id);
    }
    assert forall|id: u64| #[trigger]
        plan.registry@.contains(id) <==> id != 0 && config.peers@.contains_key(id) && (config.role
            == StartRole::Learner || !config.pending_learners@.contains(id)) by {
        law_initial_senders_are_known(config, id);
    }
}


/// What is left of a list without an id is every other id, in the order of the list; and what
/// survives of it is every id that has not departed.
pub proof fn law_lists_keep_their_order(
    ids: &Vec<u64>,
    id: u64,
    gone: &BTreeSet<u64>,
    rest: Vec<u64>,
    left: Vec<u64>,
)
    requires
        call_ensures(without, (ids, id), rest),
        call_ensures(surviving, (ids, gone), left),
    ensures
        rest@ == ids@.filter(|n: u64| n != id),
        left@ == ids@.filter(|n: u64| !gone@.contains(n)),
{
    assert(other_than(id) =~= |n: u64| n != id);
    assert(outside(gone@) =~= |n: u64| !gone@.contains(n));
}


/// The bounds in numbers: the data plane listens one port up, a queue holds 1024 messages, and a
/// sleep is cut into slices of twenty milliseconds.
pub proof fn law_bounds_in_numbers(port: u16, depth: usize, queued: bool, left: u64, r: (u64, u64))
    requires
        call_ensures(may_enqueue, (Some(depth),), queued),
        call_ensures(sleep_slice, (left,), r),
    ensures
        0 < port < u16::MAX ==> dataplane_port(port) == port + 1,
        queued <==> depth < 1024,
        left >= 20_000_000 ==> r.0 == 20_000_000,
        left < 20_000_000 ==> r.0 == left,
{
}

}
