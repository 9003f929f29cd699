//! The rules of the data-plane server: which role a node holds for each partition, how many
//! inbound readers it admits, and what a reader or a follower does with each frame.

use std::collections::BTreeMap;
use vstd::prelude::*;
use vstd::std_specs::btree::*;

use crate::cluster::command;
use crate::cluster::command::{Placement, PlacementView};
use crate::cluster::dataplane::{DataPlaneVerb, DataPlaneWireError};
use crate::cluster::ids;
use crate::cluster::order;
use crate::cluster::runtime;
use crate::cluster::runtime::PeerAddr;
use crate::cluster::state_machine;
use crate::cluster::transport::{is_timeout, IoFault};
use crate::text;

verus! {

broadcast use {vstd::laws_cmp::group_laws_cmp, group_btree_axioms};

/// How long the budget of a committed-high-watermark confirm is.
pub const HW_CONFIRM_TIMEOUT_NANOS: u64 = 500_000_000;

/// How long a data-plane thread waits between looks at the shutdown flag.
pub const DATAPLANE_POLL_NANOS: u64 = 100_000_000;

/// The floor, and the default, of the cap on concurrent inbound readers.
pub const DEFAULT_MIN_DATAPLANE_READERS: usize = 256;

// ---- roles ----

/// The role of a node for one partition.
#[derive(Debug, Clone, Copy, PartialEq, Eq, Structural)]
pub enum PlacementRole {
    Leader,
    Follower,
    /// The node holds no replica.
    Unassigned,
}

/// The role that a committed placement gives a node.
pub open spec fn role_in(node: u64, p: PlacementView) -> PlacementRole {
    if p.leader == node {
        PlacementRole::Leader
    } else if p.replicas.contains(node) {
        PlacementRole::Follower
    } else {
        PlacementRole::Unassigned
    }
}

/// The role that a committed placement gives `node`.
pub fn role_for_placement(node: u64, placement: &Placement) -> (r: PlacementRole)
    ensures
        r == role_in(node, placement@),
{
    if placement.leader == node {
        PlacementRole::Leader
    } else if command::contains_id(&placement.replicas, node) {
        PlacementRole::Follower
    } else {
        PlacementRole::Unassigned
    }
}

/// The roles of a node: the partitions that it leads, with their replica sets, and the partitions
/// that it follows, with the leader to fetch from.
#[derive(Debug, Clone)]
pub struct DataPlaneServer {
    node_id: u64,
    led: BTreeMap<u64, Vec<u64>>,
    follower_targets: BTreeMap<u64, u64>,
}

/// The roles of a node as a mathematical value.
#[verifier::ext_equal]
pub struct ServerView {
    pub node_id: u64,
    pub led: Map<u64, Seq<u64>>,
    pub targets: Map<u64, u64>,
}

/// Replica sets as sequences.
pub open spec fn replica_views(m: Map<u64, Vec<u64>>) -> Map<u64, Seq<u64>> {
    m.map_values(|v: Vec<u64>| v@)
}

impl View for DataPlaneServer {
    type V = ServerView;

    closed spec fn view(&self) -> ServerView {
        ServerView {
            node_id: self.node_id,
            led: replica_views(self.led@),
            targets: self.follower_targets@,
        }
    }
}

/// The roles that `placements` give `node`.
pub open spec fn roles_from(node: u64, placements: Map<u64, PlacementView>) -> ServerView {
    ServerView {
        node_id: node,
        led: Map::new(
            |p: u64|
                placements.contains_key(p) && role_in(node, placements[p])
                    == PlacementRole::Leader,
            |p: u64| placements[p].replicas,
        ),
        targets: Map::new(
            |p: u64|
                placements.contains_key(p) && role_in(node, placements[p])
                    == PlacementRole::Follower,
            |p: u64| placements[p].leader,
        ),
    }
}

/// The followers of the led partitions `keys`, counted partition by partition.
pub open spec fn fanout(keys: Seq<u64>, led: Map<u64, Seq<u64>>, node: u64) -> nat
    decreases keys.len(),
{
    if keys.len() == 0 {
        0
    } else {
        fanout(keys.drop_last(), led, node) + led[keys.last()].filter(
            runtime::other_than(node),
        ).len()
    }
}

impl ServerView {
    /// The inbound links that a node legitimately has as a leader: one for each follower of each
    /// partition that it leads. Partitions that it follows add nothing.
    pub open spec fn inbound_links(self) -> nat {
        fanout(order::sorted(self.led.dom(), order::id_order()), self.led, self.node_id)
    }
}

/// A count as a `usize`, saturating.
pub open spec fn saturated_usize(n: nat) -> usize {
    if n <= usize::MAX {
        n as usize
    } else {
        usize::MAX
    }
}

/// The error of a led partition for which no read plane was supplied.
pub open spec fn no_plane_text(partition: u64) -> Seq<char> {
    "no leader read plane supplied for led partition "@ + text::decimal(partition as nat)
}

/// The outcome of starting the role of partition `p`: `None` where it starts, else the error.
pub open spec fn start_outcome<L: Fn(u64) -> bool, R: Fn(u64) -> Result<(), String>>(
    node: u64,
    placements: Map<u64, PlacementView>,
    leader_plane_for: L,
    open_replica_log: R,
    p: u64,
    outcome: Option<Seq<char>>,
) -> bool {
    match role_in(node, placements[p]) {
        PlacementRole::Leader => match outcome {
            None => call_ensures(leader_plane_for, (p,), true),
            Some(e) => call_ensures(leader_plane_for, (p,), false) && e == no_plane_text(p),
        },
        PlacementRole::Follower => match outcome {
            None => call_ensures(open_replica_log, (p,), Ok::<(), String>(())),
            Some(e) => exists|s: String| #[trigger]
                call_ensures(open_replica_log, (p,), Err::<(), String>(s)) && s@ == e,
        },
        PlacementRole::Unassigned => outcome is None,
    }
}

/// What reconciling a partition to a new placement asks for.
#[derive(Debug, Clone, Copy, PartialEq, Eq, Structural)]
pub enum ReconcileAction {
    /// Nothing changes for this node.
    Keep,
    /// Promote this node in place, over the log that it already holds.
    Promote,
    /// Fetch from another leader.
    Retarget { leader: u64 },
}

/// The action for a partition. A node that already leads the partition keeps it; one that already
/// follows the placement's leader keeps doing so.
pub open spec fn reconcile_action(
    s: ServerView,
    partition: u64,
    placement: PlacementView,
) -> ReconcileAction {
    match role_in(s.node_id, placement) {
        PlacementRole::Leader => if s.led.contains_key(partition) {
            ReconcileAction::Keep
        } else {
            ReconcileAction::Promote
        },
        PlacementRole::Follower => if s.targets.contains_key(partition) && s.targets[partition]
            == placement.leader {
            ReconcileAction::Keep
        } else {
            ReconcileAction::Retarget { leader: placement.leader }
        },
        PlacementRole::Unassigned => ReconcileAction::Keep,
    }
}

/// The roles after an action has been carried out.
pub open spec fn reconciled(
    s: ServerView,
    partition: u64,
    placement: PlacementView,
    action: ReconcileAction,
) -> ServerView {
    match action {
        ReconcileAction::Keep => s,
        ReconcileAction::Promote => ServerView {
            led: s.led.insert(partition, placement.replicas),
            targets: s.targets.remove(partition),
            ..s
        },
        ReconcileAction::Retarget { leader } => ServerView {
            targets: s.targets.insert(partition, leader),
            ..s
        },
    }
}

/// Reconciling is idempotent: once a placement has been taken up, taking it up again changes
/// nothing.
pub proof fn law_reconcile_is_idempotent(
    s: ServerView,
    partition: u64,
    placement: PlacementView,
)
    ensures
        ({
            let t = reconciled(
                s,
                partition,
                placement,
                reconcile_action(s, partition, placement),
            );
            reconcile_action(t, partition, placement) == ReconcileAction::Keep
        }),
{
}

/// Reconciling converges: afterwards a node that the placement names leader leads the partition
/// and fetches it from nobody new, and a node that the placement names follower fetches from the
/// placement's leader. No other partition is touched.
pub proof fn law_reconcile_follows_the_placement(
    s: ServerView,
    partition: u64,
    placement: PlacementView,
    other: u64,
)
    ensures
        ({
            let t = reconciled(
                s,
                partition,
                placement,
                reconcile_action(s, partition, placement),
            );
            &&& role_in(s.node_id, placement) == PlacementRole::Leader ==> t.led.contains_key(
                partition,
            )
            &&& role_in(s.node_id, placement) == PlacementRole::Follower
                ==> t.targets.contains_key(partition) && t.targets[partition] == placement.leader
            &&& other != partition ==> (t.led.contains_key(other) <==> s.led.contains_key(other))
                && (t.targets.contains_key(other) <==> s.targets.contains_key(other))
                && t.led[other] == s.led[other] && t.targets[other] == s.targets[other]
        }),
{
}

/// Every partition has one role only: what a node leads it does not follow.
pub proof fn law_roles_are_disjoint(node: u64, placements: Map<u64, PlacementView>, p: u64)
    ensures
        !(roles_from(node, placements).led.contains_key(p) && roles_from(
            node,
            placements,
        ).targets.contains_key(p)),
        placements.contains_key(p) && role_in(node, placements[p]) == PlacementRole::Unassigned
            ==> !roles_from(node, placements).led.contains_key(p) && !roles_from(
            node,
            placements,
        ).targets.contains_key(p),
{
}

proof fn lemma_replica_views(m: Map<u64, Vec<u64>>, k: u64, v: Vec<u64>)
    ensures
        replica_views(m.insert(k, v)) == replica_views(m).insert(k, v@),
        replica_views(m).dom() == m.dom(),
{
    assert(replica_views(m.insert(k, v)) =~= replica_views(m).insert(k, v@));
    assert(replica_views(m).dom() =~= m.dom());
}

/// `m` without the keys that are not in `keys`.
spec fn limited(m: Map<u64, PlacementView>, keys: Seq<u64>) -> Map<u64, PlacementView> {
    m.restrict(keys.to_set())
}

impl DataPlaneServer {
    /// A node with no roles.
    #[must_use]
    pub fn new(node_id: u64) -> (s: DataPlaneServer)
        ensures
            s@ == (ServerView { node_id, led: Map::empty(), targets: Map::empty() }),
    {
        let s = DataPlaneServer {
            node_id,
            led: BTreeMap::new(),
            follower_targets: BTreeMap::new(),
        };
        assert(replica_views(s.led@) =~= Map::empty());
        s
    }

    /// This node's cluster id.
    #[must_use]
    pub fn node_id(&self) -> (id: u64)
        ensures
            id == self@.node_id,
    {
        self.node_id
    }

    /// Whether this node leads `partition`.
    #[must_use]
    pub fn is_leader(&self, partition: u64) -> (r: bool)
        ensures
            r == self@.led.contains_key(partition),
    {
        self.led.contains_key(&partition)
    }

    /// The leader that this node follows for `partition`, if it follows it.
    #[must_use]
    pub fn follower_leader(&self, partition: u64) -> (r: Option<u64>)
        ensures
            match r {
                Some(l) => self@.targets.contains_key(partition) && l == self@.targets[partition],
                None => !self@.targets.contains_key(partition),
            },
    {
        match self.follower_targets.get(&partition) {
            Some(l) => Some(*l),
            None => None,
        }
    }

    /// The partitions that this node follows, in id order, each with the leader to fetch from.
    #[must_use]
    pub fn follower_partitions(&self) -> (r: Vec<(u64, u64)>)
        ensures
            order::lists(
                r@.map_values(|e: (u64, u64)| e.0),
                self@.targets.dom(),
                order::id_order(),
            ),
            forall|i: int|
                0 <= i < r@.len() ==> (#[trigger] r@[i]).1 == self@.targets[r@[i].0],
    {
        let entries = ids::sorted_entries(&self.follower_targets);
        let ghost keys = ids::entry_keys(entries@);
        let ghost key_of = |e: (u64, u64)| e.0;
        let mut r: Vec<(u64, u64)> = Vec::new();
        let mut i: usize = 0;
        assert(r@.map_values(key_of) =~= keys.take(0));
        while i < entries.len()
            invariant
                i <= entries@.len(),
                keys == ids::entry_keys(entries@),
                key_of == (|e: (u64, u64)| e.0),
                forall|j: int|
                    0 <= j < entries@.len() ==> *(#[trigger] entries@[j]).1
                        == self.follower_targets@[entries@[j].0],
                r@.map_values(key_of) == keys.take(i as int),
                forall|j: int|
                    0 <= j < r@.len() ==> (#[trigger] r@[j]).1 == self@.targets[r@[j].0],
            decreases entries@.len() - i,
        {
            let ghost prior = r@;
            r.push((entries[i].0, *entries[i].1));
            proof {
                assert(r@.map_values(key_of) =~= prior.map_values(key_of).push(keys[i as int]));
                assert(keys.take(i as int).push(keys[i as int]) =~= keys.take(i + 1));
            }
            i = i + 1;
        }
        assert(keys.take(keys.len() as int) =~= keys);
        r
    }

    /// The inbound links that this node legitimately has as a leader.
    #[must_use]
    pub fn led_inbound_link_count(&self) -> (n: usize)
        ensures
            n == saturated_usize(self@.inbound_links()),
    {
        let entries = ids::sorted_entries(&self.led);
        let ghost keys = ids::entry_keys(entries@);
        let ghost led = self@.led;
        proof {
            order::lemma_id_order();
            assert(led.dom() =~= self.led@.dom());
            order::lemma_listing_is_sorted(keys, led.dom(), order::id_order());
        }
        let mut n: usize = 0;
        let mut i: usize = 0;
        while i < entries.len()
            invariant
                i <= entries@.len(),
                keys == ids::entry_keys(entries@),
                led == replica_views(self.led@),
                forall|j: int|
                    0 <= j < entries@.len() ==> self.led@.contains_key(entries@[j].0) && *(
                    #[trigger] entries@[j]).1 == self.led@[entries@[j].0],
                n == saturated_usize(fanout(keys.take(i as int), led, self.node_id)),
            decreases entries@.len() - i,
        {
            let others = runtime::without(entries[i].1, self.node_id);
            n = n.saturating_add(others.len());
            proof {
                assert(self.led@.contains_key(entries@[i as int].0));
                assert(led[keys[i as int]] == entries@[i as int].1@);
                assert(keys.take(i + 1).drop_last() =~= keys.take(i as int));
                assert(keys.take(i + 1).last() == keys[i as int]);
            }
            i = i + 1;
        }
        assert(keys.take(keys.len() as int) =~= keys);
        n
    }

    /// Follow `partition` from `leader`.
    pub fn set_follower_target(&mut self, partition: u64, leader: u64)
        ensures
            final(self)@ == (ServerView {
                targets: old(self)@.targets.insert(partition, leader),
                ..old(self)@
            }),
    {
        self.follower_targets.insert(partition, leader);
    }

    /// Take up the roles that the committed placements give `node_id`, partition by partition in
    /// id order. A leader role needs a read plane, a follower role an opened replica log; the
    /// first one that cannot be had ends the attempt with its error.
    pub fn from_placements<L: Fn(u64) -> bool, R: Fn(u64) -> Result<(), String>>(
        node_id: u64,
        placements: &BTreeMap<u64, Placement>,
        leader_plane_for: L,
        open_replica_log: R,
    ) -> (r: Result<DataPlaneServer, String>)
        requires
            forall|p: u64| call_requires(leader_plane_for, (p,)),
            forall|p: u64| call_requires(open_replica_log, (p,)),
        ensures
            ({
                let pv = state_machine::placement_views(placements@);
                let keys = order::sorted(pv.dom(), order::id_order());
                match r {
                    Ok(server) => server@ == roles_from(node_id, pv) && forall|i: int|
                        #![trigger keys[i]]
                        0 <= i < keys.len() ==> start_outcome(
                            node_id,
                            pv,
                            leader_plane_for,
                            open_replica_log,
                            keys[i],
                            None,
                        ),
                    Err(e) => exists|n: int|
                        #![trigger keys[n]]
                        0 <= n < keys.len() && start_outcome(
                            node_id,
                            pv,
                            leader_plane_for,
                            open_replica_log,
                            keys[n],
                            Some(e@),
                        ) && forall|i: int|
                            #![trigger keys[i]]
                            0 <= i < n ==> start_outcome(
                                node_id,
                                pv,
                                leader_plane_for,
                                open_replica_log,
                                keys[i],
                                None,
                            ),
                }
            }),
    {
        let ghost pv = state_machine::placement_views(placements@);
        let entries = ids::sorted_entries(placements);
        let ghost keys = ids::entry_keys(entries@);
        proof {
            order::lemma_id_order();
            assert(pv.dom() =~= placements@.dom());
            order::lemma_listing_is_sorted(keys, pv.dom(), order::id_order());
        }
        let mut server = DataPlaneServer::new(node_id);
        let mut i: usize = 0;
        proof {
            assert(limited(pv, keys.take(0)) =~= Map::empty());
            assert(server@ =~= roles_from(node_id, limited(pv, keys.take(0))));
        }
        while i < entries.len()
            invariant
                i <= entries@.len(),
                forall|p: u64| call_requires(leader_plane_for, (p,)),
                forall|p: u64| call_requires(open_replica_log, (p,)),
                pv == state_machine::placement_views(placements@),
                keys == ids::entry_keys(entries@),
                keys == order::sorted(pv.dom(), order::id_order()),
                forall|j: int|
                    0 <= j < entries@.len() ==> placements@.contains_key(entries@[j].0) && *(
                    #[trigger] entries@[j]).1 == placements@[entries@[j].0],
                server@ == roles_from(node_id, limited(pv, keys.take(i as int))),
                forall|j: int|
                    #![trigger keys[j]]
                    0 <= j < i ==> start_outcome(
                        node_id,
                        pv,
                        leader_plane_for,
                        open_replica_log,
                        keys[j],
                        None,
                    ),
            decreases entries@.len() - i,
        {
            let partition: u64 = entries[i].0;
            let placement: &Placement = entries[i].1;
            let ghost before = server@;
            assert(placements@.contains_key(entries@[i as int].0));
            assert(pv[partition] == placement@);
            assert(keys[i as int] == partition);
            match role_for_placement(node_id, placement) {
                PlacementRole::Leader => {
                    let supplied = leader_plane_for(partition);
                    if !supplied {
                        let e = text::followed_by(
                            "no leader read plane supplied for led partition ",
                            partition,
                        );
                        assert(start_outcome(
                            node_id,
                            pv,
                            leader_plane_for,
                            open_replica_log,
                            keys[i as int],
                            Some(e@),
                        ));
                        return Err(e);
                    }
                    let replicas = command::copy_ids(&placement.replicas);
                    proof {
                        lemma_replica_views(server.led@, partition, replicas);
                    }
                    server.led.insert(partition, replicas);
                },
                PlacementRole::Follower => {
                    let opened = open_replica_log(partition);
                    let ghost said = opened;
                    match opened {
                        Ok(u) => {
                            assert(said == Ok::<(), String>(()));
                        },
                        Err(e) => {
                            assert(call_ensures(
                                open_replica_log,
                                (partition,),
                                Err::<(), String>(e),
                            ));
                            assert(start_outcome(
                                node_id,
                                pv,
                                leader_plane_for,
                                open_replica_log,
                                keys[i as int],
                                Some(e@),
                            ));
                            return Err(e);
                        },
                    }
                    server.follower_targets.insert(partition, placement.leader);
                },
                PlacementRole::Unassigned => {},
            }
            assert(start_outcome(
                node_id,
                pv,
                leader_plane_for,
                open_replica_log,
                keys[i as int],
                None,
            ));
            proof {
                let t = keys.take(i as int);
                let u = keys.take(i + 1);
                assert(t.push(partition) =~= u);
                order::lemma_push_to_set(t, partition);
                let a = limited(pv, t);
                let b = limited(pv, u);
                assert(pv.contains_key(partition));
                assert(b =~= a.insert(partition, pv[partition]));
                assert(server@ =~= roles_from(node_id, b)) by {
                    assert(server@.led =~= roles_from(node_id, b).led);
                    assert(server@.targets =~= roles_from(node_id, b).targets);
                }
            }
            i = i + 1;
        }
        proof {
            assert(keys.take(keys.len() as int) =~= keys);
            assert(limited(pv, keys) =~= pv) by {
                order::lemma_sorted(pv.dom(), order::id_order());
            }
        }
        Ok(server)
    }

    /// Take up a new committed placement of `partition`. Where this node is to lead, `promote` is
    /// asked to promote it over the log that it holds, under the placement's epoch and with its
    /// replicas; a refusal leaves the roles as they were.
    /// The result says whether this node's role changed.
    pub fn reconcile_placement<E, P: Fn(u64, &Placement) -> Result<(), E>>(
        &mut self,
        partition: u64,
        placement: &Placement,
        promote: P,
    ) -> (r: Result<bool, E>)
        requires
            call_requires(promote, (partition, placement)),
        ensures
            ({
                let action = reconcile_action(old(self)@, partition, placement@);
                match r {
                    Ok(changed) => {
                        &&& changed == (action != ReconcileAction::Keep)
                        &&& final(self)@ == reconciled(old(self)@, partition, placement@, action)
                        &&& action == ReconcileAction::Promote ==> call_ensures(
                            promote,
                            (partition, placement),
                            Ok::<(), E>(()),
                        )
                    },
                    Err(e) => {
                        &&& action == ReconcileAction::Promote
                        &&& call_ensures(promote, (partition, placement), Err::<(), E>(e))
                        &&& final(self)@ == old(self)@
                    },
                }
            }),
    {
        match role_for_placement(self.node_id, placement) {
            PlacementRole::Leader => {
                if self.is_leader(partition) {
                    return Ok(false);
                }
                let outcome = promote(partition, placement);
                let ghost said = outcome;
                match outcome {
                    Ok(u) => {
                        assert(said == Ok::<(), E>(()));
                    },
                    Err(e) => {
                        return Err(e);
                    },
                }
                let replicas = command::copy_ids(&placement.replicas);
                proof {
                    lemma_replica_views(self.led@, partition, replicas);
                }
                self.led.insert(partition, replicas);
                self.follower_targets.remove(&partition);
                Ok(true)
            },
            PlacementRole::Follower => {
                let same = match self.follower_targets.get(&partition) {
                    Some(l) => *l == placement.leader,
                    None => false,
                };
                if same {
                    return Ok(false);
                }
                self.follower_targets.insert(partition, placement.leader);
                Ok(true)
            },
            PlacementRole::Unassigned => Ok(false),
        }
    }
}

// ---- admitting inbound readers ----

/// The effective cap on concurrent inbound readers: the configured one, or the default, raised to
/// the legitimate fanout.
pub open spec fn reader_cap(configured: Option<usize>, fanout: usize) -> usize {
    let base = match configured {
        Some(n) => n,
        None => DEFAULT_MIN_DATAPLANE_READERS,
    };
    if base >= fanout {
        base
    } else {
        fanout
    }
}

/// The effective cap on concurrent inbound readers: never below the legitimate fanout, so that no
/// real follower is refused, and always finite, so that a flood stays bounded.
pub fn effective_dataplane_reader_cap(
    configured: Option<usize>,
    led_inbound_link_count: usize,
) -> (cap: usize)
    ensures
        cap == reader_cap(configured, led_inbound_link_count),
        cap >= led_inbound_link_count,
{
    let base: usize = match configured {
        Some(n) => n,
        None => DEFAULT_MIN_DATAPLANE_READERS,
    };
    if base >= led_inbound_link_count {
        base
    } else {
        led_inbound_link_count
    }
}

/// What the accept loop does with a connection.
#[derive(Debug, Clone, Copy, PartialEq, Eq, Structural)]
pub enum Admission {
    /// Drop the connection; `warn` on the first refusal of a saturation episode.
    Refuse { warn: bool },
    /// Reserve a slot and start a reader.
    Admit,
}

/// What the accept loop does once it has tried to start a reader.
#[derive(Debug, Clone, Copy, PartialEq, Eq, Structural)]
pub struct SpawnStep {
    /// Report the failure; once in an episode of failures.
    pub warn: bool,
    /// Pause before the next accept.
    pub back_off: bool,
}

/// The accept loop's memory: the cap, and which episodes have been reported.
#[derive(Debug, Clone, Copy, PartialEq, Eq, Structural)]
pub struct AcceptGate {
    pub max_readers: usize,
    pub cap_warned: bool,
    pub spawn_warned: bool,
}

impl AcceptGate {
    /// What becomes of a connection while `active` readers run.
    pub open spec fn admission(self, active: usize) -> Admission {
        if admits(self.max_readers, active as nat) {
            Admission::Admit
        } else {
            Admission::Refuse { warn: !self.cap_warned }
        }
    }

    /// The memory after a connection while `active` readers ran.
    pub open spec fn accepted(self, active: usize) -> AcceptGate {
        AcceptGate { cap_warned: self.admission(active) != Admission::Admit, ..self }
    }

    /// What follows an attempt to start a reader thread.
    pub open spec fn spawn_step(self, started: bool) -> SpawnStep {
        SpawnStep { warn: !started && !self.spawn_warned, back_off: !started }
    }

    /// The memory after an attempt to start a reader thread.
    pub open spec fn spawned(self, started: bool) -> AcceptGate {
        AcceptGate { spawn_warned: !started, ..self }
    }

    /// A gate with the given cap.
    pub fn new(max_readers: usize) -> (g: AcceptGate)
        ensures
            g == (AcceptGate { max_readers, cap_warned: false, spawn_warned: false }),
    {
        AcceptGate { max_readers, cap_warned: false, spawn_warned: false }
    }

    /// Decide on a connection while `active` readers run. At the cap it is refused before
    /// anything is spent on it; an admission ends a saturation episode.
    pub fn on_accept(&mut self, active: usize) -> (a: Admission)
        ensures
            a == old(self).admission(active),
            *final(self) == old(self).accepted(active),
    {
        if active >= self.max_readers {
            let warn = !self.cap_warned;
            self.cap_warned = true;
            Admission::Refuse { warn }
        } else {
            self.cap_warned = false;
            Admission::Admit
        }
    }

    /// Decide what follows an attempt to start a reader thread.
    pub fn on_spawn(&mut self, started: bool) -> (s: SpawnStep)
        ensures
            s == old(self).spawn_step(started),
            *final(self) == old(self).spawned(started),
    {
        let step = SpawnStep { warn: !started && !self.spawn_warned, back_off: !started };
        self.spawn_warned = !started;
        step
    }
}

/// A connection is admitted while `active` readers run under the cap `max_readers`.
pub open spec fn admits(max_readers: usize, active: nat) -> bool {
    active < max_readers
}

/// What happens to the count of readers. The accept loop looks at the count and reserves a slot
/// only where it admitted a connection; meanwhile any number of readers may end.
pub enum ReaderEvent {
    /// The accept loop decides on a connection; see [`AcceptGate::on_accept`].
    Look,
    /// The accept loop takes the slot that its last look admitted.
    Reserve,
    /// A reader ends, however it does, or could not be started: its slot is given back.
    Release,
}

/// The count of readers, and whether the last look admitted a connection that has no slot yet.
#[verifier::ext_equal]
pub struct ReaderCount {
    pub active: nat,
    pub admitted: bool,
}

impl ReaderCount {
    /// The count after one event. A slot is given back by its holder only.
    pub open spec fn after(self, max_readers: usize, event: ReaderEvent) -> ReaderCount {
        match event {
            ReaderEvent::Look => ReaderCount { admitted: admits(max_readers, self.active), ..self },
            ReaderEvent::Reserve => if self.admitted {
                ReaderCount { active: self.active + 1, admitted: false }
            } else {
                self
            },
            ReaderEvent::Release => if self.active > 0 {
                ReaderCount { active: (self.active - 1) as nat, ..self }
            } else {
                self
            },
        }
    }
}

/// The count after a run of events, from no readers.
pub open spec fn readers_after(max_readers: usize, events: Seq<ReaderEvent>) -> ReaderCount
    decreases events.len(),
{
    if events.len() == 0 {
        ReaderCount { active: 0, admitted: false }
    } else {
        readers_after(max_readers, events.drop_last()).after(max_readers, events.last())
    }
}

/// `n` connections, one after the other, each of which is held open if it is admitted.
pub open spec fn held_links(n: nat) -> Seq<ReaderEvent>
    decreases n,
{
    if n == 0 {
        Seq::empty()
    } else {
        held_links((n - 1) as nat).push(ReaderEvent::Look).push(ReaderEvent::Reserve)
    }
}

/// The number of readers never exceeds the cap, whatever the order in which links are accepted and
/// readers end: a look that admitted a connection still has room when its slot is taken, since
/// nobody else takes one.
pub proof fn law_readers_never_exceed_the_cap(max_readers: usize, events: Seq<ReaderEvent>)
    ensures
        readers_after(max_readers, events).active <= max_readers,
        readers_after(max_readers, events).admitted ==> readers_after(max_readers, events).active
            < max_readers,
    decreases events.len(),
{
    if events.len() > 0 {
        law_readers_never_exceed_the_cap(max_readers, events.drop_last());
    }
}

/// Links that are held open fill the cap and no more.
pub proof fn law_held_links_fill_the_cap(max_readers: usize, n: nat)
    ensures
        readers_after(max_readers, held_links(n)).active == (if n <= max_readers {
            n
        } else {
            max_readers as nat
        }),
        !readers_after(max_readers, held_links(n)).admitted,
    decreases n,
{
    if n > 0 {
        let before = held_links((n - 1) as nat);
        let looked = before.push(ReaderEvent::Look);
        law_held_links_fill_the_cap(max_readers, (n - 1) as nat);
        assert(looked.drop_last() =~= before);
        assert(looked.last() == ReaderEvent::Look);
        assert(readers_after(max_readers, looked) == readers_after(max_readers, before).after(
            max_readers,
            ReaderEvent::Look,
        ));
        assert(held_links(n).drop_last() =~= looked);
        assert(held_links(n).last() == ReaderEvent::Reserve);
    }
}

// ---- serving a peer link ----

/// What the leader-side reader does with one turn of its link.
#[derive(Debug, Clone, Copy, PartialEq, Eq, Structural)]
pub enum DataReaderStep {
    /// Hand the replication report to the client ack gate.
    ReportToGate,
    /// Hand the replication report to the server; the released replies are dropped.
    ReportToServer,
    /// Serve the fetch off the server lock.
    ServeFetch,
    /// Route the frame through the server.
    Route,
    /// Nothing yet: re-check shutdown and read on.
    Poll,
    /// Drop the link.
    Stop,
}

/// The turn of a leader-side reader; `gated` says whether a client ack gate is present.
pub fn data_reader_step(
    turn: &Result<Option<DataPlaneVerb>, DataPlaneWireError>,
    gated: bool,
) -> (s: DataReaderStep)
    ensures
        s == match *turn {
            Ok(Some(DataPlaneVerb::AckReplicated)) => if gated {
                DataReaderStep::ReportToGate
            } else {
                DataReaderStep::ReportToServer
            },
            Ok(Some(DataPlaneVerb::FetchRequest)) => DataReaderStep::ServeFetch,
            Ok(Some(_)) => DataReaderStep::Route,
            Ok(None) => DataReaderStep::Stop,
            Err(DataPlaneWireError::Io(f)) => if is_timeout(f) {
                DataReaderStep::Poll
            } else {
                DataReaderStep::Stop
            },
            Err(_) => DataReaderStep::Stop,
        },
{
    match turn {
        Ok(Some(DataPlaneVerb::AckReplicated)) => {
            if gated {
                DataReaderStep::ReportToGate
            } else {
                DataReaderStep::ReportToServer
            }
        },
        Ok(Some(DataPlaneVerb::FetchRequest)) => DataReaderStep::ServeFetch,
        Ok(Some(_)) => DataReaderStep::Route,
        Ok(None) => DataReaderStep::Stop,
        Err(DataPlaneWireError::Io(IoFault::WouldBlock)) => DataReaderStep::Poll,
        Err(DataPlaneWireError::Io(IoFault::TimedOut)) => DataReaderStep::Poll,
        Err(_) => DataReaderStep::Stop,
    }
}

/// The outcome of serving a fetch off the server lock.
#[derive(Debug, Clone, PartialEq, Eq)]
pub enum OffLockServe<B> {
    /// The server lock was poisoned: the reader ends.
    Poisoned,
    /// The response to send.
    Send(B),
    /// Nothing to send: this node does not lead the partition, or the serve failed.
    Drop,
}

/// The outcome of a fetch: `plane` is what the server lock gave (`Err` where it was poisoned,
/// `Ok(None)` where this node does not lead the partition), and `serve` reads from the plane with
/// no lock held.
pub fn serve_fetch_off_lock<P, B, E, S: Fn(P) -> Result<B, E>>(
    plane: Result<Option<P>, ()>,
    serve: S,
) -> (r: OffLockServe<B>)
    requires
        forall|p: P| call_requires(serve, (p,)),
    ensures
        match plane {
            Err(_) => r == OffLockServe::<B>::Poisoned,
            Ok(None) => r == OffLockServe::<B>::Drop,
            Ok(Some(p)) => match r {
                OffLockServe::Send(b) => call_ensures(serve, (p,), Ok::<B, E>(b)),
                OffLockServe::Drop => exists|e: E| #[trigger]
                    call_ensures(serve, (p,), Err::<B, E>(e)),
                OffLockServe::Poisoned => false,
            },
        },
{
    match plane {
        Err(_) => OffLockServe::Poisoned,
        Ok(None) => OffLockServe::Drop,
        Ok(Some(p)) => match serve(p) {
            Ok(b) => OffLockServe::Send(b),
            Err(_) => OffLockServe::Drop,
        },
    }
}

/// What routing a frame through the server asks for on the wire.
#[derive(Debug, Clone, Copy, PartialEq, Eq, Structural)]
pub enum RouteOutcome {
    SendFetchResponse,
    SendEpochResponse,
    SendCommittedHwResponse,
    ReleaseAcks,
    Nothing,
    /// The server refused the frame; it is dropped.
    Refused,
}

/// The verb of the reply that a routed frame gets on the same link, if it gets one.
pub fn reply_verb(outcome: RouteOutcome) -> (v: Option<DataPlaneVerb>)
    ensures
        v == match outcome {
            RouteOutcome::SendFetchResponse => Some(DataPlaneVerb::FetchResponse),
            RouteOutcome::SendEpochResponse => Some(DataPlaneVerb::EpochResponse),
            RouteOutcome::SendCommittedHwResponse => Some(DataPlaneVerb::CommittedHwResponse),
            _ => None,
        },
{
    match outcome {
        RouteOutcome::SendFetchResponse => Some(DataPlaneVerb::FetchResponse),
        RouteOutcome::SendEpochResponse => Some(DataPlaneVerb::EpochResponse),
        RouteOutcome::SendCommittedHwResponse => Some(DataPlaneVerb::CommittedHwResponse),
        RouteOutcome::ReleaseAcks | RouteOutcome::Nothing | RouteOutcome::Refused => None,
    }
}

// ---- following a leader ----

/// How much a follower asks for in one fetch.
#[derive(Debug, Clone, Copy, PartialEq, Eq, Structural)]
pub struct FetchBudget {
    pub max_records: u32,
    pub max_bytes: u32,
}

/// What the re-replication throttle decided after a fetch.
#[derive(Debug, Clone, Copy, PartialEq, Eq, Structural)]
pub struct ThrottleDecision {
    pub budget: FetchBudget,
    pub yield_for_ms: u64,
}

/// What arrived on a follower's link after it sent a fetch.
#[derive(Debug, Clone, Copy, PartialEq, Eq, Structural)]
pub enum FetchReply {
    /// A fetch response.
    Response { partition: u64, record_count: u32, high_watermark: u64 },
    /// Any other frame.
    OtherFrame,
    /// The leader closed the link.
    Closed,
    /// The link failed.
    Fault(DataPlaneWireError),
}

/// What a follower does next.
#[derive(Debug, Clone, Copy, PartialEq, Eq, Structural)]
pub enum FetchStep {
    /// Apply the records, if there are any, and report the frontier.
    Apply { apply: bool, high_watermark: u64 },
    /// Not for this fetch: pause and poll again.
    Ignore { pause_nanos: u64 },
    /// Nothing arrived in time: fetch again.
    Refetch,
    /// Drop the link and dial again.
    Reconnect,
}

/// What follows a response that has been applied.
#[derive(Debug, Clone, Copy, PartialEq, Eq, Structural)]
pub struct Pace {
    /// How far this follower is behind the leader.
    pub backlog: u64,
    /// How long to wait before the next fetch.
    pub pause_nanos: u64,
}

/// A follower of one partition.
#[derive(Debug, Clone, Copy, PartialEq, Eq, Structural)]
pub struct FollowerFetch {
    pub partition: u64,
    /// The budget of the next fetch.
    pub budget: FetchBudget,
}

/// The pause after a response with `record_count` records: a poll where it was empty, so that a
/// caught-up follower does not spin; else what the throttle asks for.
pub open spec fn pause_after(record_count: u32, yield_for_ms: u64) -> u64 {
    if record_count == 0 {
        DATAPLANE_POLL_NANOS
    } else if yield_for_ms * 1_000_000 <= u64::MAX {
        (yield_for_ms * 1_000_000) as u64
    } else {
        u64::MAX
    }
}

/// What a follower does once it has tried to apply a response.
#[derive(Debug, Clone, Copy, PartialEq, Eq, Structural)]
pub enum AppliedStep {
    /// Report the frontier to the leader.
    Report,
    /// Drop the link, and fetch again from the recovered frontier on the next one.
    Stop,
}

/// How far a follower at `next_offset` is behind a leader at `leader_hw`.
pub fn backlog(leader_hw: u64, next_offset: u64) -> (r: u64)
    ensures
        r == (if leader_hw >= next_offset {
            (leader_hw - next_offset) as u64
        } else {
            0
        }),
{
    leader_hw.saturating_sub(next_offset)
}

impl FollowerFetch {
    /// A follower that has just dialed: its first fetch runs at the full budget.
    pub fn new(partition: u64, full: FetchBudget) -> (f: FollowerFetch)
        ensures
            f == (FollowerFetch { partition, budget: full }),
    {
        FollowerFetch { partition, budget: full }
    }

    /// Decide on what arrived after a fetch. Only a response for this very partition is applied.
    pub fn on_reply(&self, reply: FetchReply) -> (s: FetchStep)
        ensures
            s == match reply {
                FetchReply::Response { partition, record_count, high_watermark } => if partition
                    == self.partition {
                    FetchStep::Apply { apply: record_count > 0, high_watermark }
                } else {
                    FetchStep::Ignore { pause_nanos: DATAPLANE_POLL_NANOS }
                },
                FetchReply::OtherFrame => FetchStep::Ignore { pause_nanos: DATAPLANE_POLL_NANOS },
                FetchReply::Closed => FetchStep::Reconnect,
                FetchReply::Fault(DataPlaneWireError::Io(f)) => if is_timeout(f) {
                    FetchStep::Refetch
                } else {
                    FetchStep::Reconnect
                },
                FetchReply::Fault(_) => FetchStep::Reconnect,
            },
    {
        match reply {
            FetchReply::Response { partition, record_count, high_watermark } => {
                if partition == self.partition {
                    FetchStep::Apply { apply: record_count > 0, high_watermark }
                } else {
                    FetchStep::Ignore { pause_nanos: DATAPLANE_POLL_NANOS }
                }
            },
            FetchReply::OtherFrame => FetchStep::Ignore { pause_nanos: DATAPLANE_POLL_NANOS },
            FetchReply::Closed => FetchStep::Reconnect,
            FetchReply::Fault(DataPlaneWireError::Io(IoFault::WouldBlock)) => FetchStep::Refetch,
            FetchReply::Fault(DataPlaneWireError::Io(IoFault::TimedOut)) => FetchStep::Refetch,
            FetchReply::Fault(_) => FetchStep::Reconnect,
        }
    }

    /// Decide once a response has been applied. One that does not apply is not reported: nothing of
    /// it counts as replicated.
    pub fn on_applied(&self, ok: bool) -> (s: AppliedStep)
        ensures
            s == (if ok {
                AppliedStep::Report
            } else {
                AppliedStep::Stop
            }),
    {
        if ok {
            AppliedStep::Report
        } else {
            AppliedStep::Stop
        }
    }

    /// Take up the throttle's decision after a response. It shapes the budget of the next fetch
    /// and the pause before it, and nothing else.
    pub fn on_decision(
        &mut self,
        record_count: u32,
        leader_hw: u64,
        next_offset: u64,
        decision: ThrottleDecision,
    ) -> (p: Pace)
        ensures
            *final(self) == (FollowerFetch { budget: decision.budget, ..*old(self) }),
            p.pause_nanos == pause_after(record_count, decision.yield_for_ms),
            p.backlog == (if leader_hw >= next_offset {
                (leader_hw - next_offset) as u64
            } else {
                0
            }),
    {
        self.budget = decision.budget;
        let pause_nanos: u64 = if record_count == 0 {
            DATAPLANE_POLL_NANOS
        } else {
            match decision.yield_for_ms.checked_mul(1_000_000) {
                Some(n) => n,
                None => u64::MAX,
            }
        };
        Pace { backlog: backlog(leader_hw, next_offset), pause_nanos }
    }
}

// ---- starting the data plane ----

/// What a node starts for its data plane.
#[derive(Debug)]
pub struct DataPlaneStart {
    /// The cap on concurrent inbound readers.
    pub reader_cap: usize,
    /// The partitions to follow, each with the address of its leader.
    pub follow: Vec<(u64, PeerAddr)>,
    /// The followed partitions whose leader has no address, each with that leader.
    pub skipped: Vec<(u64, u64)>,
}

/// Derive what a node starts from its roles. A partition whose leader has no address is skipped
/// and does not hold up the rest.
pub fn plan_dataplane_start(
    server: &DataPlaneServer,
    peer_data_addrs: &BTreeMap<u64, PeerAddr>,
    configured_cap: Option<usize>,
) -> (r: DataPlaneStart)
    ensures
        r.reader_cap == reader_cap(configured_cap, saturated_usize(server@.inbound_links())),
        order::lists(
            r.follow@.map_values(|e: (u64, PeerAddr)| e.0),
            server@.targets.dom().filter(
                |p: u64| peer_data_addrs@.contains_key(server@.targets[p]),
            ),
            order::id_order(),
        ),
        forall|i: int|
            0 <= i < r.follow@.len() ==> (#[trigger] r.follow@[i]).1
                == peer_data_addrs@[server@.targets[r.follow@[i].0]],
        order::lists(
            r.skipped@.map_values(|e: (u64, u64)| e.0),
            server@.targets.dom().filter(
                |p: u64| !peer_data_addrs@.contains_key(server@.targets[p]),
            ),
            order::id_order(),
        ),
        forall|i: int|
            0 <= i < r.skipped@.len() ==> (#[trigger] r.skipped@[i]).1
                == server@.targets[r.skipped@[i].0],
{
    let reader_cap = effective_dataplane_reader_cap(
        configured_cap,
        server.led_inbound_link_count(),
    );
    let followed = server.follower_partitions();
    let ghost targets = server@.targets;
    let ghost pair_key = |e: (u64, u64)| e.0;
    let ghost addr_key = |e: (u64, PeerAddr)| e.0;
    let ghost keys = followed@.map_values(pair_key);
    let ghost known = |p: u64| peer_data_addrs@.contains_key(targets[p]);
    let ghost unknown = |p: u64| !peer_data_addrs@.contains_key(targets[p]);
    let mut follow: Vec<(u64, PeerAddr)> = Vec::new();
    let mut skipped: Vec<(u64, u64)> = Vec::new();
    let mut i: usize = 0;
    proof {
        reveal(Seq::filter);
        assert(follow@.map_values(addr_key) =~= keys.take(0).filter(known));
        assert(skipped@.map_values(pair_key) =~= keys.take(0).filter(unknown));
    }
    while i < followed.len()
        invariant
            i <= followed@.len(),
            targets == server@.targets,
            pair_key == (|e: (u64, u64)| e.0),
            addr_key == (|e: (u64, PeerAddr)| e.0),
            keys == followed@.map_values(pair_key),
            known == (|p: u64| peer_data_addrs@.contains_key(targets[p])),
            unknown == (|p: u64| !peer_data_addrs@.contains_key(targets[p])),
            forall|j: int|
                0 <= j < followed@.len() ==> (#[trigger] followed@[j]).1
                    == targets[followed@[j].0],
            follow@.map_values(addr_key) == keys.take(i as int).filter(known),
            skipped@.map_values(pair_key) == keys.take(i as int).filter(unknown),
            forall|j: int|
                0 <= j < follow@.len() ==> (#[trigger] follow@[j]).1
                    == peer_data_addrs@[targets[follow@[j].0]],
            forall|j: int|
                0 <= j < skipped@.len() ==> (#[trigger] skipped@[j]).1 == targets[skipped@[j].0],
        decreases followed@.len() - i,
    {
        let partition: u64 = followed[i].0;
        let leader: u64 = followed[i].1;
        let ghost f0 = follow@;
        let ghost s0 = skipped@;
        proof {
            assert(keys[i as int] == partition);
            assert(leader == targets[partition]);
            order::lemma_filter_push(keys.take(i as int), partition, known);
            order::lemma_filter_push(keys.take(i as int), partition, unknown);
            assert(keys.take(i as int).push(partition) =~= keys.take(i + 1));
        }
        match peer_data_addrs.get(&leader) {
            Some(a) => {
                follow.push((partition, a.duplicate()));
                assert(follow@.map_values(addr_key) =~= f0.map_values(addr_key).push(partition));
            },
            None => {
                skipped.push((partition, leader));
                assert(skipped@.map_values(pair_key) =~= s0.map_values(pair_key).push(
                    partition,
                ));
            },
        }
        i = i + 1;
    }
    proof {
        assert(keys.take(keys.len() as int) =~= keys);
        order::lemma_filter_listing(keys, targets.dom(), order::id_order(), known);
        order::lemma_filter_listing(keys, targets.dom(), order::id_order(), unknown);
    }
    DataPlaneStart { reader_cap, follow, skipped }
}


// ---- laws of the roles ----

/// A placement makes a node its leader if and only if it names it so, a follower if and only if it
/// is a replica that does not lead, and nothing else.
pub proof fn law_role_is_what_the_placement_says(node: u64, p: PlacementView)
    ensures
        role_in(node, p) == PlacementRole::Leader <==> p.leader == node,
        role_in(node, p) == PlacementRole::Follower <==> p.leader != node && p.replicas.contains(
            node,
        ),
        role_in(node, p) == PlacementRole::Unassigned <==> p.leader != node
            && !p.replicas.contains(node),
{
}

/// The roles come from the placements: a partition is led if and only if its placement names this
/// node leader, and with that placement's replicas; it is followed if and only if this node is one
/// of the other replicas, and from that placement's leader.
pub proof fn law_roles_come_from_the_placements(
    node: u64,
    placements: Map<u64, PlacementView>,
    p: u64,
)
    ensures
        ({
            let s = roles_from(node, placements);
            &&& s.node_id == node
            &&& s.led.contains_key(p) <==> placements.contains_key(p) && placements[p].leader
                == node
            &&& s.led.contains_key(p) ==> s.led[p] == placements[p].replicas
            &&& s.targets.contains_key(p) <==> placements.contains_key(p) && placements[p].leader
                != node && placements[p].replicas.contains(node)
            &&& s.targets.contains_key(p) ==> s.targets[p] == placements[p].leader
        }),
{
}

/// The nodes agree on who leads: of any two nodes at most one leads a partition, and whoever follows
/// it fetches from the node that leads it by its own account.
pub proof fn law_followers_fetch_from_the_leader(
    a: u64,
    b: u64,
    placements: Map<u64, PlacementView>,
    p: u64,
)
    ensures
        ({
            let x = roles_from(a, placements);
            let y = roles_from(b, placements);
            &&& x.led.contains_key(p) && y.led.contains_key(p) ==> a == b
            &&& x.targets.contains_key(p) ==> roles_from(
                x.targets[p],
                placements,
            ).led.contains_key(p)
            &&& x.targets.contains_key(p) && y.targets.contains_key(p) ==> x.targets[p]
                == y.targets[p]
            &&& x.led.contains_key(p) && y.targets.contains_key(p) ==> y.targets[p] == a
                && x.led[p].contains(b)
        }),
{
}

/// What reconciling does: a node that is newly named leader is promoted, and then leads with the
/// placement's replicas and fetches the partition from nobody; a follower whose target is not the
/// placement's leader is retargeted to it; whoever has nothing to change keeps everything.
pub proof fn law_reconcile_takes_up_the_placement(
    s: ServerView,
    partition: u64,
    placement: PlacementView,
)
    ensures
        ({
            let action = reconcile_action(s, partition, placement);
            let t = reconciled(s, partition, placement, action);
            let leads = placement.leader == s.node_id;
            let follows = !leads && placement.replicas.contains(s.node_id);
            let on_target = s.targets.contains_key(partition) && s.targets[partition]
                == placement.leader;
            &&& action == ReconcileAction::Promote <==> leads && !s.led.contains_key(partition)
            &&& action == (ReconcileAction::Retarget { leader: placement.leader }) <==> follows
                && !on_target
            &&& action == ReconcileAction::Keep <==> (leads && s.led.contains_key(partition)) || (
            follows && on_target) || (!leads && !follows)
            &&& t.node_id == s.node_id
            &&& action == ReconcileAction::Keep ==> t == s
            &&& action == ReconcileAction::Promote ==> t.led.contains_key(partition)
                && t.led[partition] == placement.replicas && !t.targets.contains_key(partition)
            &&& follows ==> t.led == s.led && t.targets.contains_key(partition)
                && t.targets[partition] == placement.leader
        }),
{
}

/// A node that took its roles up from placements and then takes up a changed placement as a new
/// leader or follower has, for that partition, the role that starting afresh would have given it.
pub proof fn law_reconcile_agrees_with_a_fresh_start(
    node: u64,
    placements: Map<u64, PlacementView>,
    partition: u64,
    placement: PlacementView,
)
    requires
        !placements.contains_key(partition) || placements[partition].leader != node,
        placement.leader == node || placement.replicas.contains(node),
    ensures
        ({
            let s = roles_from(node, placements);
            let t = reconciled(
                s,
                partition,
                placement,
                reconcile_action(s, partition, placement),
            );
            t == roles_from(node, placements.insert(partition, placement))
        }),
{
    let s = roles_from(node, placements);
    let t = reconciled(s, partition, placement, reconcile_action(s, partition, placement));
    let u = roles_from(node, placements.insert(partition, placement));
    assert(t.led =~= u.led);
    assert(t.targets =~= u.targets);
}

/// Starting a partition asks for what its role needs, and for nothing else: a leader for its read
/// plane, whose want is reported with the partition; a follower for its replica log, whose error is
/// passed on; and a node without a role for nothing.
pub proof fn law_start_asks_for_what_the_role_needs<
    L: Fn(u64) -> bool,
    R: Fn(u64) -> Result<(), String>,
>(
    node: u64,
    placements: Map<u64, PlacementView>,
    leader_plane_for: L,
    open_replica_log: R,
    p: u64,
    outcome: Option<Seq<char>>,
)
    requires
        start_outcome(node, placements, leader_plane_for, open_replica_log, p, outcome),
    ensures
        placements[p].leader == node && outcome is None ==> call_ensures(
            leader_plane_for,
            (p,),
            true,
        ),
        placements[p].leader == node && outcome is Some ==> call_ensures(
            leader_plane_for,
            (p,),
            false,
        ) && outcome->0 == "no leader read plane supplied for led partition "@ + text::decimal(
            p as nat,
        ),
        placements[p].leader != node && placements[p].replicas.contains(node) && outcome is None
            ==> call_ensures(open_replica_log, (p,), Ok::<(), String>(())),
        placements[p].leader != node && placements[p].replicas.contains(node) && outcome is Some
            ==> exists|s: String| #[trigger]
            call_ensures(open_replica_log, (p,), Err::<(), String>(s)) && s@ == outcome->0,
        placements[p].leader != node && !placements[p].replicas.contains(node) ==> outcome is None,
{
}

// ---- laws of admission ----

proof fn lemma_fanout_without(keys: Seq<u64>, i: int, led: Map<u64, Seq<u64>>, node: u64)
    requires
        0 <= i < keys.len(),
    ensures
        fanout(keys, led, node) == fanout(keys.remove(i), led, node) + led[keys[i]].filter(
            runtime::other_than(node),
        ).len(),
    decreases keys.len(),
{
    if i == keys.len() - 1 {
        assert(keys.remove(i) =~= keys.drop_last());
    } else {
        lemma_fanout_without(keys.drop_last(), i, led, node);
        assert(keys.remove(i).drop_last() =~= keys.drop_last().remove(i));
        assert(keys.remove(i).last() == keys.last());
    }
}

proof fn lemma_fanout_same(
    keys: Seq<u64>,
    led: Map<u64, Seq<u64>>,
    other: Map<u64, Seq<u64>>,
    node: u64,
)
    requires
        forall|i: int| 0 <= i < keys.len() ==> led[#[trigger] keys[i]] == other[keys[i]],
    ensures
        fanout(keys, led, node) == fanout(keys, other, node),
    decreases keys.len(),
{
    if keys.len() > 0 {
        assert forall|i: int| 0 <= i < keys.drop_last().len() implies led[
        #[trigger] keys.drop_last()[i]] == other[keys.drop_last()[i]] by {
            assert(keys.drop_last()[i] == keys[i]);
        }
        lemma_fanout_same(keys.drop_last(), led, other, node);
        assert(led[keys[keys.len() - 1]] == other[keys[keys.len() - 1]]);
    }
}

/// Every follower of every led partition has its link: a node that leads nothing expects none, one
/// more led partition adds one link for each of its replicas but this node, and what is followed
/// adds nothing.
pub proof fn law_every_follower_has_its_link(
    s: ServerView,
    partition: u64,
    replicas: Seq<u64>,
    targets: Map<u64, u64>,
)
    requires
        s.led.dom().finite(),
        !s.led.contains_key(partition),
    ensures
        s.led.dom() =~= Set::<u64>::empty() ==> s.inbound_links() == 0,
        (ServerView { led: s.led.insert(partition, replicas), ..s }).inbound_links()
            == s.inbound_links() + replicas.filter(|n: u64| n != s.node_id).len(),
        (ServerView { targets, ..s }).inbound_links() == s.inbound_links(),
{
    let node = s.node_id;
    let ids = order::id_order();
    let more = s.led.insert(partition, replicas);
    let old_keys = order::sorted(s.led.dom(), ids);
    let new_keys = order::sorted(more.dom(), ids);
    order::lemma_id_order();
    order::lemma_sorted(s.led.dom(), ids);
    order::lemma_sorted(more.dom(), ids);
    assert(runtime::other_than(node) =~= |n: u64| n != node);
    if s.led.dom() =~= Set::<u64>::empty() {
        if old_keys.len() > 0 {
            assert(old_keys.contains(old_keys[0]));
        }
    }
    assert(more.dom().contains(partition));
    assert(new_keys.contains(partition));
    let i = choose|i: int| 0 <= i < new_keys.len() && new_keys[i] == partition;
    let rest = new_keys.remove(i);
    assert(order::lists(rest, s.led.dom(), ids)) by {
        assert forall|a: int, b: int| 0 <= a < b < rest.len() implies ids(
            #[trigger] rest[a],
            #[trigger] rest[b],
        ) by {
            let x = if a < i {
                a
            } else {
                a + 1
            };
            let y = if b < i {
                b
            } else {
                b + 1
            };
            assert(ids(new_keys[x], new_keys[y]));
        }
        assert forall|k: u64| #[trigger] rest.contains(k) <==> s.led.dom().contains(k) by {
            if rest.contains(k) {
                let a = choose|a: int| 0 <= a < rest.len() && rest[a] == k;
                let x = if a < i {
                    a
                } else {
                    a + 1
                };
                assert(new_keys[x] == k);
                assert(new_keys.contains(k));
                assert(more.dom().contains(k));
                if k == partition {
                    if x < i {
                        assert(ids(new_keys[x], new_keys[i]));
                    } else {
                        assert(ids(new_keys[i], new_keys[x]));
                    }
                }
            }
            if s.led.dom().contains(k) {
                assert(more.dom().contains(k));
                assert(new_keys.contains(k));
                let x = choose|x: int| 0 <= x < new_keys.len() && new_keys[x] == k;
                assert(x != i);
                let a = if x < i {
                    x
                } else {
                    x - 1
                };
                assert(rest[a] == k);
            }
        }
    }
    order::lemma_listing_is_sorted(rest, s.led.dom(), ids);
    lemma_fanout_without(new_keys, i, more, node);
    assert forall|k: int| 0 <= k < rest.len() implies more[#[trigger] rest[k]] == s.led[rest[k]] by {
        assert(rest.contains(rest[k]));
    }
    lemma_fanout_same(rest, more, s.led, node);
}

/// The cap is at least the legitimate fanout and at least the configured cap, or the default where
/// none is configured, and it is one of the two.
pub proof fn law_reader_cap_is_the_larger(configured: Option<usize>, fanout: usize)
    ensures
        reader_cap(configured, fanout) >= fanout,
        configured matches Some(n) ==> reader_cap(configured, fanout) >= n && (reader_cap(
            configured,
            fanout,
        ) == n || reader_cap(configured, fanout) == fanout),
        configured is None ==> reader_cap(configured, fanout) >= DEFAULT_MIN_DATAPLANE_READERS && (
        reader_cap(configured, fanout) == DEFAULT_MIN_DATAPLANE_READERS || reader_cap(
            configured,
            fanout,
        ) == fanout),
{
}

/// A connection is admitted if and only if there is room under the cap; a cap of zero admits
/// nobody, and no cap refuses the fanout that it was raised to before all of it is there.
pub proof fn law_admission_has_room(
    max_readers: usize,
    active: nat,
    configured: Option<usize>,
    fanout: usize,
)
    ensures
        admits(max_readers, active) <==> active + 1 <= max_readers,
        !admits(0, active),
        active < fanout ==> admits(reader_cap(configured, fanout), active),
{
}

/// The count of readers goes up by a slot that was admitted and taken, and by nothing else; it goes
/// down by a reader that ends; and a look changes nothing but what it found.
pub proof fn law_reader_count_moves_by_one(r: ReaderCount, max_readers: usize)
    ensures
        r.after(max_readers, ReaderEvent::Look).active == r.active,
        r.after(max_readers, ReaderEvent::Look).admitted <==> r.active < max_readers,
        r.after(max_readers, ReaderEvent::Reserve).active == if r.admitted {
            r.active + 1
        } else {
            r.active
        },
        !r.after(max_readers, ReaderEvent::Reserve).admitted,
        r.active > 0 ==> r.after(max_readers, ReaderEvent::Release).active == r.active - 1,
        r.active == 0 ==> r.after(max_readers, ReaderEvent::Release).active == 0,
        r.after(max_readers, ReaderEvent::Release).admitted == r.admitted,
{
}

/// A slot that is given back is free again: at the cap, once a reader has ended, the next link is
/// admitted and takes it.
pub proof fn law_released_slot_is_taken_again(max_readers: usize, events: Seq<ReaderEvent>)
    requires
        readers_after(max_readers, events).active == max_readers,
        max_readers > 0,
    ensures
        readers_after(max_readers, events.push(ReaderEvent::Look)).admitted == false,
        readers_after(
            max_readers,
            events.push(ReaderEvent::Release).push(ReaderEvent::Look),
        ).admitted,
        readers_after(
            max_readers,
            events.push(ReaderEvent::Release).push(ReaderEvent::Look).push(ReaderEvent::Reserve),
        ).active == max_readers,
{
    let a = events.push(ReaderEvent::Release);
    let b = a.push(ReaderEvent::Look);
    let c = b.push(ReaderEvent::Reserve);
    assert(events.push(ReaderEvent::Look).drop_last() =~= events);
    assert(a.drop_last() =~= events);
    assert(b.drop_last() =~= a);
    assert(c.drop_last() =~= b);
    assert(readers_after(max_readers, a) == readers_after(max_readers, events).after(
        max_readers,
        ReaderEvent::Release,
    ));
    assert(readers_after(max_readers, b) == readers_after(max_readers, a).after(
        max_readers,
        ReaderEvent::Look,
    ));
}

// ---- laws of the pace ----

/// A caught-up follower polls, and one that received records waits exactly as many milliseconds as
/// the throttle asks for, as long as the nanoseconds can be counted, and never less for more.
pub proof fn law_pause_is_what_the_throttle_asks(record_count: u32, yield_for_ms: u64, more_ms: u64)
    requires
        yield_for_ms <= more_ms,
    ensures
        pause_after(0, yield_for_ms) == DATAPLANE_POLL_NANOS,
        record_count > 0 && yield_for_ms <= 18_446_744_073_709 ==> pause_after(
            record_count,
            yield_for_ms,
        ) == yield_for_ms * 1_000_000,
        record_count > 0 && yield_for_ms > 18_446_744_073_709 ==> pause_after(
            record_count,
            yield_for_ms,
        ) == u64::MAX,
        record_count > 0 ==> pause_after(record_count, yield_for_ms) <= pause_after(
            record_count,
            more_ms,
        ),
{
}


/// How far a follower is behind: by what the leader has and it has not, and never by less than
/// nothing.
pub proof fn law_backlog_is_what_is_missing(leader_hw: u64, next_offset: u64, r: u64)
    requires
        call_ensures(backlog, (leader_hw, next_offset), r),
    ensures
        next_offset <= leader_hw ==> next_offset + r == leader_hw,
        next_offset > leader_hw ==> r == 0,
{
}

/// A leader-side reader reports an acknowledgement to the ack gate where there is one and else to the
/// server, serves a fetch off the lock, routes every other frame, reads on after a timeout, and
/// ends its link on everything else.
pub proof fn law_data_reader_takes_each_frame_where_it_belongs(
    turn: &Result<Option<DataPlaneVerb>, DataPlaneWireError>,
    gated: bool,
    s: DataReaderStep,
)
    requires
        call_ensures(data_reader_step, (turn, gated), s),
    ensures
        ({
            let acks = *turn == Ok::<Option<DataPlaneVerb>, DataPlaneWireError>(
                Some(DataPlaneVerb::AckReplicated),
            );
            let fetches = *turn == Ok::<Option<DataPlaneVerb>, DataPlaneWireError>(
                Some(DataPlaneVerb::FetchRequest),
            );
            &&& s == DataReaderStep::ReportToGate <==> acks && gated
            &&& s == DataReaderStep::ReportToServer <==> acks && !gated
            &&& s == DataReaderStep::ServeFetch <==> fetches
            &&& s == DataReaderStep::Route <==> (*turn matches Ok(v) && v is Some) && !acks
                && !fetches
            &&& s == DataReaderStep::Poll <==> (*turn matches Err(DataPlaneWireError::Io(f)) && (f
                == IoFault::WouldBlock || f == IoFault::TimedOut))
        }),
{
}

/// A routed frame is answered on its link by the response to its kind, or by nothing.
pub proof fn law_replies_answer_their_kind(outcome: RouteOutcome, v: Option<DataPlaneVerb>)
    requires
        call_ensures(reply_verb, (outcome,), v),
    ensures
        v == Some(DataPlaneVerb::FetchResponse) <==> outcome == RouteOutcome::SendFetchResponse,
        v == Some(DataPlaneVerb::EpochResponse) <==> outcome == RouteOutcome::SendEpochResponse,
        v == Some(DataPlaneVerb::CommittedHwResponse) <==> outcome
            == RouteOutcome::SendCommittedHwResponse,
        v is None <==> outcome == RouteOutcome::ReleaseAcks || outcome == RouteOutcome::Nothing
            || outcome == RouteOutcome::Refused,
{
}

/// A follower applies a response for its own partition and nothing else, and only one with records;
/// it fetches again after a timeout, dials again once the link is gone, and pauses after anything
/// that is not for it.
pub proof fn law_follower_applies_its_own_partition(
    f: &FollowerFetch,
    reply: FetchReply,
    s: FetchStep,
)
    requires
        call_ensures(FollowerFetch::on_reply, (f, reply), s),
    ensures
        forall|hw: u64, some: bool|
            s == (FetchStep::Apply { apply: some, high_watermark: hw }) <==> (reply matches
                FetchReply::Response { partition, record_count, high_watermark } && partition
                == f.partition && high_watermark == hw && some == (record_count > 0)),
        s == FetchStep::Refetch <==> (reply matches FetchReply::Fault(DataPlaneWireError::Io(e)) && (
        e == IoFault::WouldBlock || e == IoFault::TimedOut)),
        (s matches FetchStep::Ignore { pause_nanos } && pause_nanos == DATAPLANE_POLL_NANOS) <==> (
        reply is OtherFrame || (reply matches FetchReply::Response { partition, .. } && partition
            != f.partition)),
{
}

/// What a node starts follows its roles: every followed partition is fetched from the address of
/// its leader where there is one, and is otherwise skipped with that leader; nothing else is
/// started; and the readers have room for every legitimate follower.
pub proof fn law_start_follows_the_roles(
    server: &DataPlaneServer,
    addrs: &BTreeMap<u64, PeerAddr>,
    configured_cap: Option<usize>,
    r: DataPlaneStart,
)
    requires
        call_ensures(plan_dataplane_start, (server, addrs, configured_cap), r),
    ensures
        server@.inbound_links() <= usize::MAX ==> r.reader_cap >= server@.inbound_links(),
        configured_cap matches Some(n) ==> r.reader_cap >= n,
        forall|i: int|
            0 <= i < r.follow@.len() ==> server@.targets.contains_key((#[trigger] r.follow@[i]).0)
                && addrs@.contains_key(server@.targets[r.follow@[i].0]) && r.follow@[i].1
                == addrs@[server@.targets[r.follow@[i].0]],
        forall|i: int|
            0 <= i < r.skipped@.len() ==> server@.targets.contains_key((#[trigger] r.skipped@[i]).0)
                && r.skipped@[i].1 == server@.targets[r.skipped@[i].0] && !addrs@.contains_key(
                r.skipped@[i].1,
            ),
        forall|p: u64| #[trigger]
            server@.targets.contains_key(p) ==> if addrs@.contains_key(server@.targets[p]) {
                exists|i: int| 0 <= i < r.follow@.len() && (#[trigger] r.follow@[i]).0 == p
            } else {
                exists|i: int| 0 <= i < r.skipped@.len() && (#[trigger] r.skipped@[i]).0 == p
            },
{
    let targets = server@.targets;
    let known = targets.dom().filter(|p: u64| addrs@.contains_key(targets[p]));
    let unknown = targets.dom().filter(|p: u64| !addrs@.contains_key(targets[p]));
    let fs = r.follow@.map_values(|e: (u64, PeerAddr)| e.0);
    let ss = r.skipped@.map_values(|e: (u64, u64)| e.0);
    assert(order::lists(fs, known, order::id_order()));
    assert(order::lists(ss, unknown, order::id_order()));
    assert forall|i: int| 0 <= i < r.follow@.len() implies targets.contains_key(
        (#[trigger] r.follow@[i]).0,
    ) && addrs@.contains_key(targets[r.follow@[i].0]) && r.follow@[i].1
        == addrs@[targets[r.follow@[i].0]] by {
        assert(fs[i] == r.follow@[i].0);
        assert(fs.contains(fs[i]));
        assert(known.contains(fs[i]));
    }
    assert forall|i: int| 0 <= i < r.skipped@.len() implies targets.contains_key(
        (#[trigger] r.skipped@[i]).0,
    ) && r.skipped@[i].1 == targets[r.skipped@[i].0] && !addrs@.contains_key(r.skipped@[i].1) by {
        assert(ss[i] == r.skipped@[i].0);
        assert(ss.contains(ss[i]));
        assert(unknown.contains(ss[i]));
    }
    assert forall|p: u64| #[trigger] targets.contains_key(p) implies if addrs@.contains_key(
        targets[p],
    ) {
        exists|i: int| 0 <= i < r.follow@.len() && (#[trigger] r.follow@[i]).0 == p
    } else {
        exists|i: int| 0 <= i < r.skipped@.len() && (#[trigger] r.skipped@[i]).0 == p
    } by {
        if addrs@.contains_key(targets[p]) {
            assert(known.contains(p));
            assert(fs.contains(p));
            let i = choose|i: int| 0 <= i < fs.len() && fs[i] == p;
            assert(r.follow@[i].0 == p);
        } else {
            assert(unknown.contains(p));
            assert(ss.contains(p));
            let i = choose|i: int| 0 <= i < ss.len() && ss[i] == p;
            assert(r.skipped@[i].0 == p);
        }
    }
}


/// An episode is reported once: of two refusals in a row only the first may warn, an admission ends
/// the episode, and so the next refusal warns again. Refusing changes nothing else.
pub proof fn law_saturation_is_reported_once(g: AcceptGate, a: usize, b: usize)
    ensures
        g.admission(a) == Admission::Admit <==> a < g.max_readers,
        a >= g.max_readers ==> (g.admission(a) == (Admission::Refuse { warn: true })
            <==> !g.cap_warned),
        a >= g.max_readers && b >= g.max_readers ==> g.accepted(a).admission(b)
            == (Admission::Refuse { warn: false }),
        a < g.max_readers && b >= g.max_readers ==> g.accepted(a).admission(b)
            == (Admission::Refuse { warn: true }),
        g.accepted(a).max_readers == g.max_readers,
        g.accepted(a).spawn_warned == g.spawn_warned,
{
}

/// A failure to start a reader is reported once in an episode of failures, and backed off from each
/// time; a success does neither and ends the episode.
pub proof fn law_spawn_failure_is_reported_once(g: AcceptGate)
    ensures
        g.spawn_step(false).back_off,
        g.spawn_step(false).warn <==> !g.spawn_warned,
        !g.spawn_step(true).back_off,
        !g.spawn_step(true).warn,
        !g.spawned(false).spawn_step(false).warn,
        g.spawned(true).spawn_step(false).warn,
        g.spawned(false).max_readers == g.max_readers,
        g.spawned(true).max_readers == g.max_readers,
        g.spawned(false).cap_warned == g.cap_warned,
        g.spawned(true).cap_warned == g.cap_warned,
{
}


/// A count is exact as long as it can be said.
pub proof fn law_counts_are_exact_as_far_as_they_go(n: nat)
    ensures
        n <= usize::MAX ==> saturated_usize(n) == n,
        n > usize::MAX ==> saturated_usize(n) == usize::MAX,
{
}


/// The bounds in numbers: where no cap is configured 256 readers have room, or as many as there are
/// followers; and a follower with nothing to fetch looks again after a tenth of a second.
pub proof fn law_bounds_in_numbers(followers: usize, yield_for_ms: u64)
    ensures
        followers <= 256 ==> reader_cap(None, followers) == 256,
        followers > 256 ==> reader_cap(None, followers) == followers,
        pause_after(0, yield_for_ms) == 100_000_000,
{
}

}
