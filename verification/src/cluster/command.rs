//! Metadata commands: the mutations of the cluster control plane and their wire form.
//!
//! A committed log entry holds exactly one encoded command, `[tag: u8] [fields...]`, with every
//! `u64` little-endian and each string as `[len: u32-le][utf8 bytes]`. The form is canonical: a
//! byte string decodes to at most one command, and it is then that command's encoding.

use vstd::bytes::*;
use vstd::prelude::*;

use crate::cluster::error::DecodeError;
use crate::cluster::wire;
use crate::cluster::wire::Cursor;

verus! {

/// The role a node plays in the metadata Raft group.
#[derive(Debug, Clone, Copy, PartialEq, Eq, PartialOrd, Ord, Structural)]
pub enum NodeRole {
    /// A full voting member: counts toward quorum.
    Voter,
    /// A non-voting learner: receives the log and back-fills, but never counts toward quorum
    /// until promoted.
    Learner,
}

impl NodeRole {
    /// The wire byte of a role.
    pub open spec fn spec_tag(self) -> u8 {
        match self {
            NodeRole::Voter => 0,
            NodeRole::Learner => 1,
        }
    }

    /// The wire byte of this role.
    pub fn tag(self) -> (t: u8)
        ensures
            t == self.spec_tag(),
    {
        match self {
            NodeRole::Voter => 0,
            NodeRole::Learner => 1,
        }
    }

    /// The role with wire byte `tag`, if there is one.
    pub fn from_tag(tag: u8) -> (r: Option<NodeRole>)
        ensures
            match r {
                Some(role) => role.spec_tag() == tag,
                None => forall|role: NodeRole| role.spec_tag() != tag,
            },
    {
        match tag {
            0 => Some(NodeRole::Voter),
            1 => Some(NodeRole::Learner),
            _ => None,
        }
    }
}

/// The current placement of a single partition: the ordered set of replica nodes that hold it,
/// which one of them leads it, and under which monotonic leader epoch.
///
/// The epoch is the fencing token: a stale leader's writes are rejected once a higher epoch
/// exists. The leader-only command yields a placement whose replicas are exactly the leader.
#[derive(Debug, Clone, PartialEq, Eq)]
pub struct Placement {
    /// The ordered set of replica node ids that hold this partition, leader first.
    pub replicas: Vec<u64>,
    /// The node id currently designated leader for the partition.
    pub leader: u64,
    /// The monotonic leadership epoch assigned at this placement.
    pub epoch: u64,
}

/// A placement as a mathematical value.
#[verifier::ext_equal]
pub struct PlacementView {
    pub replicas: Seq<u64>,
    pub leader: u64,
    pub epoch: u64,
}

impl PlacementView {
    /// The leader is one of the replicas; in particular there is at least one replica.
    pub open spec fn valid(self) -> bool {
        self.replicas.contains(self.leader)
    }

    /// A valid placement whose replica count has an exact prefix.
    pub open spec fn encodable(self) -> bool {
        self.valid() && self.replicas.len() <= u32::MAX
    }
}

impl View for Placement {
    type V = PlacementView;

    open spec fn view(&self) -> PlacementView {
        PlacementView { replicas: self.replicas@, leader: self.leader, epoch: self.epoch }
    }
}

/// The placement that a lone leader holds.
pub open spec fn leader_only_view(leader: u64, epoch: u64) -> PlacementView {
    PlacementView { replicas: seq![leader], leader, epoch }
}

impl Placement {
    /// A leader-only placement, whose replica set is exactly the leader.
    #[must_use]
    pub fn leader_only(leader: u64, epoch: u64) -> (p: Placement)
        ensures
            p@ == leader_only_view(leader, epoch),
            p@.valid(),
    {
        let mut replicas: Vec<u64> = Vec::new();
        replicas.push(leader);
        assert(replicas@ =~= seq![leader]);
        assert(replicas@[0] == leader);
        Placement { replicas, leader, epoch }
    }

    /// The number of replica nodes holding this partition.
    #[must_use]
    pub fn replication_factor(&self) -> (n: usize)
        ensures
            n == self@.replicas.len(),
    {
        self.replicas.len()
    }

    /// An equal placement.
    pub fn duplicate(&self) -> (p: Placement)
        ensures
            p@ == self@,
    {
        let replicas = copy_ids(&self.replicas);
        Placement { replicas, leader: self.leader, epoch: self.epoch }
    }
}

/// The same ids in a vector of their own.
pub fn copy_ids(ids: &Vec<u64>) -> (r: Vec<u64>)
    ensures
        r@ == ids@,
{
    let r = ids.clone();
    assert(r@ =~= ids@);
    r
}

/// Whether `x` occurs in `ids`.
pub fn contains_id(ids: &Vec<u64>, x: u64) -> (r: bool)
    ensures
        r == ids@.contains(x),
{
    let mut i: usize = 0;
    while i < ids.len()
        invariant
            i <= ids.len(),
            forall|j: int| 0 <= j < i ==> ids@[j] != x,
        decreases ids.len() - i,
    {
        if ids[i] == x {
            assert(ids@[i as int] == x);
            return true;
        }
        i = i + 1;
    }
    false
}

/// One deterministic mutation of the metadata state machine.
#[derive(Debug, Clone, PartialEq, Eq)]
pub enum MetadataCommand {
    /// Add (or re-role) a node in the membership table.
    AddNode { node: u64, role: NodeRole },
    /// Remove a node from the membership table.
    RemoveNode { node: u64 },
    /// Assign `partition` to `leader` at `epoch`. It carries no replica set, so it yields a
    /// placement whose replicas are exactly the leader.
    AssignPartition { partition: u64, leader: u64, epoch: u64 },
    /// Place the full replica set of `partition`, with the `leader` among the replicas.
    PlacePartition { partition: u64, replicas: Vec<u64>, leader: u64, epoch: u64 },
    /// Set a cluster-wide configuration key to a value.
    SetConfig { key: String, value: String },
    /// Checkpoint the last-known quorum-committed high-watermark of `partition`. It is monotonic
    /// in the state machine: a lower checkpoint never lowers the bar.
    CheckpointCommittedHw { partition: u64, offset: u64 },
}

/// A metadata command as a mathematical value.
#[verifier::ext_equal]
pub enum CommandView {
    AddNode { node: u64, role: NodeRole },
    RemoveNode { node: u64 },
    AssignPartition { partition: u64, leader: u64, epoch: u64 },
    PlacePartition { partition: u64, placement: PlacementView },
    SetConfig { key: Seq<char>, value: Seq<char> },
    CheckpointCommittedHw { partition: u64, offset: u64 },
}

impl View for MetadataCommand {
    type V = CommandView;

    open spec fn view(&self) -> CommandView {
        match *self {
            MetadataCommand::AddNode { node, role } => CommandView::AddNode { node, role },
            MetadataCommand::RemoveNode { node } => CommandView::RemoveNode { node },
            MetadataCommand::AssignPartition { partition, leader, epoch } => {
                CommandView::AssignPartition { partition, leader, epoch }
            },
            MetadataCommand::PlacePartition { partition, replicas, leader, epoch } => {
                CommandView::PlacePartition {
                    partition,
                    placement: PlacementView { replicas: replicas@, leader, epoch },
                }
            },
            MetadataCommand::SetConfig { key, value } => CommandView::SetConfig {
                key: key@,
                value: value@,
            },
            MetadataCommand::CheckpointCommittedHw { partition, offset } => {
                CommandView::CheckpointCommittedHw { partition, offset }
            },
        }
    }
}

/// Command tags, stable on the wire.
pub const TAG_ADD_NODE: u8 = 1;

pub const TAG_REMOVE_NODE: u8 = 2;

pub const TAG_ASSIGN_PARTITION: u8 = 3;

pub const TAG_SET_CONFIG: u8 = 4;

pub const TAG_PLACE_PARTITION: u8 = 5;

pub const TAG_CHECKPOINT_COMMITTED_HW: u8 = 6;

/// The replica count, the replicas, the leader, and the epoch of a placement.
pub open spec fn placement_bytes(p: PlacementView) -> Seq<u8> {
    wire::len_prefix(p.replicas.len()) + wire::ids_bytes(p.replicas) + spec_u64_to_le_bytes(
        p.leader,
    ) + spec_u64_to_le_bytes(p.epoch)
}

/// The canonical wire bytes of a command.
pub open spec fn command_bytes(c: CommandView) -> Seq<u8> {
    match c {
        CommandView::AddNode { node, role } => seq![TAG_ADD_NODE] + spec_u64_to_le_bytes(node)
            + seq![role.spec_tag()],
        CommandView::RemoveNode { node } => seq![TAG_REMOVE_NODE] + spec_u64_to_le_bytes(node),
        CommandView::AssignPartition { partition, leader, epoch } => seq![TAG_ASSIGN_PARTITION]
            + spec_u64_to_le_bytes(partition) + spec_u64_to_le_bytes(leader)
            + spec_u64_to_le_bytes(epoch),
        CommandView::PlacePartition { partition, placement } => seq![TAG_PLACE_PARTITION]
            + spec_u64_to_le_bytes(partition) + placement_bytes(placement),
        CommandView::SetConfig { key, value } => seq![TAG_SET_CONFIG] + wire::text_bytes(key)
            + wire::text_bytes(value),
        CommandView::CheckpointCommittedHw { partition, offset } => seq![
            TAG_CHECKPOINT_COMMITTED_HW,
        ] + spec_u64_to_le_bytes(partition) + spec_u64_to_le_bytes(offset),
    }
}

/// The commands that survive the wire: a placement leads from its own replicas, and every count
/// has an exact prefix.
pub open spec fn encodable(c: CommandView) -> bool {
    match c {
        CommandView::PlacePartition { placement, .. } => placement.encodable(),
        CommandView::SetConfig { key, value } => wire::fits(key) && wire::fits(value),
        _ => true,
    }
}

/// Reading a placement. The replica count is held against the bytes that are left, and the two
/// shape errors come after the leader and the epoch have been read.
pub open spec fn read_placement(buf: Seq<u8>, pos: int) -> wire::Reading<PlacementView> {
    match wire::read_counted_ids(buf, pos) {
        Err(e) => Err(e),
        Ok((replicas, p1)) => match wire::read_u64(buf, p1) {
            Err(e) => Err(e),
            Ok((leader, p2)) => match wire::read_u64(buf, p2) {
                Err(e) => Err(e),
                Ok((epoch, p3)) => if replicas.len() == 0 {
                    Err(DecodeError::EmptyReplicaSet)
                } else if !replicas.contains(leader) {
                    Err(DecodeError::LeaderNotAReplica)
                } else {
                    Ok((PlacementView { replicas, leader, epoch }, p3))
                },
            },
        },
    }
}

/// Reading two ids.
pub open spec fn read_pair(buf: Seq<u8>, pos: int) -> wire::Reading<(u64, u64)> {
    match wire::read_u64(buf, pos) {
        Err(e) => Err(e),
        Ok((a, p1)) => match wire::read_u64(buf, p1) {
            Err(e) => Err(e),
            Ok((b, p2)) => Ok(((a, b), p2)),
        },
    }
}

/// Reading two texts.
pub open spec fn read_texts(buf: Seq<u8>, pos: int) -> wire::Reading<(Seq<char>, Seq<char>)> {
    match wire::read_text(buf, pos) {
        Err(e) => Err(e),
        Ok((a, p1)) => match wire::read_text(buf, p1) {
            Err(e) => Err(e),
            Ok((b, p2)) => Ok(((a, b), p2)),
        },
    }
}

/// Reading a role byte. A byte that is no role is reported as it was read.
pub open spec fn read_role(buf: Seq<u8>, pos: int) -> wire::Reading<NodeRole> {
    match wire::read_u8(buf, pos) {
        Err(e) => Err(e),
        Ok((tag, p)) => if tag == NodeRole::Voter.spec_tag() {
            Ok((NodeRole::Voter, p))
        } else if tag == NodeRole::Learner.spec_tag() {
            Ok((NodeRole::Learner, p))
        } else {
            Err(DecodeError::UnknownRole(tag))
        },
    }
}

/// Reading an id and a role.
pub open spec fn read_member(buf: Seq<u8>, pos: int) -> wire::Reading<(u64, NodeRole)> {
    match wire::read_u64(buf, pos) {
        Err(e) => Err(e),
        Ok((node, p1)) => match read_role(buf, p1) {
            Err(e) => Err(e),
            Ok((role, p2)) => Ok(((node, role), p2)),
        },
    }
}

/// Reading a partition id and its placement.
pub open spec fn read_placed(buf: Seq<u8>, pos: int) -> wire::Reading<(u64, PlacementView)> {
    match wire::read_u64(buf, pos) {
        Err(e) => Err(e),
        Ok((partition, p1)) => match read_placement(buf, p1) {
            Err(e) => Err(e),
            Ok((placement, p2)) => Ok(((partition, placement), p2)),
        },
    }
}

/// Reading the fields that follow a command's `tag`.
pub open spec fn read_fields(buf: Seq<u8>, tag: u8, pos: int) -> wire::Reading<CommandView> {
    if tag == TAG_ADD_NODE {
        match read_member(buf, pos) {
            Err(e) => Err(e),
            Ok(((node, role), at)) => Ok((CommandView::AddNode { node, role }, at)),
        }
    } else if tag == TAG_REMOVE_NODE {
        match wire::read_u64(buf, pos) {
            Err(e) => Err(e),
            Ok((node, at)) => Ok((CommandView::RemoveNode { node }, at)),
        }
    } else if tag == TAG_ASSIGN_PARTITION {
        match wire::read_u64(buf, pos) {
            Err(e) => Err(e),
            Ok((partition, p1)) => match read_pair(buf, p1) {
                Err(e) => Err(e),
                Ok(((leader, epoch), at)) => Ok(
                    (CommandView::AssignPartition { partition, leader, epoch }, at),
                ),
            },
        }
    } else if tag == TAG_PLACE_PARTITION {
        match read_placed(buf, pos) {
            Err(e) => Err(e),
            Ok(((partition, placement), at)) => Ok(
                (CommandView::PlacePartition { partition, placement }, at),
            ),
        }
    } else if tag == TAG_SET_CONFIG {
        match read_texts(buf, pos) {
            Err(e) => Err(e),
            Ok(((key, value), at)) => Ok((CommandView::SetConfig { key, value }, at)),
        }
    } else if tag == TAG_CHECKPOINT_COMMITTED_HW {
        match read_pair(buf, pos) {
            Err(e) => Err(e),
            Ok(((partition, offset), at)) => Ok(
                (CommandView::CheckpointCommittedHw { partition, offset }, at),
            ),
        }
    } else {
        Err(DecodeError::UnknownTag(tag))
    }
}

/// What the bytes of one command mean: exactly one command, with nothing after it.
pub open spec fn parse_command(buf: Seq<u8>) -> Result<CommandView, DecodeError> {
    match wire::read_u8(buf, 0) {
        Err(e) => Err(e),
        Ok((tag, pos)) => match read_fields(buf, tag, pos) {
            Err(e) => Err(e),
            Ok((c, at)) => if at == buf.len() {
                Ok(c)
            } else {
                Err(DecodeError::TrailingBytes)
            },
        },
    }
}

// ---- written and read parts agree ----

pub proof fn lemma_read_placement(buf: Seq<u8>, pos: int, p: PlacementView)
    requires
        0 <= pos <= buf.len(),
    ensures
        p.encodable() && wire::stands_at(buf, pos, placement_bytes(p)) ==> read_placement(
            buf,
            pos,
        ) == Ok::<(PlacementView, int), DecodeError>((p, pos + placement_bytes(p).len())),
        read_placement(buf, pos) matches Ok((q, at)) ==> (q == p ==> p.encodable() && at == pos
            + placement_bytes(p).len() && wire::stands_at(buf, pos, placement_bytes(p))),
{
    wire::lemma_id_widths();
    wire::lemma_ids_len(p.replicas);
    let n = p.replicas.len();
    let head = wire::len_prefix(n);
    let ids = wire::ids_bytes(p.replicas);
    let leader = spec_u64_to_le_bytes(p.leader);
    let epoch = spec_u64_to_le_bytes(p.epoch);
    let q1 = pos + 4;
    let q2 = q1 + 8 * n;
    wire::lemma_stands_split(buf, pos, head + ids + leader, epoch);
    wire::lemma_stands_split(buf, pos, head + ids, leader);
    wire::lemma_stands_split(buf, pos, head, ids);
    wire::lemma_read_u64(buf, q2, p.leader);
    wire::lemma_read_u64(buf, q2 + 8, p.epoch);
    if p.encodable() && wire::stands_at(buf, pos, placement_bytes(p)) {
        wire::lemma_read_u32(buf, pos, n as u32);
        wire::lemma_read_ids(buf, q1, p.replicas, Seq::empty());
        assert(Seq::<u64>::empty() + p.replicas =~= p.replicas);
        assert(p.replicas.len() > 0);
    }
    if read_placement(buf, pos) is Ok && read_placement(buf, pos)->Ok_0.0 == p {
        let count = wire::read_u32(buf, pos)->Ok_0.0;
        wire::lemma_read_u32(buf, pos, count);
        wire::lemma_read_ids_back(buf, q1, count as nat, Seq::empty());
        assert(p.replicas.subrange(0, p.replicas.len() as int) =~= p.replicas);
    }
}

pub proof fn lemma_read_member(buf: Seq<u8>, pos: int, node: u64, role: NodeRole)
    requires
        0 <= pos <= buf.len(),
    ensures
        read_member(buf, pos) == Ok::<((u64, NodeRole), int), DecodeError>(
            ((node, role), pos + 9),
        ) <==> wire::stands_at(buf, pos, spec_u64_to_le_bytes(node) + seq![role.spec_tag()]),
        read_member(buf, pos) matches Ok((_, at)) ==> at == pos + 9,
{
    wire::lemma_id_widths();
    wire::lemma_stands_split(buf, pos, spec_u64_to_le_bytes(node), seq![role.spec_tag()]);
    wire::lemma_read_u64(buf, pos, node);
    wire::lemma_read_u8(buf, pos + 8, role.spec_tag());
}

pub proof fn lemma_read_pair(buf: Seq<u8>, pos: int, a: u64, b: u64)
    requires
        0 <= pos <= buf.len(),
    ensures
        read_pair(buf, pos) == Ok::<((u64, u64), int), DecodeError>(((a, b), pos + 16))
            <==> wire::stands_at(buf, pos, spec_u64_to_le_bytes(a) + spec_u64_to_le_bytes(b)),
        read_pair(buf, pos) matches Ok((_, at)) ==> at == pos + 16,
{
    wire::lemma_id_widths();
    wire::lemma_stands_split(buf, pos, spec_u64_to_le_bytes(a), spec_u64_to_le_bytes(b));
    wire::lemma_read_u64(buf, pos, a);
    wire::lemma_read_u64(buf, pos + 8, b);
}

pub proof fn lemma_read_texts(buf: Seq<u8>, pos: int, a: Seq<char>, b: Seq<char>)
    requires
        0 <= pos <= buf.len(),
    ensures
        ({
            let form = wire::text_bytes(a) + wire::text_bytes(b);
            &&& wire::fits(a) && wire::fits(b) && wire::stands_at(buf, pos, form) ==> read_texts(
                buf,
                pos,
            ) == Ok::<((Seq<char>, Seq<char>), int), DecodeError>(((a, b), pos + form.len()))
            &&& read_texts(buf, pos) matches Ok((ab, at)) ==> (ab == (a, b) ==> wire::fits(a)
                && wire::fits(b) && at == pos + form.len() && wire::stands_at(buf, pos, form))
        }),
{
    let at1 = pos + wire::text_bytes(a).len();
    wire::lemma_stands_split(buf, pos, wire::text_bytes(a), wire::text_bytes(b));
    wire::lemma_read_text(buf, pos, a);
    wire::lemma_read_text(buf, at1, b);
}

pub proof fn lemma_read_placed(buf: Seq<u8>, pos: int, partition: u64, p: PlacementView)
    requires
        0 <= pos <= buf.len(),
    ensures
        ({
            let form = spec_u64_to_le_bytes(partition) + placement_bytes(p);
            &&& p.encodable() && wire::stands_at(buf, pos, form) ==> read_placed(buf, pos) == Ok::<
                ((u64, PlacementView), int),
                DecodeError,
            >(((partition, p), pos + form.len()))
            &&& read_placed(buf, pos) matches Ok((q, at)) ==> (q == (partition, p)
                ==> p.encodable() && at == pos + form.len() && wire::stands_at(buf, pos, form))
        }),
{
    wire::lemma_id_widths();
    wire::lemma_stands_split(buf, pos, spec_u64_to_le_bytes(partition), placement_bytes(p));
    wire::lemma_read_u64(buf, pos, partition);
    if pos + 8 <= buf.len() {
        lemma_read_placement(buf, pos + 8, p);
    }
}

/// The fields of a command, without its tag.
spec fn field_bytes(c: CommandView) -> Seq<u8> {
    command_bytes(c).drop_first()
}

spec fn tag_of(c: CommandView) -> u8 {
    match c {
        CommandView::AddNode { .. } => TAG_ADD_NODE,
        CommandView::RemoveNode { .. } => TAG_REMOVE_NODE,
        CommandView::AssignPartition { .. } => TAG_ASSIGN_PARTITION,
        CommandView::PlacePartition { .. } => TAG_PLACE_PARTITION,
        CommandView::SetConfig { .. } => TAG_SET_CONFIG,
        CommandView::CheckpointCommittedHw { .. } => TAG_CHECKPOINT_COMMITTED_HW,
    }
}

proof fn lemma_read_fields(buf: Seq<u8>, c: CommandView)
    requires
        buf.len() >= 1,
    ensures
        command_bytes(c) == seq![tag_of(c)] + field_bytes(c),
        encodable(c) && wire::stands_at(buf, 1, field_bytes(c)) ==> read_fields(buf, tag_of(c), 1)
            == Ok::<(CommandView, int), DecodeError>((c, 1int + field_bytes(c).len())),
        forall|tag: u8|
            #[trigger] read_fields(buf, tag, 1) matches Ok((d, at)) ==> (d == c ==> tag == tag_of(c)
                && encodable(c) && at == 1 + field_bytes(c).len() && wire::stands_at(
                buf,
                1,
                field_bytes(c),
            )),
{
    wire::lemma_id_widths();
    assert(command_bytes(c) =~= seq![tag_of(c)] + field_bytes(c));
    match c {
        CommandView::AddNode { node, role } => {
            assert(field_bytes(c) =~= spec_u64_to_le_bytes(node) + seq![role.spec_tag()]);
            lemma_read_member(buf, 1, node, role);
        },
        CommandView::RemoveNode { node } => {
            assert(field_bytes(c) =~= spec_u64_to_le_bytes(node));
            wire::lemma_read_u64(buf, 1, node);
        },
        CommandView::AssignPartition { partition, leader, epoch } => {
            let tail = spec_u64_to_le_bytes(leader) + spec_u64_to_le_bytes(epoch);
            assert(field_bytes(c) =~= spec_u64_to_le_bytes(partition) + tail);
            wire::lemma_stands_split(buf, 1, spec_u64_to_le_bytes(partition), tail);
            wire::lemma_read_u64(buf, 1, partition);
            if buf.len() >= 9 {
                lemma_read_pair(buf, 9, leader, epoch);
            }
        },
        CommandView::PlacePartition { partition, placement } => {
            assert(field_bytes(c) =~= spec_u64_to_le_bytes(partition) + placement_bytes(
                placement,
            ));
            lemma_read_placed(buf, 1, partition, placement);
        },
        CommandView::SetConfig { key, value } => {
            assert(field_bytes(c) =~= wire::text_bytes(key) + wire::text_bytes(value));
            lemma_read_texts(buf, 1, key, value);
        },
        CommandView::CheckpointCommittedHw { partition, offset } => {
            assert(field_bytes(c) =~= spec_u64_to_le_bytes(partition) + spec_u64_to_le_bytes(
                offset,
            ));
            lemma_read_pair(buf, 1, partition, offset);
        },
    }
}

/// Decoding undoes encoding: an encodable command is read back from its own bytes.
pub proof fn law_decode_undoes_encode(c: CommandView)
    requires
        encodable(c),
    ensures
        parse_command(command_bytes(c)) == Ok::<CommandView, DecodeError>(c),
{
    let buf = command_bytes(c);
    wire::lemma_id_widths();
    lemma_read_fields(buf, c);
    wire::lemma_stands_whole(buf, buf);
    wire::lemma_stands_split(buf, 0, seq![tag_of(c)], field_bytes(c));
    wire::lemma_read_u8(buf, 0, tag_of(c));
}

/// The wire form is canonical: bytes that decode are the encoding of the command they decode to,
/// and that command is encodable.
pub proof fn law_wire_form_is_canonical(buf: Seq<u8>)
    requires
        parse_command(buf) is Ok,
    ensures
        encodable(parse_command(buf)->Ok_0),
        command_bytes(parse_command(buf)->Ok_0) == buf,
{
    let c = parse_command(buf)->Ok_0;
    let tag = wire::read_u8(buf, 0)->Ok_0.0;
    lemma_read_fields(buf, c);
    assert(read_fields(buf, tag, 1) == Ok::<(CommandView, int), DecodeError>(
        (c, buf.len() as int),
    ));
    wire::lemma_read_u8(buf, 0, tag);
    wire::lemma_stands_split(buf, 0, seq![tag_of(c)], field_bytes(c));
    wire::lemma_stands_whole(buf, command_bytes(c));
}

// ---- a longer buffer ----

/// What was read off a buffer is read just so off a longer one that starts with it.
pub proof fn lemma_longer_entries(buf: Seq<u8>, extra: Seq<u8>, pos: int)
    requires
        0 <= pos,
    ensures
        read_placed(buf, pos) matches Ok((_, at)) ==> pos <= at <= buf.len() && read_placed(
            buf + extra,
            pos,
        ) == read_placed(buf, pos),
        read_member(buf, pos) matches Ok((_, at)) ==> pos <= at <= buf.len() && read_member(
            buf + extra,
            pos,
        ) == read_member(buf, pos),
        read_pair(buf, pos) matches Ok((_, at)) ==> pos <= at <= buf.len() && read_pair(
            buf + extra,
            pos,
        ) == read_pair(buf, pos),
        read_texts(buf, pos) matches Ok((_, at)) ==> pos <= at <= buf.len() && read_texts(
            buf + extra,
            pos,
        ) == read_texts(buf, pos),
{
    wire::lemma_longer_fields(buf, extra, pos);
    if wire::read_u64(buf, pos) is Ok {
        let p1 = wire::read_u64(buf, pos)->Ok_0.1;
        wire::lemma_longer_fields(buf, extra, p1);
        wire::lemma_longer_counted_ids(buf, extra, p1);
        if wire::read_counted_ids(buf, p1) is Ok {
            let p2 = wire::read_counted_ids(buf, p1)->Ok_0.1;
            wire::lemma_longer_fields(buf, extra, p2);
            if wire::read_u64(buf, p2) is Ok {
                wire::lemma_longer_fields(buf, extra, wire::read_u64(buf, p2)->Ok_0.1);
            }
        }
    }
    wire::lemma_longer_text(buf, extra, pos);
    if wire::read_text(buf, pos) is Ok {
        wire::lemma_longer_text(buf, extra, wire::read_text(buf, pos)->Ok_0.1);
    }
}

// ---- laws of the command form ----

/// The layout of each command: its tag, and its fields in their order, numbers in eight
/// little-endian bytes, a role in one, a count in four.
pub proof fn law_command_layout(c: CommandView)
    ensures
        match c {
            CommandView::AddNode { node, role } => command_bytes(c) == seq![1u8]
                + spec_u64_to_le_bytes(node) + seq![
                if role == NodeRole::Voter {
                    0u8
                } else {
                    1u8
                },
            ],
            CommandView::RemoveNode { node } => command_bytes(c) == seq![2u8]
                + spec_u64_to_le_bytes(node),
            CommandView::AssignPartition { partition, leader, epoch } => command_bytes(c) == seq![
                3u8,
            ] + spec_u64_to_le_bytes(partition) + spec_u64_to_le_bytes(leader)
                + spec_u64_to_le_bytes(epoch),
            CommandView::SetConfig { key, value } => {
                let k = vstd::utf8::encode_utf8(key);
                let v = vstd::utf8::encode_utf8(value);
                k.len() <= u32::MAX && v.len() <= u32::MAX ==> command_bytes(c) == seq![4u8]
                    + spec_u32_to_le_bytes(k.len() as u32) + k + spec_u32_to_le_bytes(
                    v.len() as u32,
                ) + v
            },
            CommandView::PlacePartition { partition, placement: p } => p.replicas.len() <= u32::MAX
                ==> {
                let b = command_bytes(c);
                let n = p.replicas.len() as int;
                &&& b.len() == 29 + 8 * n
                &&& b[0] == 5
                &&& b.subrange(1, 9) == spec_u64_to_le_bytes(partition)
                &&& b.subrange(9, 13) == spec_u32_to_le_bytes(n as u32)
                &&& forall|i: int|
                    0 <= i < n ==> b.subrange(13 + 8 * i, 21 + 8 * i) == spec_u64_to_le_bytes(
                        #[trigger] p.replicas[i],
                    )
                &&& b.subrange(13 + 8 * n, 21 + 8 * n) == spec_u64_to_le_bytes(p.leader)
                &&& b.subrange(21 + 8 * n, 29 + 8 * n) == spec_u64_to_le_bytes(p.epoch)
            },
            CommandView::CheckpointCommittedHw { partition, offset } => command_bytes(c) == seq![
                6u8,
            ] + spec_u64_to_le_bytes(partition) + spec_u64_to_le_bytes(offset),
        },
{
    wire::lemma_id_widths();
    match c {
        CommandView::AddNode { node, role } => {
            assert(command_bytes(c) =~= seq![1u8] + spec_u64_to_le_bytes(node) + seq![
                if role == NodeRole::Voter {
                    0u8
                } else {
                    1u8
                },
            ]);
        },
        CommandView::SetConfig { key, value } => {
            let k = vstd::utf8::encode_utf8(key);
            let v = vstd::utf8::encode_utf8(value);
            if k.len() <= u32::MAX && v.len() <= u32::MAX {
                assert(command_bytes(c) =~= seq![4u8] + spec_u32_to_le_bytes(k.len() as u32) + k
                    + spec_u32_to_le_bytes(v.len() as u32) + v);
            }
        },
        CommandView::PlacePartition { partition, placement: p } => {
            if p.replicas.len() <= u32::MAX {
                let b = command_bytes(c);
                let n = p.replicas.len() as int;
                let ids = wire::ids_bytes(p.replicas);
                wire::lemma_ids_len(p.replicas);
                assert(b.subrange(1, 9) =~= spec_u64_to_le_bytes(partition));
                assert(b.subrange(9, 13) =~= spec_u32_to_le_bytes(n as u32));
                assert forall|i: int| 0 <= i < n implies b.subrange(13 + 8 * i, 21 + 8 * i)
                    == spec_u64_to_le_bytes(#[trigger] p.replicas[i]) by {
                    wire::law_ids_layout(p.replicas, i);
                    assert(b.subrange(13 + 8 * i, 21 + 8 * i) =~= ids.subrange(8 * i, 8 * i + 8));
                }
                assert(b.subrange(13 + 8 * n, 21 + 8 * n) =~= spec_u64_to_le_bytes(p.leader));
                assert(b.subrange(21 + 8 * n, 29 + 8 * n) =~= spec_u64_to_le_bytes(p.epoch));
            }
        },
        _ => {},
    }
}

/// Every command that can be said is read back from its own bytes: each that names no replicas and
/// no text, a text whose bytes a count can say, and a placement that leads from its own replicas.
pub proof fn law_every_sayable_command_is_read_back(c: CommandView)
    requires
        match c {
            CommandView::PlacePartition { placement, .. } => placement.replicas.len() <= u32::MAX
                && exists|i: int|
                0 <= i < placement.replicas.len() && #[trigger] placement.replicas[i]
                    == placement.leader,
            CommandView::SetConfig { key, value } => vstd::utf8::encode_utf8(key).len() <= u32::MAX
                && vstd::utf8::encode_utf8(value).len() <= u32::MAX,
            _ => true,
        },
    ensures
        parse_command(command_bytes(c)) == Ok::<CommandView, DecodeError>(c),
{
    law_decode_undoes_encode(c);
}

/// A command stands alone: bytes after it are refused as such, and a command that is cut short
/// anywhere decodes to nothing.
pub proof fn law_command_stands_alone(c: CommandView, extra: Seq<u8>, cut: int)
    requires
        encodable(c),
        extra.len() > 0,
        0 <= cut < command_bytes(c).len(),
    ensures
        parse_command(command_bytes(c) + extra) == Err::<CommandView, DecodeError>(
            DecodeError::TrailingBytes,
        ),
        parse_command(command_bytes(c).take(cut)) is Err,
{
    lemma_nothing_may_follow(c, extra);
    law_decode_undoes_encode(c);
    let short = command_bytes(c).take(cut);
    if parse_command(short) is Ok {
        let d = parse_command(short)->Ok_0;
        let rest = command_bytes(c).skip(cut);
        law_wire_form_is_canonical(short);
        lemma_nothing_may_follow(d, rest);
        assert(short + rest =~= command_bytes(c));
    }
}

proof fn lemma_nothing_may_follow(c: CommandView, extra: Seq<u8>)
    requires
        encodable(c),
        extra.len() > 0,
    ensures
        parse_command(command_bytes(c) + extra) == Err::<CommandView, DecodeError>(
            DecodeError::TrailingBytes,
        ),
{
    let buf = command_bytes(c) + extra;
    assert(buf.subrange(0, command_bytes(c).len() as int) =~= command_bytes(c));
    lemma_read_fields(buf, c);
    wire::lemma_stands_split(buf, 0, seq![tag_of(c)], field_bytes(c));
    wire::lemma_read_u8(buf, 0, tag_of(c));
}

/// What is no command is refused, and how: no bytes at all as truncated, a tag outside the six by
/// that tag, a byte outside the two roles by that byte, a fixed-size command that is cut short as
/// truncated.
pub proof fn law_no_command_is_refused(buf: Seq<u8>)
    ensures
        buf.len() == 0 ==> parse_command(buf) == Err::<CommandView, DecodeError>(
            DecodeError::Truncated,
        ),
        buf.len() > 0 && (buf[0] == 0 || buf[0] > 6) ==> parse_command(buf) == Err::<
            CommandView,
            DecodeError,
        >(DecodeError::UnknownTag(buf[0])),
        buf.len() >= 10 && buf[0] == 1 && buf[9] > 1 ==> parse_command(buf) == Err::<
            CommandView,
            DecodeError,
        >(DecodeError::UnknownRole(buf[9])),
        0 < buf.len() < 10 && buf[0] == 1 ==> parse_command(buf) == Err::<CommandView, DecodeError>(
            DecodeError::Truncated,
        ),
        0 < buf.len() < 9 && buf[0] == 2 ==> parse_command(buf) == Err::<CommandView, DecodeError>(
            DecodeError::Truncated,
        ),
        0 < buf.len() < 25 && buf[0] == 3 ==> parse_command(buf) == Err::<CommandView, DecodeError>(
            DecodeError::Truncated,
        ),
        0 < buf.len() < 17 && buf[0] == 6 ==> parse_command(buf) == Err::<CommandView, DecodeError>(
            DecodeError::Truncated,
        ),
{
}

/// A placement that nobody in it leads is refused, and how: with no replicas as empty, and with
/// replicas but a leader from outside as such.
pub proof fn law_leaderless_placement_is_refused(partition: u64, placement: PlacementView)
    requires
        placement.replicas.len() <= u32::MAX,
        !placement.replicas.contains(placement.leader),
    ensures
        parse_command(command_bytes(CommandView::PlacePartition { partition, placement })) == Err::<
            CommandView,
            DecodeError,
        >(
            if placement.replicas.len() == 0 {
                DecodeError::EmptyReplicaSet
            } else {
                DecodeError::LeaderNotAReplica
            },
        ),
{
    let p = placement;
    let buf = command_bytes(CommandView::PlacePartition { partition, placement });
    let n = p.replicas.len();
    let tag = seq![TAG_PLACE_PARTITION];
    let id = spec_u64_to_le_bytes(partition);
    let head = wire::len_prefix(n);
    let ids = wire::ids_bytes(p.replicas);
    let leader = spec_u64_to_le_bytes(p.leader);
    let epoch = spec_u64_to_le_bytes(p.epoch);
    wire::lemma_id_widths();
    wire::lemma_ids_len(p.replicas);
    wire::lemma_stands_whole(buf, buf);
    wire::lemma_stands_split(buf, 0, tag + id, placement_bytes(p));
    wire::lemma_stands_split(buf, 0, tag, id);
    wire::lemma_stands_split(buf, 9, head + ids + leader, epoch);
    wire::lemma_stands_split(buf, 9, head + ids, leader);
    wire::lemma_stands_split(buf, 9, head, ids);
    wire::lemma_read_u8(buf, 0, TAG_PLACE_PARTITION);
    wire::lemma_read_u64(buf, 1, partition);
    wire::lemma_read_u32(buf, 9, n as u32);
    wire::lemma_read_ids(buf, 13, p.replicas, Seq::empty());
    wire::lemma_read_u64(buf, 13 + 8 * n as int, p.leader);
    wire::lemma_read_u64(buf, 21 + 8 * n as int, p.epoch);
    assert(Seq::<u64>::empty() + p.replicas =~= p.replicas);
}

/// A lone leader's placement is led by it and held by nobody else.
pub proof fn law_lone_leader_holds_its_placement(leader: u64, epoch: u64, node: u64)
    ensures
        leader_only_view(leader, epoch).leader == leader,
        leader_only_view(leader, epoch).epoch == epoch,
        leader_only_view(leader, epoch).replicas.len() == 1,
        leader_only_view(leader, epoch).replicas.contains(node) <==> node == leader,
        leader_only_view(leader, epoch).valid(),
{
    assert(leader_only_view(leader, epoch).replicas[0] == leader);
}

// ---- encoding and decoding ----

/// Append the bytes of a placement.
pub fn put_placement(out: &mut Vec<u8>, replicas: &Vec<u64>, leader: u64, epoch: u64)
    ensures
        final(out)@ == old(out)@ + placement_bytes(
            PlacementView { replicas: replicas@, leader, epoch },
        ),
{
    wire::push_u32_len(out, replicas.len());
    wire::put_ids(out, replicas);
    wire::put_u64(out, leader);
    wire::put_u64(out, epoch);
    assert(out@ =~= old(out)@ + placement_bytes(
        PlacementView { replicas: replicas@, leader, epoch },
    ));
}

/// Read a placement; see [`read_placement`].
pub fn take_placement(cur: &mut Cursor) -> (r: Result<Placement, DecodeError>)
    requires
        old(cur).wf(),
    ensures
        final(cur).wf(),
        final(cur).buf == old(cur).buf,
        match r {
            Ok(p) => read_placement(old(cur).buf@, old(cur).pos as int) == Ok::<
                (PlacementView, int),
                DecodeError,
            >((p@, final(cur).pos as int)),
            Err(e) => read_placement(old(cur).buf@, old(cur).pos as int) == Err::<
                (PlacementView, int),
                DecodeError,
            >(e),
        },
{
    let replicas = cur.counted_ids()?;
    let leader = cur.u64()?;
    let epoch = cur.u64()?;
    if replicas.len() == 0 {
        return Err(DecodeError::EmptyReplicaSet);
    }
    if !contains_id(&replicas, leader) {
        return Err(DecodeError::LeaderNotAReplica);
    }
    Ok(Placement { replicas, leader, epoch })
}

/// Read a role byte; see [`read_role`].
pub fn take_role(cur: &mut Cursor) -> (r: Result<NodeRole, DecodeError>)
    requires
        old(cur).wf(),
    ensures
        final(cur).follows(old(cur), r, read_role(old(cur).buf@, old(cur).pos as int)),
{
    let tag = cur.u8()?;
    match NodeRole::from_tag(tag) {
        Some(role) => Ok(role),
        None => {
            assert(tag != NodeRole::Voter.spec_tag());
            assert(tag != NodeRole::Learner.spec_tag());
            Err(DecodeError::UnknownRole(tag))
        },
    }
}

impl MetadataCommand {
    /// Encode the command to its canonical little-endian wire bytes.
    #[must_use]
    pub fn encode(&self) -> (out: Vec<u8>)
        ensures
            out@ == command_bytes(self@),
    {
        let mut out: Vec<u8> = Vec::new();
        match self {
            MetadataCommand::AddNode { node, role } => {
                out.push(TAG_ADD_NODE);
                wire::put_u64(&mut out, *node);
                out.push(role.tag());
            },
            MetadataCommand::RemoveNode { node } => {
                out.push(TAG_REMOVE_NODE);
                wire::put_u64(&mut out, *node);
            },
            MetadataCommand::AssignPartition { partition, leader, epoch } => {
                out.push(TAG_ASSIGN_PARTITION);
                wire::put_u64(&mut out, *partition);
                wire::put_u64(&mut out, *leader);
                wire::put_u64(&mut out, *epoch);
            },
            MetadataCommand::PlacePartition { partition, replicas, leader, epoch } => {
                out.push(TAG_PLACE_PARTITION);
                wire::put_u64(&mut out, *partition);
                put_placement(&mut out, replicas, *leader, *epoch);
            },
            MetadataCommand::SetConfig { key, value } => {
                out.push(TAG_SET_CONFIG);
                wire::push_str(&mut out, key.as_str());
                wire::push_str(&mut out, value.as_str());
            },
            MetadataCommand::CheckpointCommittedHw { partition, offset } => {
                out.push(TAG_CHECKPOINT_COMMITTED_HW);
                wire::put_u64(&mut out, *partition);
                wire::put_u64(&mut out, *offset);
            },
        }
        assert(out@ =~= command_bytes(self@));
        out
    }

    /// Decode exactly one command from `buf`, requiring `buf` to be fully consumed.
    pub fn decode(buf: &[u8]) -> (r: Result<MetadataCommand, DecodeError>)
        ensures
            match r {
                Ok(c) => parse_command(buf@) == Ok::<CommandView, DecodeError>(c@),
                Err(e) => parse_command(buf@) == Err::<CommandView, DecodeError>(e),
            },
    {
        let mut cur = Cursor::new(buf);
        let tag = cur.u8()?;
        let cmd = match tag {
            TAG_ADD_NODE => {
                let node = cur.u64()?;
                let role = take_role(&mut cur)?;
                MetadataCommand::AddNode { node, role }
            },
            TAG_REMOVE_NODE => {
                let node = cur.u64()?;
                MetadataCommand::RemoveNode { node }
            },
            TAG_ASSIGN_PARTITION => {
                let partition = cur.u64()?;
                let leader = cur.u64()?;
                let epoch = cur.u64()?;
                MetadataCommand::AssignPartition { partition, leader, epoch }
            },
            TAG_PLACE_PARTITION => {
                let partition = cur.u64()?;
                let p = take_placement(&mut cur)?;
                MetadataCommand::PlacePartition {
                    partition,
                    replicas: p.replicas,
                    leader: p.leader,
                    epoch: p.epoch,
                }
            },
            TAG_SET_CONFIG => {
                let key = cur.string()?;
                let value = cur.string()?;
                MetadataCommand::SetConfig { key, value }
            },
            TAG_CHECKPOINT_COMMITTED_HW => {
                let partition = cur.u64()?;
                let offset = cur.u64()?;
                MetadataCommand::CheckpointCommittedHw { partition, offset }
            },
            other => {
                return Err(DecodeError::UnknownTag(other));
            },
        };
        if cur.remaining() != 0 {
            return Err(DecodeError::TrailingBytes);
        }
        Ok(cmd)
    }
}

}
