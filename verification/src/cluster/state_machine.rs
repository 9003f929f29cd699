//! The metadata state machine: the deterministic, replicated cluster control plane.
//!
//! It holds the cluster membership, the placement and leader epoch of every partition, the
//! checkpointed committed high-watermarks, and the cluster-wide configuration. It is a plain,
//! synchronous value with no I/O: committed log entries are decoded into commands and applied
//! here, and the whole state can be written to, and restored from, a canonical snapshot.

use std::collections::BTreeMap;
use vstd::bytes::*;
use vstd::prelude::*;
use vstd::std_specs::btree::*;

use crate::cluster::command;
use crate::cluster::command::{
    CommandView, MetadataCommand, NodeRole, Placement, PlacementView,
};
use crate::cluster::error::DecodeError;
use crate::cluster::ids;
use crate::cluster::order;
use crate::cluster::text_map::TextMap;
use crate::cluster::wire;
use crate::cluster::wire::Cursor;

verus! {

broadcast use {vstd::laws_cmp::group_laws_cmp, group_btree_axioms};

/// The control-plane state as a mathematical value.
#[verifier::ext_equal]
pub struct StateView {
    /// node id -> role.
    pub members: Map<u64, NodeRole>,
    /// partition id -> current placement.
    pub placements: Map<u64, PlacementView>,
    /// partition id -> last-checkpointed committed high-watermark.
    pub committed_hw: Map<u64, u64>,
    /// cluster-wide configuration.
    pub config: Map<Seq<char>, Seq<char>>,
    /// The index of the last applied entry.
    pub applied_index: u64,
}

/// The value that a map holds for `k`, or `default`.
pub open spec fn value_or<K, V>(m: Map<K, V>, k: K, default: V) -> V {
    if m.contains_key(k) {
        m[k]
    } else {
        default
    }
}

pub open spec fn max_of(a: u64, b: u64) -> u64 {
    if a >= b {
        a
    } else {
        b
    }
}

impl StateView {
    /// The empty control plane.
    pub open spec fn empty() -> StateView {
        StateView {
            members: Map::empty(),
            placements: Map::empty(),
            committed_hw: Map::empty(),
            config: Map::empty(),
            applied_index: 0,
        }
    }

    /// The state after one command, applied at `index`.
    pub open spec fn apply(self, index: u64, c: CommandView) -> StateView {
        let s = StateView { applied_index: index, ..self };
        match c {
            CommandView::AddNode { node, role } => StateView {
                members: self.members.insert(node, role),
                ..s
            },
            CommandView::RemoveNode { node } => StateView {
                members: self.members.remove(node),
                ..s
            },
            CommandView::AssignPartition { partition, leader, epoch } => StateView {
                placements: self.placements.insert(
                    partition,
                    command::leader_only_view(leader, epoch),
                ),
                ..s
            },
            CommandView::PlacePartition { partition, placement } => StateView {
                placements: self.placements.insert(partition, placement),
                ..s
            },
            CommandView::SetConfig { key, value } => StateView {
                config: self.config.insert(key, value),
                ..s
            },
            CommandView::CheckpointCommittedHw { partition, offset } => StateView {
                committed_hw: self.committed_hw.insert(
                    partition,
                    max_of(value_or(self.committed_hw, partition, 0), offset),
                ),
                ..s
            },
        }
    }

    /// The state after a configuration change, applied at `index`.
    pub open spec fn reconfigured(self, index: u64, members: Map<u64, NodeRole>) -> StateView {
        StateView { members, applied_index: index, ..self }
    }

    /// The state after a run of commands, each with its log index.
    pub open spec fn replay(self, log: Seq<(u64, CommandView)>) -> StateView
        decreases log.len(),
    {
        if log.len() == 0 {
            self
        } else {
            self.replay(log.drop_last()).apply(log.last().0, log.last().1)
        }
    }

    /// Every placement leads from its own replicas.
    pub open spec fn placements_valid(self) -> bool {
        forall|p: u64| #[trigger]
            self.placements.contains_key(p) ==> self.placements[p].valid()
    }

    /// The states that survive a snapshot: every placement leads from its own replicas, and every
    /// count and text length has an exact prefix.
    pub open spec fn snapshotable(self) -> bool {
        &&& self.members.dom().finite() && self.members.dom().len() <= u32::MAX
        &&& self.placements.dom().finite() && self.placements.dom().len() <= u32::MAX
        &&& self.committed_hw.dom().finite() && self.committed_hw.dom().len() <= u32::MAX
        &&& self.config.dom().finite() && self.config.dom().len() <= u32::MAX
        &&& forall|p: u64| #[trigger]
            self.placements.contains_key(p) ==> self.placements[p].encodable()
        &&& forall|k: Seq<char>| #[trigger]
            self.config.contains_key(k) ==> wire::fits(k) && wire::fits(self.config[k])
    }
}

/// The serialized-snapshot format version.
pub const SNAPSHOT_VERSION: u8 = 1;

/// A member on the wire: its id and its role byte.
pub open spec fn member_form(m: Map<u64, NodeRole>) -> spec_fn(u64) -> Seq<u8> {
    |n: u64| spec_u64_to_le_bytes(n) + seq![m[n].spec_tag()]
}

/// A placed partition on the wire: its id and its placement.
pub open spec fn placed_form(m: Map<u64, PlacementView>) -> spec_fn(u64) -> Seq<u8> {
    |p: u64| spec_u64_to_le_bytes(p) + command::placement_bytes(m[p])
}

/// A checkpoint on the wire: the partition id and the offset.
pub open spec fn hw_form(m: Map<u64, u64>) -> spec_fn(u64) -> Seq<u8> {
    |p: u64| spec_u64_to_le_bytes(p) + spec_u64_to_le_bytes(m[p])
}

/// A configuration entry on the wire: the key and the value.
pub open spec fn config_form(m: Map<Seq<char>, Seq<char>>) -> spec_fn(Seq<char>) -> Seq<u8> {
    |k: Seq<char>| wire::text_bytes(k) + wire::text_bytes(m[k])
}

/// A section of a snapshot: the entry count, then the entries in the order `keys`.
pub open spec fn section_of<K>(keys: Seq<K>, form: spec_fn(K) -> Seq<u8>) -> Seq<u8> {
    wire::len_prefix(keys.len()) + wire::written(keys, form)
}

pub open spec fn members_section(m: Map<u64, NodeRole>) -> Seq<u8> {
    section_of(order::sorted(m.dom(), order::id_order()), member_form(m))
}

pub open spec fn placements_section(m: Map<u64, PlacementView>) -> Seq<u8> {
    section_of(order::sorted(m.dom(), order::id_order()), placed_form(m))
}

pub open spec fn hw_section(m: Map<u64, u64>) -> Seq<u8> {
    section_of(order::sorted(m.dom(), order::id_order()), hw_form(m))
}

pub open spec fn config_section(m: Map<Seq<char>, Seq<char>>) -> Seq<u8> {
    section_of(order::sorted(m.dom(), order::text_order()), config_form(m))
}

/// The canonical snapshot of a state: the format version, the applied index, and the four maps
/// in key order. It depends on nothing but the state.
pub open spec fn snapshot_bytes(s: StateView) -> Seq<u8> {
    seq![SNAPSHOT_VERSION] + spec_u64_to_le_bytes(s.applied_index) + members_section(s.members)
        + placements_section(s.placements) + hw_section(s.committed_hw) + config_section(s.config)
}

/// A reader of one entry of a section.
pub type EntryReader<K, V> = spec_fn(Seq<u8>, int) -> wire::Reading<(K, V)>;

pub open spec fn member_reader() -> EntryReader<u64, NodeRole> {
    |buf: Seq<u8>, pos: int| command::read_member(buf, pos)
}

pub open spec fn placed_reader() -> EntryReader<u64, PlacementView> {
    |buf: Seq<u8>, pos: int| command::read_placed(buf, pos)
}

pub open spec fn hw_reader() -> EntryReader<u64, u64> {
    |buf: Seq<u8>, pos: int| command::read_pair(buf, pos)
}

pub open spec fn config_reader() -> EntryReader<Seq<char>, Seq<char>> {
    |buf: Seq<u8>, pos: int| command::read_texts(buf, pos)
}

/// Reading `n` entries into `acc`; a later entry for the same key takes the place of an earlier.
pub open spec fn read_entries<K, V>(
    buf: Seq<u8>,
    pos: int,
    n: nat,
    entry: EntryReader<K, V>,
    acc: Map<K, V>,
) -> wire::Reading<Map<K, V>>
    decreases n,
{
    if n == 0 {
        Ok((acc, pos))
    } else {
        match entry(buf, pos) {
            Err(e) => Err(e),
            Ok(((k, v), at)) => read_entries(buf, at, (n - 1) as nat, entry, acc.insert(k, v)),
        }
    }
}

/// Reading a section. A count whose entries, at `width` bytes each, cannot all be present is
/// refused before any entry is read.
pub open spec fn read_section<K, V>(
    buf: Seq<u8>,
    pos: int,
    width: nat,
    entry: EntryReader<K, V>,
) -> wire::Reading<Map<K, V>> {
    match wire::read_u32(buf, pos) {
        Err(e) => Err(e),
        Ok((n, at)) => if buf.len() - at < width * n {
            Err(DecodeError::BadLength)
        } else {
            read_entries(buf, at, n as nat, entry, Map::empty())
        },
    }
}

/// What the bytes of a snapshot mean: exactly one state, with nothing after it.
pub open spec fn parse_snapshot(buf: Seq<u8>) -> Result<StateView, DecodeError> {
    match wire::read_u8(buf, 0) {
        Err(e) => Err(e),
        Ok((version, p0)) => if version != SNAPSHOT_VERSION {
            Err(DecodeError::UnknownSnapshotVersion(version))
        } else {
            match wire::read_u64(buf, p0) {
                Err(e) => Err(e),
                Ok((applied_index, p1)) => parse_sections(buf, p1, applied_index),
            }
        },
    }
}

/// The four sections of a snapshot, from `pos` to the end of the buffer.
pub open spec fn parse_sections(buf: Seq<u8>, pos: int, applied_index: u64) -> Result<
    StateView,
    DecodeError,
> {
    match read_section(buf, pos, 9, member_reader()) {
        Err(e) => Err(e),
        Ok((members, p2)) => match read_section(buf, p2, 0, placed_reader()) {
            Err(e) => Err(e),
            Ok((placements, p3)) => match read_section(buf, p3, 16, hw_reader()) {
                Err(e) => Err(e),
                Ok((committed_hw, p4)) => match read_section(buf, p4, 0, config_reader()) {
                    Err(e) => Err(e),
                    Ok((config, p5)) => if p5 != buf.len() {
                        Err(DecodeError::TrailingBytes)
                    } else {
                        Ok(StateView { members, placements, committed_hw, config, applied_index })
                    },
                },
            },
        },
    }
}

// ---- the size of a snapshot ----

/// The sizes of the items of `keys`, added up.
pub open spec fn total<K>(keys: Seq<K>, size: spec_fn(K) -> nat) -> nat
    decreases keys.len(),
{
    if keys.len() == 0 {
        0
    } else {
        total(keys.drop_last(), size) + size(keys.last())
    }
}

/// The size of a placed partition on the wire.
pub open spec fn placed_size(m: Map<u64, PlacementView>) -> spec_fn(u64) -> nat {
    |p: u64| 28 + 8 * m[p].replicas.len()
}

/// The size of a configuration entry on the wire.
pub open spec fn config_size(m: Map<Seq<char>, Seq<char>>) -> spec_fn(Seq<char>) -> nat {
    |k: Seq<char>| 8 + vstd::utf8::encode_utf8(k).len() + vstd::utf8::encode_utf8(m[k]).len()
}

/// The size of a snapshot: a fixed head, and what each entry of the four live tables takes.
pub open spec fn snapshot_len(s: StateView) -> nat {
    25 + 9 * s.members.dom().len() + total(
        order::sorted(s.placements.dom(), order::id_order()),
        placed_size(s.placements),
    ) + 16 * s.committed_hw.dom().len() + total(
        order::sorted(s.config.dom(), order::text_order()),
        config_size(s.config),
    )
}

proof fn lemma_written_total<K>(
    keys: Seq<K>,
    form: spec_fn(K) -> Seq<u8>,
    size: spec_fn(K) -> nat,
)
    requires
        forall|k: K| #[trigger] form(k).len() == size(k),
    ensures
        wire::written(keys, form).len() == total(keys, size),
    decreases keys.len(),
{
    if keys.len() > 0 {
        lemma_written_total(keys.drop_last(), form, size);
    }
}

proof fn lemma_written_even<K>(keys: Seq<K>, form: spec_fn(K) -> Seq<u8>, width: nat)
    requires
        forall|k: K| #[trigger] form(k).len() == width,
    ensures
        wire::written(keys, form).len() == width * keys.len(),
    decreases keys.len(),
{
    if keys.len() > 0 {
        lemma_written_even(keys.drop_last(), form, width);
        assert(width * keys.len() == width * keys.drop_last().len() + width) by (nonlinear_arith)
            requires
                keys.len() == keys.drop_last().len() + 1,
        ;
    } else {
        assert(width * keys.len() == 0) by (nonlinear_arith)
            requires
                keys.len() == 0,
        ;
    }
}

/// A snapshot is bounded by the live tables: its size is that of its head and of the entries, and
/// so does not grow with the number of commands that led to the state.
pub proof fn law_snapshot_size(s: StateView)
    requires
        s.members.dom().finite(),
        s.placements.dom().finite(),
        s.committed_hw.dom().finite(),
        s.config.dom().finite(),
    ensures
        snapshot_bytes(s).len() == snapshot_len(s),
{
    order::lemma_id_order();
    order::lemma_text_order();
    wire::lemma_id_widths();
    let ids = order::id_order();
    order::lemma_sorted(s.members.dom(), ids);
    order::lemma_listing_len(order::sorted(s.members.dom(), ids), s.members.dom(), ids);
    order::lemma_sorted(s.committed_hw.dom(), ids);
    order::lemma_listing_len(order::sorted(s.committed_hw.dom(), ids), s.committed_hw.dom(), ids);
    lemma_written_even(order::sorted(s.members.dom(), ids), member_form(s.members), 9);
    lemma_written_even(order::sorted(s.committed_hw.dom(), ids), hw_form(s.committed_hw), 16);
    assert forall|p: u64| #[trigger]
        (placed_form(s.placements))(p).len() == (placed_size(s.placements))(p) by {
        wire::lemma_ids_len(s.placements[p].replicas);
    }
    lemma_written_total(
        order::sorted(s.placements.dom(), ids),
        placed_form(s.placements),
        placed_size(s.placements),
    );
    lemma_written_total(
        order::sorted(s.config.dom(), order::text_order()),
        config_form(s.config),
        config_size(s.config),
    );
}

// ---- a snapshot reads back ----

/// `entry` reads the form of `k` back as `k` and `m[k]`, and forms are at least `width` long.
spec fn reads_back<K, V>(
    k: K,
    m: Map<K, V>,
    form: spec_fn(K) -> Seq<u8>,
    entry: EntryReader<K, V>,
    width: nat,
) -> bool {
    &&& form(k).len() >= width
    &&& forall|buf: Seq<u8>, pos: int|
        0 <= pos && #[trigger] wire::stands_at(buf, pos, form(k)) ==> entry(buf, pos) == Ok::<
            ((K, V), int),
            DecodeError,
        >(((k, m[k]), pos + form(k).len()))
}

proof fn lemma_read_entries<K, V>(
    buf: Seq<u8>,
    pos: int,
    keys: Seq<K>,
    m: Map<K, V>,
    form: spec_fn(K) -> Seq<u8>,
    entry: EntryReader<K, V>,
    width: nat,
    acc: Map<K, V>,
)
    requires
        0 <= pos,
        wire::stands_at(buf, pos, wire::written(keys, form)),
        forall|i: int|
            0 <= i < keys.len() ==> reads_back(#[trigger] keys[i], m, form, entry, width)
                && m.contains_key(keys[i]),
    ensures
        read_entries(buf, pos, keys.len(), entry, acc) == Ok::<(Map<K, V>, int), DecodeError>(
            (
                acc.union_prefer_right(m.restrict(keys.to_set())),
                pos + wire::written(keys, form).len(),
            ),
        ),
        wire::written(keys, form).len() >= width * keys.len(),
    decreases keys.len(),
{
    if keys.len() == 0 {
        assert(acc.union_prefer_right(m.restrict(keys.to_set())) =~= acc);
        assert(width * keys.len() == 0) by (nonlinear_arith)
            requires
                keys.len() == 0,
        ;
    } else {
        let k = keys[0];
        let rest = keys.drop_first();
        wire::lemma_written_first(keys, form);
        wire::lemma_stands_split(buf, pos, form(k), wire::written(rest, form));
        assert(reads_back(keys[0], m, form, entry, width));
        let at = pos + form(k).len();
        assert forall|i: int| 0 <= i < rest.len() implies reads_back(
            #[trigger] rest[i],
            m,
            form,
            entry,
            width,
        ) && m.contains_key(rest[i]) by {
            assert(reads_back(keys[i + 1], m, form, entry, width));
        }
        lemma_read_entries(buf, at, rest, m, form, entry, width, acc.insert(k, m[k]));
        assert(keys.to_set() =~= rest.to_set().insert(k)) by {
            assert forall|x: K| keys.contains(x) == (rest.contains(x) || x == k) by {
                if keys.contains(x) {
                    let i = choose|i: int| 0 <= i < keys.len() && keys[i] == x;
                    if i > 0 {
                        assert(rest[i - 1] == x);
                    }
                }
                if rest.contains(x) {
                    let i = choose|i: int| 0 <= i < rest.len() && rest[i] == x;
                    assert(keys[i + 1] == x);
                }
            }
        }
        assert(acc.insert(k, m[k]).union_prefer_right(m.restrict(rest.to_set()))
            =~= acc.union_prefer_right(m.restrict(keys.to_set())));
        assert(width * keys.len() == width + width * rest.len()) by (nonlinear_arith)
            requires
                keys.len() == rest.len() + 1,
        ;
    }
}

proof fn lemma_read_section<K, V>(
    buf: Seq<u8>,
    pos: int,
    m: Map<K, V>,
    lt: spec_fn(K, K) -> bool,
    form: spec_fn(K) -> Seq<u8>,
    entry: EntryReader<K, V>,
    width: nat,
)
    requires
        0 <= pos,
        order::strict_total(lt),
        m.dom().finite(),
        m.dom().len() <= u32::MAX,
        forall|k: K| #[trigger] m.contains_key(k) ==> reads_back(k, m, form, entry, width),
        wire::stands_at(buf, pos, section_of(order::sorted(m.dom(), lt), form)),
    ensures
        read_section(buf, pos, width, entry) == Ok::<(Map<K, V>, int), DecodeError>(
            (m, pos + section_of(order::sorted(m.dom(), lt), form).len()),
        ),
{
    let keys = order::sorted(m.dom(), lt);
    order::lemma_sorted(m.dom(), lt);
    order::lemma_listing_len(keys, m.dom(), lt);
    wire::lemma_id_widths();
    let n = keys.len();
    wire::lemma_stands_split(buf, pos, wire::len_prefix(n), wire::written(keys, form));
    wire::lemma_read_u32(buf, pos, n as u32);
    assert forall|i: int| 0 <= i < keys.len() implies reads_back(
        #[trigger] keys[i],
        m,
        form,
        entry,
        width,
    ) && m.contains_key(keys[i]) by {
        assert(keys.contains(keys[i]));
    }
    lemma_read_entries(buf, pos + 4, keys, m, form, entry, width, Map::empty());
    assert(keys.to_set() =~= m.dom());
    assert(Map::<K, V>::empty().union_prefer_right(m.restrict(keys.to_set())) =~= m);
}

/// A buffer that starts with a snapshot is read up to its end, and nothing may follow.
#[verifier::spinoff_prover]
proof fn lemma_restore(buf: Seq<u8>, s: StateView)
    requires
        s.snapshotable(),
        wire::stands_at(buf, 0, snapshot_bytes(s)),
    ensures
        parse_snapshot(buf) == if buf.len() == snapshot_bytes(s).len() {
            Ok::<StateView, DecodeError>(s)
        } else {
            Err::<StateView, DecodeError>(DecodeError::TrailingBytes)
        },
{
    order::lemma_id_order();
    order::lemma_text_order();
    wire::lemma_id_widths();
    let ids = order::id_order();
    let a = seq![SNAPSHOT_VERSION];
    let b = spec_u64_to_le_bytes(s.applied_index);
    let c = members_section(s.members);
    let d = placements_section(s.placements);
    let e = hw_section(s.committed_hw);
    let f = config_section(s.config);
    wire::lemma_stands_split(buf, 0, a + b + c + d + e, f);
    wire::lemma_stands_split(buf, 0, a + b + c + d, e);
    wire::lemma_stands_split(buf, 0, a + b + c, d);
    wire::lemma_stands_split(buf, 0, a + b, c);
    wire::lemma_stands_split(buf, 0, a, b);
    wire::lemma_read_u8(buf, 0, SNAPSHOT_VERSION);
    wire::lemma_read_u64(buf, 1, s.applied_index);
    assert forall|k: u64| #[trigger] s.members.contains_key(k) implies reads_back(
        k,
        s.members,
        member_form(s.members),
        member_reader(),
        9,
    ) by {
        assert forall|buf: Seq<u8>, pos: int|
            0 <= pos && #[trigger] wire::stands_at(
                buf,
                pos,
                (member_form(s.members))(k),
            ) implies (member_reader())(buf, pos) == Ok::<((u64, NodeRole), int), DecodeError>(
            ((k, s.members[k]), pos + (member_form(s.members))(k).len()),
        ) by {
            command::lemma_read_member(buf, pos, k, s.members[k]);
        }
    }
    lemma_read_section(buf, 9, s.members, ids, member_form(s.members), member_reader(), 9);
    let p2 = 9 + c.len() as int;
    assert forall|k: u64| #[trigger] s.placements.contains_key(k) implies reads_back(
        k,
        s.placements,
        placed_form(s.placements),
        placed_reader(),
        0,
    ) by {
        assert forall|buf: Seq<u8>, pos: int|
            0 <= pos && #[trigger] wire::stands_at(
                buf,
                pos,
                (placed_form(s.placements))(k),
            ) implies (placed_reader())(buf, pos) == Ok::<
            ((u64, PlacementView), int),
            DecodeError,
        >(((k, s.placements[k]), pos + (placed_form(s.placements))(k).len())) by {
            command::lemma_read_placed(buf, pos, k, s.placements[k]);
        }
    }
    lemma_read_section(
        buf,
        p2,
        s.placements,
        ids,
        placed_form(s.placements),
        placed_reader(),
        0,
    );
    let p3 = p2 + d.len();
    assert forall|k: u64| #[trigger] s.committed_hw.contains_key(k) implies reads_back(
        k,
        s.committed_hw,
        hw_form(s.committed_hw),
        hw_reader(),
        16,
    ) by {
        assert forall|buf: Seq<u8>, pos: int|
            0 <= pos && #[trigger] wire::stands_at(
                buf,
                pos,
                (hw_form(s.committed_hw))(k),
            ) implies (hw_reader())(buf, pos) == Ok::<((u64, u64), int), DecodeError>(
            ((k, s.committed_hw[k]), pos + (hw_form(s.committed_hw))(k).len()),
        ) by {
            command::lemma_read_pair(buf, pos, k, s.committed_hw[k]);
        }
    }
    lemma_read_section(buf, p3, s.committed_hw, ids, hw_form(s.committed_hw), hw_reader(), 16);
    let p4 = p3 + e.len();
    assert forall|k: Seq<char>| #[trigger] s.config.contains_key(k) implies reads_back(
        k,
        s.config,
        config_form(s.config),
        config_reader(),
        0,
    ) by {
        assert forall|buf: Seq<u8>, pos: int|
            0 <= pos && #[trigger] wire::stands_at(
                buf,
                pos,
                (config_form(s.config))(k),
            ) implies (config_reader())(buf, pos) == Ok::<
            ((Seq<char>, Seq<char>), int),
            DecodeError,
        >(((k, s.config[k]), pos + (config_form(s.config))(k).len())) by {
            command::lemma_read_texts(buf, pos, k, s.config[k]);
        }
    }
    lemma_read_section(
        buf,
        p4,
        s.config,
        order::text_order(),
        config_form(s.config),
        config_reader(),
        0,
    );
}

/// Restoring undoes taking a snapshot: the restored state is the state that was captured.
pub proof fn law_restore_undoes_snapshot(s: StateView)
    requires
        s.snapshotable(),
    ensures
        parse_snapshot(snapshot_bytes(s)) == Ok::<StateView, DecodeError>(s),
{
    let buf = snapshot_bytes(s);
    wire::lemma_stands_whole(buf, buf);
    lemma_restore(buf, s);
}

/// A snapshot stands alone: bytes after it are refused as such, and a snapshot that is cut short
/// anywhere restores nothing.
pub proof fn law_snapshot_stands_alone(s: StateView, extra: Seq<u8>, cut: int)
    requires
        s.snapshotable(),
        extra.len() > 0,
        0 <= cut < snapshot_bytes(s).len(),
    ensures
        parse_snapshot(snapshot_bytes(s) + extra) == Err::<StateView, DecodeError>(
            DecodeError::TrailingBytes,
        ),
        parse_snapshot(snapshot_bytes(s).take(cut)) is Err,
{
    let buf = snapshot_bytes(s) + extra;
    assert(buf.subrange(0, snapshot_bytes(s).len() as int) =~= snapshot_bytes(s));
    lemma_restore(buf, s);
    let short = snapshot_bytes(s).take(cut);
    let rest = snapshot_bytes(s).skip(cut);
    assert(short + rest =~= snapshot_bytes(s));
    law_restore_undoes_snapshot(s);
    if parse_snapshot(short) is Ok {
        lemma_nothing_may_follow(short, rest);
    }
}

/// Entries that are read off a buffer are read just so off a longer one that starts with it.
proof fn lemma_longer_entries<K, V>(
    buf: Seq<u8>,
    extra: Seq<u8>,
    pos: int,
    n: nat,
    entry: EntryReader<K, V>,
    acc: Map<K, V>,
)
    requires
        0 <= pos,
        forall|p: int|
            0 <= p ==> (#[trigger] entry(buf, p) matches Ok((_, at)) ==> p <= at <= buf.len()
                && entry(buf + extra, p) == entry(buf, p)),
    ensures
        read_entries(buf, pos, n, entry, acc) matches Ok((_, at)) ==> pos <= at && (pos <= buf.len()
            ==> at <= buf.len()) && read_entries(buf + extra, pos, n, entry, acc) == read_entries(
            buf,
            pos,
            n,
            entry,
            acc,
        ),
    decreases n,
{
    if n > 0 && entry(buf, pos) is Ok {
        let ((k, v), at) = entry(buf, pos)->Ok_0;
        lemma_longer_entries(buf, extra, at, (n - 1) as nat, entry, acc.insert(k, v));
    }
}

proof fn lemma_longer_section<K, V>(
    buf: Seq<u8>,
    extra: Seq<u8>,
    pos: int,
    width: nat,
    entry: EntryReader<K, V>,
)
    requires
        0 <= pos,
        forall|p: int|
            0 <= p ==> (#[trigger] entry(buf, p) matches Ok((_, at)) ==> p <= at <= buf.len()
                && entry(buf + extra, p) == entry(buf, p)),
    ensures
        read_section(buf, pos, width, entry) matches Ok((_, at)) ==> pos <= at <= buf.len()
            && read_section(buf + extra, pos, width, entry) == read_section(
            buf,
            pos,
            width,
            entry,
        ),
{
    wire::lemma_longer_fields(buf, extra, pos);
    if wire::read_u32(buf, pos) is Ok {
        let (n, at) = wire::read_u32(buf, pos)->Ok_0;
        lemma_longer_entries(buf, extra, at, n as nat, entry, Map::empty());
    }
}

/// A buffer that restores is followed by nothing.
proof fn lemma_nothing_may_follow(buf: Seq<u8>, extra: Seq<u8>)
    requires
        parse_snapshot(buf) is Ok,
        extra.len() > 0,
    ensures
        parse_snapshot(buf + extra) is Err,
{
    wire::lemma_longer_fields(buf, extra, 0);
    wire::lemma_longer_fields(buf, extra, 1);
    assert forall|p: int| 0 <= p implies (#[trigger] (member_reader())(buf, p) matches Ok((_, at))
        ==> p <= at <= buf.len() && (member_reader())(buf + extra, p) == (member_reader())(
        buf,
        p,
    )) by {
        command::lemma_longer_entries(buf, extra, p);
    }
    assert forall|p: int| 0 <= p implies (#[trigger] (placed_reader())(buf, p) matches Ok((_, at))
        ==> p <= at <= buf.len() && (placed_reader())(buf + extra, p) == (placed_reader())(
        buf,
        p,
    )) by {
        command::lemma_longer_entries(buf, extra, p);
    }
    assert forall|p: int| 0 <= p implies (#[trigger] (hw_reader())(buf, p) matches Ok((_, at)) ==> p
        <= at <= buf.len() && (hw_reader())(buf + extra, p) == (hw_reader())(buf, p)) by {
        command::lemma_longer_entries(buf, extra, p);
    }
    assert forall|p: int| 0 <= p implies (#[trigger] (config_reader())(buf, p) matches Ok((_, at))
        ==> p <= at <= buf.len() && (config_reader())(buf + extra, p) == (config_reader())(
        buf,
        p,
    )) by {
        command::lemma_longer_entries(buf, extra, p);
    }
    lemma_longer_section(buf, extra, 9, 9, member_reader());
    let p2 = read_section(buf, 9, 9, member_reader())->Ok_0.1;
    lemma_longer_section(buf, extra, p2, 0, placed_reader());
    let p3 = read_section(buf, p2, 0, placed_reader())->Ok_0.1;
    lemma_longer_section(buf, extra, p3, 16, hw_reader());
    let p4 = read_section(buf, p3, 16, hw_reader())->Ok_0.1;
    lemma_longer_section(buf, extra, p4, 0, config_reader());
}

proof fn lemma_restored_placements(buf: Seq<u8>, pos: int, n: nat, acc: Map<u64, PlacementView>)
    requires
        forall|p: u64| #[trigger] acc.contains_key(p) ==> acc[p].valid(),
        read_entries(buf, pos, n, placed_reader(), acc) is Ok,
    ensures
        ({
            let m = read_entries(buf, pos, n, placed_reader(), acc)->Ok_0.0;
            forall|p: u64| #[trigger] m.contains_key(p) ==> m[p].valid()
        }),
    decreases n,
{
    if n > 0 {
        let ((k, v), at) = (placed_reader())(buf, pos)->Ok_0;
        assert(v.valid());
        lemma_restored_placements(buf, at, (n - 1) as nat, acc.insert(k, v));
    }
}

/// A malformed placement can never enter the state: neither a decoded command nor a restored
/// snapshot yields a placement whose leader is not one of its replicas.
pub proof fn law_no_malformed_placement_enters(s: StateView, index: u64, entry: Seq<u8>, snap: Seq<u8>)
    ensures
        s.placements_valid() && command::parse_command(entry) is Ok ==> s.apply(
            index,
            command::parse_command(entry)->Ok_0,
        ).placements_valid(),
        parse_snapshot(snap) is Ok ==> parse_snapshot(snap)->Ok_0.placements_valid(),
{
    if command::parse_command(entry) is Ok {
        command::law_wire_form_is_canonical(entry);
        let c = command::parse_command(entry)->Ok_0;
        match c {
            CommandView::AssignPartition { leader, epoch, .. } => {
                assert(command::leader_only_view(leader, epoch).replicas[0] == leader);
            },
            _ => {},
        }
    }
    if parse_snapshot(snap) is Ok {
        let p2 = read_section(snap, 9, 9, member_reader())->Ok_0.1;
        let (n, at) = wire::read_u32(snap, p2)->Ok_0;
        lemma_restored_placements(snap, at, n as nat, Map::empty());
    }
}

/// Replaying a run of commands and then another is replaying both in one run.
pub proof fn law_replay_splits(
    s: StateView,
    head: Seq<(u64, CommandView)>,
    tail: Seq<(u64, CommandView)>,
)
    ensures
        s.replay(head + tail) == s.replay(head).replay(tail),
    decreases tail.len(),
{
    if tail.len() == 0 {
        assert(head + tail =~= head);
    } else {
        law_replay_splits(s, head, tail.drop_last());
        assert((head + tail).drop_last() =~= head + tail.drop_last());
        assert((head + tail).last() == tail.last());
    }
}

/// A node that restores a snapshot and applies the retained log tail reaches the state that it
/// would have reached by replaying the full log.
pub proof fn law_snapshot_and_tail_equal_full_replay(
    head: Seq<(u64, CommandView)>,
    tail: Seq<(u64, CommandView)>,
)
    requires
        StateView::empty().replay(head).snapshotable(),
    ensures
        parse_snapshot(snapshot_bytes(StateView::empty().replay(head))) is Ok,
        parse_snapshot(snapshot_bytes(StateView::empty().replay(head)))->Ok_0.replay(tail)
            == StateView::empty().replay(head + tail),
{
    law_restore_undoes_snapshot(StateView::empty().replay(head));
    law_replay_splits(StateView::empty(), head, tail);
}

/// The committed-high-watermark bar of a partition only ever rises: no run of commands lowers or
/// forgets it.
pub proof fn law_committed_hw_never_falls(s: StateView, log: Seq<(u64, CommandView)>, p: u64)
    requires
        s.committed_hw.contains_key(p),
    ensures
        s.replay(log).committed_hw.contains_key(p),
        s.replay(log).committed_hw[p] >= s.committed_hw[p],
    decreases log.len(),
{
    if log.len() > 0 {
        law_committed_hw_never_falls(s, log.drop_last(), p);
    }
}

/// What a command writes to.
pub enum Target {
    Member(u64),
    Partition(u64),
    Checkpoint(u64),
    Key(Seq<char>),
}

pub open spec fn target(c: CommandView) -> Target {
    match c {
        CommandView::AddNode { node, .. } => Target::Member(node),
        CommandView::RemoveNode { node } => Target::Member(node),
        CommandView::AssignPartition { partition, .. } => Target::Partition(partition),
        CommandView::PlacePartition { partition, .. } => Target::Partition(partition),
        CommandView::SetConfig { key, .. } => Target::Key(key),
        CommandView::CheckpointCommittedHw { partition, .. } => Target::Checkpoint(partition),
    }
}

/// The order in which independent commands were applied leaves no trace: the state, and with it
/// the snapshot, is the same either way.
pub proof fn law_snapshot_ignores_apply_order(
    s: StateView,
    i: u64,
    j: u64,
    a: CommandView,
    b: CommandView,
)
    requires
        target(a) != target(b) || (a is CheckpointCommittedHw && b is CheckpointCommittedHw),
    ensures
        s.apply(i, a).apply(j, b) == s.apply(i, b).apply(j, a),
        snapshot_bytes(s.apply(i, a).apply(j, b)) == snapshot_bytes(s.apply(i, b).apply(j, a)),
{
    let x = s.apply(i, a).apply(j, b);
    let y = s.apply(i, b).apply(j, a);
    assert(x.members =~= y.members);
    assert(x.placements =~= y.placements);
    assert(x.committed_hw =~= y.committed_hw);
    assert(x.config =~= y.config);
}

// ---- the state machine ----

/// The placements of a map as mathematical values.
pub open spec fn placement_views(m: Map<u64, Placement>) -> Map<u64, PlacementView> {
    m.map_values(|p: Placement| p@)
}

proof fn lemma_placement_views(m: Map<u64, Placement>, k: u64, p: Placement)
    ensures
        placement_views(m.insert(k, p)) == placement_views(m).insert(k, p@),
        placement_views(m).dom() == m.dom(),
{
    assert(placement_views(m.insert(k, p)) =~= placement_views(m).insert(k, p@));
    assert(placement_views(m).dom() =~= m.dom());
}

/// The replicated cluster control-plane state. Built up by applying the committed stream of
/// commands in log order; identical commit order yields an identical state on every voter.
#[derive(Debug, Clone, PartialEq, Eq)]
pub struct MetadataStateMachine {
    members: BTreeMap<u64, NodeRole>,
    placements: BTreeMap<u64, Placement>,
    committed_hw: BTreeMap<u64, u64>,
    config: TextMap,
    applied_index: u64,
}

impl View for MetadataStateMachine {
    type V = StateView;

    closed spec fn view(&self) -> StateView {
        StateView {
            members: self.members@,
            placements: placement_views(self.placements@),
            committed_hw: self.committed_hw@,
            config: self.config@,
            applied_index: self.applied_index,
        }
    }
}

impl Default for MetadataStateMachine {
    fn default() -> (sm: MetadataStateMachine)
        ensures
            sm.wf(),
            sm@ == StateView::empty(),
    {
        MetadataStateMachine::new()
    }
}

/// The membership that voter and learner sets describe: a node listed on both sides is acting as
/// a voter.
pub open spec fn membership(
    voters: Seq<u64>,
    voters_outgoing: Seq<u64>,
    learners: Seq<u64>,
    learners_next: Seq<u64>,
) -> Map<u64, NodeRole> {
    let voting = voters.to_set().union(voters_outgoing.to_set());
    let learning = learners.to_set().union(learners_next.to_set());
    Map::new(
        |n: u64| voting.contains(n) || learning.contains(n),
        |n: u64|
            if voting.contains(n) {
                NodeRole::Voter
            } else {
                NodeRole::Learner
            },
    )
}

/// The members of `s` that vote.
pub open spec fn voters_of(s: StateView) -> Set<u64> {
    s.members.dom().filter(|n: u64| s.members[n] == NodeRole::Voter)
}

/// `m` with every node of `nodes` in `role`.
spec fn with_role(m: Map<u64, NodeRole>, nodes: Seq<u64>, role: NodeRole) -> Map<u64, NodeRole> {
    Map::new(
        |n: u64| m.contains_key(n) || nodes.contains(n),
        |n: u64|
            if nodes.contains(n) {
                role
            } else {
                m[n]
            },
    )
}

/// Give every node of `nodes` the role `role`.
fn set_role(members: &mut BTreeMap<u64, NodeRole>, nodes: &[u64], role: NodeRole)
    ensures
        final(members)@ == with_role(old(members)@, nodes@, role),
{
    let mut i: usize = 0;
    assert(members@ =~= with_role(old(members)@, nodes@.take(0), role));
    while i < nodes.len()
        invariant
            i <= nodes@.len(),
            members@ == with_role(old(members)@, nodes@.take(i as int), role),
        decreases nodes@.len() - i,
    {
        members.insert(nodes[i], role);
        proof {
            let t = nodes@.take(i as int);
            let u = nodes@.take(i + 1);
            assert(u =~= t.push(nodes@[i as int]));
            assert forall|n: u64| u.contains(n) == (t.contains(n) || n == nodes@[i as int]) by {
                if t.contains(n) {
                    let k = choose|k: int| 0 <= k < t.len() && t[k] == n;
                    assert(u[k] == n);
                }
                assert(u[i as int] == nodes@[i as int]);
                if u.contains(n) && n != nodes@[i as int] {
                    let k = choose|k: int| 0 <= k < u.len() && u[k] == n;
                    assert(t[k] == n);
                }
            }
            assert(members@ =~= with_role(old(members)@, u, role));
        }
        i = i + 1;
    }
    assert(nodes@.take(nodes@.len() as int) =~= nodes@);
}

impl MetadataStateMachine {
    /// The configuration keeps its key order.
    pub closed spec fn wf(&self) -> bool {
        self.config.wf()
    }

    /// The tables of a state machine are finite.
    pub proof fn lemma_finite(&self)
        requires
            self.wf(),
        ensures
            self@.members.dom().finite(),
            self@.placements.dom().finite(),
            self@.committed_hw.dom().finite(),
            self@.config.dom().finite(),
    {
        assert(placement_views(self.placements@).dom() =~= self.placements@.dom());
        self.config.lemma_keys();
    }

    /// A fresh, empty control plane.
    #[must_use]
    pub fn new() -> (sm: MetadataStateMachine)
        ensures
            sm.wf(),
            sm@ == StateView::empty(),
    {
        let sm = MetadataStateMachine {
            members: BTreeMap::new(),
            placements: BTreeMap::new(),
            committed_hw: BTreeMap::new(),
            config: TextMap::new(),
            applied_index: 0,
        };
        assert(placement_views(sm.placements@) =~= Map::empty());
        sm
    }

    /// Apply one committed command, recording the entry's log `index` as the applied index.
    pub fn apply(&mut self, index: u64, cmd: &MetadataCommand)
        requires
            old(self).wf(),
        ensures
            final(self).wf(),
            final(self)@ == old(self)@.apply(index, cmd@),
    {
        let ghost before = *self;
        match cmd {
            MetadataCommand::AddNode { node, role } => {
                self.members.insert(*node, *role);
            },
            MetadataCommand::RemoveNode { node } => {
                self.members.remove(node);
            },
            MetadataCommand::AssignPartition { partition, leader, epoch } => {
                let p = Placement::leader_only(*leader, *epoch);
                proof {
                    lemma_placement_views(self.placements@, *partition, p);
                }
                self.placements.insert(*partition, p);
            },
            MetadataCommand::PlacePartition { partition, replicas, leader, epoch } => {
                let p = Placement {
                    replicas: command::copy_ids(replicas),
                    leader: *leader,
                    epoch: *epoch,
                };
                proof {
                    lemma_placement_views(self.placements@, *partition, p);
                }
                self.placements.insert(*partition, p);
            },
            MetadataCommand::SetConfig { key, value } => {
                self.config.insert(key.clone(), value.clone());
            },
            MetadataCommand::CheckpointCommittedHw { partition, offset } => {
                // Only ever raise the bar: a late or stale checkpoint never lowers the offset
                // that a successor has to hold.
                let held: u64 = match self.committed_hw.get(partition) {
                    Some(hw) => *hw,
                    None => 0,
                };
                let bar: u64 = if held >= *offset {
                    held
                } else {
                    *offset
                };
                self.committed_hw.insert(*partition, bar);
            },
        }
        self.applied_index = index;
        assert(self@ =~= before@.apply(index, cmd@));
    }

    /// Decode and apply one committed entry's bytes. A malformed entry is a typed error and
    /// leaves the state as it was.
    pub fn apply_encoded(&mut self, index: u64, data: &[u8]) -> (r: Result<(), DecodeError>)
        requires
            old(self).wf(),
        ensures
            final(self).wf(),
            match command::parse_command(data@) {
                Ok(c) => r == Ok::<(), DecodeError>(()) && final(self)@ == old(self)@.apply(
                    index,
                    c,
                ),
                Err(e) => r == Err::<(), DecodeError>(e) && *final(self) == *old(self),
            },
    {
        let cmd = MetadataCommand::decode(data)?;
        self.apply(index, &cmd);
        Ok(())
    }

    /// Replace the membership table from an applied configuration's voter and learner sets. A
    /// node listed both as a voter and as a learner becomes a voter.
    pub fn set_membership(
        &mut self,
        index: u64,
        voters: &[u64],
        voters_outgoing: &[u64],
        learners: &[u64],
        learners_next: &[u64],
    )
        requires
            old(self).wf(),
        ensures
            final(self).wf(),
            final(self)@ == old(self)@.reconfigured(
                index,
                membership(voters@, voters_outgoing@, learners@, learners_next@),
            ),
    {
        let ghost before = *self;
        self.members.clear();
        set_role(&mut self.members, learners, NodeRole::Learner);
        set_role(&mut self.members, learners_next, NodeRole::Learner);
        set_role(&mut self.members, voters, NodeRole::Voter);
        set_role(&mut self.members, voters_outgoing, NodeRole::Voter);
        self.applied_index = index;
        proof {
            let m = membership(voters@, voters_outgoing@, learners@, learners_next@);
            assert(self.members@ =~= m);
            assert(self@ =~= (StateView { members: m, applied_index: index, ..before@ }));
        }
    }

    /// The role of `node`, if it is a member.
    #[must_use]
    pub fn role(&self, node: u64) -> (r: Option<NodeRole>)
        ensures
            match r {
                Some(role) => self@.members.contains_key(node) && role == self@.members[node],
                None => !self@.members.contains_key(node),
            },
    {
        match self.members.get(&node) {
            Some(role) => Some(*role),
            None => None,
        }
    }

    /// The number of voting members (the quorum basis).
    #[must_use]
    pub fn voter_count(&self) -> (n: usize)
        ensures
            n == voters_of(self@).len(),
    {
        let entries = ids::sorted_entries(&self.members);
        let ghost keys = ids::entry_keys(entries@);
        let mut n: usize = 0;
        let mut i: usize = 0;
        let ghost voting = |k: u64| self.members@[k] == NodeRole::Voter;
        proof {
            order::lemma_id_order();
            assert(keys.take(0).to_set().filter(voting) =~= Set::empty());
        }
        while i < entries.len()
            invariant
                keys == ids::entry_keys(entries@),
                order::increasing(keys, order::id_order()),
                forall|j: int|
                    0 <= j < entries@.len() ==> *(#[trigger] entries@[j]).1
                        == self.members@[entries@[j].0],
                voting == (|k: u64| self.members@[k] == NodeRole::Voter),
                i <= entries@.len(),
                n <= i,
                keys.take(i as int).to_set().filter(voting).finite(),
                n == keys.take(i as int).to_set().filter(voting).len(),
            decreases entries@.len() - i,
        {
            let votes = match entries[i].1 {
                NodeRole::Voter => true,
                NodeRole::Learner => false,
            };
            proof {
                let t = keys.take(i as int);
                let u = keys.take(i + 1);
                let k = keys[i as int];
                assert(u =~= t.push(k));
                assert(!t.contains(k)) by {
                    if t.contains(k) {
                        let j = choose|j: int| 0 <= j < t.len() && t[j] == k;
                        assert((order::id_order())(keys[j], keys[i as int]));
                    }
                }
                assert(u.to_set() =~= t.to_set().insert(k)) by {
                    assert forall|x: u64| u.contains(x) == (t.contains(x) || x == k) by {
                        assert(u[i as int] == k);
                        if t.contains(x) {
                            let j = choose|j: int| 0 <= j < t.len() && t[j] == x;
                            assert(u[j] == x);
                        }
                        if u.contains(x) && x != k {
                            let j = choose|j: int| 0 <= j < u.len() && u[j] == x;
                            assert(t[j] == x);
                        }
                    }
                }
                if votes {
                    assert(u.to_set().filter(voting) =~= t.to_set().filter(voting).insert(k));
                } else {
                    assert(u.to_set().filter(voting) =~= t.to_set().filter(voting));
                }
            }
            if votes {
                n = n + 1;
            }
            i = i + 1;
        }
        proof {
            assert(keys.take(keys.len() as int) =~= keys);
            assert(keys.to_set() =~= self.members@.dom());
            assert(keys.to_set().filter(voting) =~= voters_of(self@));
        }
        n
    }

    /// The current placement for `partition`, if assigned.
    #[must_use]
    pub fn placement(&self, partition: u64) -> (r: Option<Placement>)
        ensures
            match r {
                Some(p) => self@.placements.contains_key(partition) && p@
                    == self@.placements[partition],
                None => !self@.placements.contains_key(partition),
            },
    {
        match self.placements.get(&partition) {
            Some(p) => Some(p.duplicate()),
            None => None,
        }
    }

    /// Every committed partition placement, keyed by partition id.
    #[must_use]
    pub fn placements(&self) -> (m: BTreeMap<u64, Placement>)
        ensures
            placement_views(m@) == self@.placements,
    {
        self.placements.clone()
    }

    /// The last-checkpointed committed high-watermark for `partition`, if any: the bar that a
    /// successor must hold before it may be promoted.
    #[must_use]
    pub fn committed_hw(&self, partition: u64) -> (r: Option<u64>)
        ensures
            match r {
                Some(hw) => self@.committed_hw.contains_key(partition) && hw
                    == self@.committed_hw[partition],
                None => !self@.committed_hw.contains_key(partition),
            },
    {
        match self.committed_hw.get(&partition) {
            Some(hw) => Some(*hw),
            None => None,
        }
    }

    /// Every partition's last-checkpointed committed high-watermark.
    #[must_use]
    pub fn committed_hws(&self) -> (m: BTreeMap<u64, u64>)
        ensures
            m@ == self@.committed_hw,
    {
        self.committed_hw.clone()
    }

    /// A config value by key.
    #[must_use]
    pub fn config(&self, key: &str) -> (r: Option<&str>)
        requires
            self.wf(),
        ensures
            match r {
                Some(v) => self@.config.contains_key(key@) && v@ == self@.config[key@],
                None => !self@.config.contains_key(key@),
            },
    {
        self.config.get(key)
    }

    /// The index of the last applied entry.
    #[must_use]
    pub fn applied_index(&self) -> (i: u64)
        ensures
            i == self@.applied_index,
    {
        self.applied_index
    }

    /// Append the membership section.
    fn put_members(&self, out: &mut Vec<u8>)
        ensures
            final(out)@ == old(out)@ + members_section(self@.members),
    {
        let ghost m = self@.members;
        let entries = ids::sorted_entries(&self.members);
        let ghost keys = ids::entry_keys(entries@);
        proof {
            order::lemma_id_order();
            order::lemma_listing_is_sorted(keys, m.dom(), order::id_order());
        }
        wire::push_u32_len(out, entries.len());
        let ghost start = out@;
        let mut i: usize = 0;
        assert(out@ =~= start + wire::written(keys.take(0), member_form(m)));
        while i < entries.len()
            invariant
                i <= entries@.len(),
                m == self.members@,
                keys == ids::entry_keys(entries@),
                forall|j: int|
                    0 <= j < entries@.len() ==> *(#[trigger] entries@[j]).1 == m[entries@[j].0],
                out@ == start + wire::written(keys.take(i as int), member_form(m)),
            decreases entries@.len() - i,
        {
            wire::put_u64(out, entries[i].0);
            out.push(entries[i].1.tag());
            proof {
                let k = keys[i as int];
                wire::lemma_written_push(keys.take(i as int), k, member_form(m));
                assert(keys.take(i as int).push(k) =~= keys.take(i + 1));
                assert(out@ =~= start + wire::written(keys.take(i + 1), member_form(m)));
            }
            i = i + 1;
        }
        assert(keys.take(keys.len() as int) =~= keys);
        assert(out@ =~= old(out)@ + members_section(m));
    }

    /// Append the placement section.
    fn put_placements(&self, out: &mut Vec<u8>)
        ensures
            final(out)@ == old(out)@ + placements_section(self@.placements),
    {
        let ghost m = self@.placements;
        let entries = ids::sorted_entries(&self.placements);
        let ghost keys = ids::entry_keys(entries@);
        proof {
            order::lemma_id_order();
            assert(m.dom() =~= self.placements@.dom());
            order::lemma_listing_is_sorted(keys, m.dom(), order::id_order());
        }
        wire::push_u32_len(out, entries.len());
        let ghost start = out@;
        let mut i: usize = 0;
        assert(out@ =~= start + wire::written(keys.take(0), placed_form(m)));
        while i < entries.len()
            invariant
                i <= entries@.len(),
                m == placement_views(self.placements@),
                keys == ids::entry_keys(entries@),
                forall|j: int|
                    0 <= j < entries@.len() ==> self.placements@.contains_key(entries@[j].0)
                        && *(#[trigger] entries@[j]).1 == self.placements@[entries@[j].0],
                out@ == start + wire::written(keys.take(i as int), placed_form(m)),
            decreases entries@.len() - i,
        {
            let p: &Placement = entries[i].1;
            wire::put_u64(out, entries[i].0);
            command::put_placement(out, &p.replicas, p.leader, p.epoch);
            proof {
                let k = keys[i as int];
                assert(self.placements@.contains_key(entries@[i as int].0));
                assert(m[k] == p@);
                wire::lemma_written_push(keys.take(i as int), k, placed_form(m));
                assert(keys.take(i as int).push(k) =~= keys.take(i + 1));
                assert(out@ =~= start + wire::written(keys.take(i + 1), placed_form(m)));
            }
            i = i + 1;
        }
        assert(keys.take(keys.len() as int) =~= keys);
        assert(out@ =~= old(out)@ + placements_section(m));
    }

    /// Append the checkpoint section.
    fn put_hws(&self, out: &mut Vec<u8>)
        ensures
            final(out)@ == old(out)@ + hw_section(self@.committed_hw),
    {
        let ghost m = self@.committed_hw;
        let entries = ids::sorted_entries(&self.committed_hw);
        let ghost keys = ids::entry_keys(entries@);
        proof {
            order::lemma_id_order();
            order::lemma_listing_is_sorted(keys, m.dom(), order::id_order());
        }
        wire::push_u32_len(out, entries.len());
        let ghost start = out@;
        let mut i: usize = 0;
        assert(out@ =~= start + wire::written(keys.take(0), hw_form(m)));
        while i < entries.len()
            invariant
                i <= entries@.len(),
                m == self.committed_hw@,
                keys == ids::entry_keys(entries@),
                forall|j: int|
                    0 <= j < entries@.len() ==> *(#[trigger] entries@[j]).1 == m[entries@[j].0],
                out@ == start + wire::written(keys.take(i as int), hw_form(m)),
            decreases entries@.len() - i,
        {
            wire::put_u64(out, entries[i].0);
            wire::put_u64(out, *entries[i].1);
            proof {
                let k = keys[i as int];
                wire::lemma_written_push(keys.take(i as int), k, hw_form(m));
                assert(keys.take(i as int).push(k) =~= keys.take(i + 1));
                assert(out@ =~= start + wire::written(keys.take(i + 1), hw_form(m)));
            }
            i = i + 1;
        }
        assert(keys.take(keys.len() as int) =~= keys);
        assert(out@ =~= old(out)@ + hw_section(m));
    }

    /// Append the configuration section.
    fn put_config(&self, out: &mut Vec<u8>)
        requires
            self.wf(),
        ensures
            final(out)@ == old(out)@ + config_section(self@.config),
    {
        let ghost m = self@.config;
        let ghost keys = self.config.keys();
        proof {
            order::lemma_text_order();
            self.config.lemma_keys();
            order::lemma_listing_is_sorted(keys, m.dom(), order::text_order());
        }
        wire::push_u32_len(out, self.config.len());
        let ghost start = out@;
        let mut i: usize = 0;
        assert(out@ =~= start + wire::written(keys.take(0), config_form(m)));
        while i < self.config.len()
            invariant
                i <= keys.len(),
                self.config.wf(),
                m == self.config@,
                keys == self.config.keys(),
                out@ == start + wire::written(keys.take(i as int), config_form(m)),
            decreases keys.len() - i,
        {
            wire::push_str(out, self.config.key(i));
            wire::push_str(out, self.config.value(i));
            proof {
                let k = keys[i as int];
                self.config.lemma_entry(i as int);
                wire::lemma_written_push(keys.take(i as int), k, config_form(m));
                assert(keys.take(i as int).push(k) =~= keys.take(i + 1));
                assert(out@ =~= start + wire::written(keys.take(i + 1), config_form(m)));
            }
            i = i + 1;
        }
        assert(keys.take(keys.len() as int) =~= keys);
        assert(out@ =~= old(out)@ + config_section(m));
    }

    /// Serialize a consistent, point-in-time snapshot of the committed state. Maps are written in
    /// key order, so two state machines with identical state serialize to identical bytes.
    #[must_use]
    pub fn snapshot(&self) -> (out: Vec<u8>)
        requires
            self.wf(),
        ensures
            out@ == snapshot_bytes(self@),
            out@.len() == snapshot_len(self@),
    {
        proof {
            self.lemma_finite();
            law_snapshot_size(self@);
        }
        let mut out: Vec<u8> = Vec::new();
        out.push(SNAPSHOT_VERSION);
        wire::put_u64(&mut out, self.applied_index);
        assert(out@ =~= seq![SNAPSHOT_VERSION] + spec_u64_to_le_bytes(self@.applied_index));
        self.put_members(&mut out);
        self.put_placements(&mut out);
        self.put_hws(&mut out);
        self.put_config(&mut out);
        out
    }

    /// Decode a serialized snapshot into a fresh state machine. A torn or foreign blob is a typed
    /// error, never a wrongly installed state.
    pub fn restore_from_snapshot(buf: &[u8]) -> (r: Result<MetadataStateMachine, DecodeError>)
        ensures
            match r {
                Ok(sm) => sm.wf() && parse_snapshot(buf@) == Ok::<StateView, DecodeError>(sm@),
                Err(e) => parse_snapshot(buf@) == Err::<StateView, DecodeError>(e),
            },
    {
        let mut cur = Cursor::new(buf);
        let version = cur.u8()?;
        if version != SNAPSHOT_VERSION {
            return Err(DecodeError::UnknownSnapshotVersion(version));
        }
        let applied_index = cur.u64()?;
        let members = take_members(&mut cur)?;
        let placements = take_placements(&mut cur)?;
        let committed_hw = take_hws(&mut cur)?;
        let config = take_config(&mut cur)?;
        if cur.remaining() != 0 {
            return Err(DecodeError::TrailingBytes);
        }
        Ok(MetadataStateMachine { members, placements, committed_hw, config, applied_index })
    }
}

/// `view` is what `reading` says, up to where `cur` stands, or `reading` is the error of `r`.
spec fn section_follows<T, V>(
    before: &Cursor,
    after: &Cursor,
    r: Result<T, DecodeError>,
    view: V,
    reading: wire::Reading<V>,
) -> bool {
    &&& after.wf()
    &&& after.buf == before.buf
    &&& match r {
        Ok(_) => reading == Ok::<(V, int), DecodeError>((view, after.pos as int)),
        Err(e) => reading == Err::<(V, int), DecodeError>(e),
    }
}

/// Read the membership section.
fn take_members(cur: &mut Cursor) -> (r: Result<BTreeMap<u64, NodeRole>, DecodeError>)
    requires
        old(cur).wf(),
    ensures
        section_follows(
            old(cur),
            final(cur),
            r,
            r->Ok_0@,
            read_section(old(cur).buf@, old(cur).pos as int, 9, member_reader()),
        ),
{
    let mut members: BTreeMap<u64, NodeRole> = BTreeMap::new();
    let count = cur.u32()? as usize;
    // A member is nine bytes: refuse a count whose entries cannot all be present.
    if cur.remaining() / 9 < count {
        return Err(DecodeError::BadLength);
    }
    let ghost at = cur.pos as int;
    let ghost all = read_entries(cur.buf@, at, count as nat, member_reader(), Map::empty());
    let mut i: usize = 0;
    while i < count
        invariant
            i <= count,
            cur.wf(),
            cur.buf == old(cur).buf,
            all == read_entries(
                cur.buf@,
                cur.pos as int,
                (count - i) as nat,
                member_reader(),
                members@,
            ),
            read_section(old(cur).buf@, old(cur).pos as int, 9, member_reader()) == all,
        decreases count - i,
    {
        let node = cur.u64()?;
        let role = command::take_role(cur)?;
        members.insert(node, role);
        i = i + 1;
    }
    Ok(members)
}

/// Read the placement section.
fn take_placements(cur: &mut Cursor) -> (r: Result<BTreeMap<u64, Placement>, DecodeError>)
    requires
        old(cur).wf(),
    ensures
        section_follows(
            old(cur),
            final(cur),
            r,
            placement_views(r->Ok_0@),
            read_section(old(cur).buf@, old(cur).pos as int, 0, placed_reader()),
        ),
{
    let mut placements: BTreeMap<u64, Placement> = BTreeMap::new();
    let count = cur.u32()? as usize;
    let ghost at = cur.pos as int;
    let ghost all = read_entries(cur.buf@, at, count as nat, placed_reader(), Map::empty());
    let mut i: usize = 0;
    assert(placement_views(placements@) =~= Map::empty());
    while i < count
        invariant
            i <= count,
            cur.wf(),
            cur.buf == old(cur).buf,
            all == read_entries(
                cur.buf@,
                cur.pos as int,
                (count - i) as nat,
                placed_reader(),
                placement_views(placements@),
            ),
            read_section(old(cur).buf@, old(cur).pos as int, 0, placed_reader()) == all,
        decreases count - i,
    {
        let partition = cur.u64()?;
        let placement = command::take_placement(cur)?;
        proof {
            lemma_placement_views(placements@, partition, placement);
        }
        placements.insert(partition, placement);
        i = i + 1;
    }
    Ok(placements)
}

/// Read the checkpoint section.
fn take_hws(cur: &mut Cursor) -> (r: Result<BTreeMap<u64, u64>, DecodeError>)
    requires
        old(cur).wf(),
    ensures
        section_follows(
            old(cur),
            final(cur),
            r,
            r->Ok_0@,
            read_section(old(cur).buf@, old(cur).pos as int, 16, hw_reader()),
        ),
{
    let mut hws: BTreeMap<u64, u64> = BTreeMap::new();
    let count = cur.u32()? as usize;
    // A checkpoint is sixteen bytes: refuse a count whose entries cannot all be present.
    if cur.remaining() / 16 < count {
        return Err(DecodeError::BadLength);
    }
    let ghost at = cur.pos as int;
    let ghost all = read_entries(cur.buf@, at, count as nat, hw_reader(), Map::empty());
    let mut i: usize = 0;
    while i < count
        invariant
            i <= count,
            cur.wf(),
            cur.buf == old(cur).buf,
            all == read_entries(
                cur.buf@,
                cur.pos as int,
                (count - i) as nat,
                hw_reader(),
                hws@,
            ),
            read_section(old(cur).buf@, old(cur).pos as int, 16, hw_reader()) == all,
        decreases count - i,
    {
        let partition = cur.u64()?;
        let offset = cur.u64()?;
        hws.insert(partition, offset);
        i = i + 1;
    }
    Ok(hws)
}

/// Read the configuration section.
fn take_config(cur: &mut Cursor) -> (r: Result<TextMap, DecodeError>)
    requires
        old(cur).wf(),
    ensures
        section_follows(
            old(cur),
            final(cur),
            r,
            r->Ok_0@,
            read_section(old(cur).buf@, old(cur).pos as int, 0, config_reader()),
        ),
        r matches Ok(m) ==> m.wf(),
{
    let mut config = TextMap::new();
    let count = cur.u32()? as usize;
    let ghost at = cur.pos as int;
    let ghost all = read_entries(cur.buf@, at, count as nat, config_reader(), Map::empty());
    let mut i: usize = 0;
    while i < count
        invariant
            i <= count,
            cur.wf(),
            config.wf(),
            cur.buf == old(cur).buf,
            all == read_entries(
                cur.buf@,
                cur.pos as int,
                (count - i) as nat,
                config_reader(),
                config@,
            ),
            read_section(old(cur).buf@, old(cur).pos as int, 0, config_reader()) == all,
        decreases count - i,
    {
        let key = cur.string()?;
        let value = cur.string()?;
        config.insert(key, value);
        i = i + 1;
    }
    Ok(config)
}


// ---- what each command does ----

/// The last word on a member wins: after a node is added it is a member in the role that was given,
/// whether or not it was one, and after it is removed it is none. Nobody else is touched.
pub proof fn law_last_word_on_a_member_wins(
    s: StateView,
    index: u64,
    node: u64,
    role: NodeRole,
    other: u64,
)
    ensures
        ({
            let added = s.apply(index, CommandView::AddNode { node, role });
            let removed = s.apply(index, CommandView::RemoveNode { node });
            &&& added.members.contains_key(node)
            &&& added.members[node] == role
            &&& !removed.members.contains_key(node)
            &&& other != node ==> (added.members.contains_key(other)
                <==> s.members.contains_key(other))
            &&& other != node ==> (removed.members.contains_key(other)
                <==> s.members.contains_key(other))
            &&& other != node && s.members.contains_key(other) ==> added.members[other]
                == s.members[other] && removed.members[other] == s.members[other]
            &&& added.placements == s.placements && removed.placements == s.placements
            &&& added.committed_hw == s.committed_hw && removed.committed_hw == s.committed_hw
            &&& added.config == s.config && removed.config == s.config
        }),
{
}

/// The last word on a partition wins: after it is placed it has exactly the placement that was
/// given, and after it is assigned it is led, and held, by the named leader alone under the named
/// epoch, whatever stood there before. No other partition is touched, and no checkpoint.
pub proof fn law_last_word_on_a_partition_wins(
    s: StateView,
    index: u64,
    partition: u64,
    placement: PlacementView,
    leader: u64,
    epoch: u64,
    other: u64,
)
    ensures
        ({
            let placed = s.apply(index, CommandView::PlacePartition { partition, placement });
            let assigned = s.apply(index, CommandView::AssignPartition { partition, leader, epoch });
            &&& placed.placements.contains_key(partition)
            &&& placed.placements[partition] == placement
            &&& assigned.placements.contains_key(partition)
            &&& assigned.placements[partition].leader == leader
            &&& assigned.placements[partition].epoch == epoch
            &&& assigned.placements[partition].replicas.len() == 1
            &&& assigned.placements[partition].replicas[0] == leader
            &&& other != partition ==> (placed.placements.contains_key(other)
                <==> s.placements.contains_key(other))
            &&& other != partition ==> (assigned.placements.contains_key(other)
                <==> s.placements.contains_key(other))
            &&& other != partition && s.placements.contains_key(other) ==> placed.placements[other]
                == s.placements[other] && assigned.placements[other] == s.placements[other]
            &&& placed.members == s.members && assigned.members == s.members
            &&& placed.committed_hw == s.committed_hw && assigned.committed_hw == s.committed_hw
            &&& placed.config == s.config && assigned.config == s.config
        }),
{
}

/// The last word on a key wins: after it is set it holds the value that was given, whatever it held
/// before. No other key is touched.
pub proof fn law_last_word_on_a_key_wins(
    s: StateView,
    index: u64,
    key: Seq<char>,
    value: Seq<char>,
    other: Seq<char>,
)
    ensures
        ({
            let e = s.apply(index, CommandView::SetConfig { key, value });
            &&& e.config.contains_key(key)
            &&& e.config[key] == value
            &&& other != key ==> (e.config.contains_key(other) <==> s.config.contains_key(other))
            &&& other != key && s.config.contains_key(other) ==> e.config[other] == s.config[other]
            &&& e.members == s.members
            &&& e.placements == s.placements
            &&& e.committed_hw == s.committed_hw
        }),
{
}

/// A checkpoint records the higher of what was recorded and what it reports, or what it reports
/// where nothing was recorded. No other partition's bar is touched, and no placement.
pub proof fn law_highest_checkpoint_wins(
    s: StateView,
    index: u64,
    partition: u64,
    offset: u64,
    other: u64,
)
    ensures
        ({
            let e = s.apply(index, CommandView::CheckpointCommittedHw { partition, offset });
            &&& e.committed_hw.contains_key(partition)
            &&& e.committed_hw[partition] >= offset
            &&& e.committed_hw[partition] == offset || (s.committed_hw.contains_key(partition)
                && e.committed_hw[partition] == s.committed_hw[partition])
            &&& s.committed_hw.contains_key(partition) ==> e.committed_hw[partition]
                >= s.committed_hw[partition]
            &&& other != partition ==> (e.committed_hw.contains_key(other)
                <==> s.committed_hw.contains_key(other))
            &&& other != partition && s.committed_hw.contains_key(other) ==> e.committed_hw[other]
                == s.committed_hw[other]
            &&& e.members == s.members
            &&& e.placements == s.placements
            &&& e.config == s.config
        }),
{
}

/// Applying a command moves the applied index to the entry's own, whatever the command.
pub proof fn law_applied_index_follows_the_log(s: StateView, index: u64, c: CommandView)
    ensures
        s.apply(index, c).applied_index == index,
{
}

/// A replay starts from the state it is given and applies one entry after the other; a state that
/// nothing was applied to holds nothing.
pub proof fn law_replay_applies_in_turn(
    s: StateView,
    log: Seq<(u64, CommandView)>,
    index: u64,
    c: CommandView,
    id: u64,
    key: Seq<char>,
)
    ensures
        s.replay(Seq::empty()) == s,
        s.replay(log.push((index, c))) == s.replay(log).apply(index, c),
        !StateView::empty().members.contains_key(id),
        !StateView::empty().placements.contains_key(id),
        !StateView::empty().committed_hw.contains_key(id),
        !StateView::empty().config.contains_key(key),
        StateView::empty().applied_index == 0,
{
    let longer = log.push((index, c));
    assert(longer.drop_last() =~= log);
    assert(longer.last() == (index, c));
}

/// What a command wrote is still there after any run of commands that write elsewhere, and a
/// re-added node has the role of its last addition.
pub proof fn law_what_was_written_stays(
    s: StateView,
    log: Seq<(u64, CommandView)>,
    node: u64,
    partition: u64,
    key: Seq<char>,
)
    ensures
        (forall|i: int|
            0 <= i < log.len() ==> !((#[trigger] log[i]).1 matches CommandView::AddNode {
                node: n,
                ..
            } && n == node) && !(log[i].1 matches CommandView::RemoveNode { node: n } && n == node))
            ==> (s.replay(log).members.contains_key(node) <==> s.members.contains_key(node)) && (
        s.members.contains_key(node) ==> s.replay(log).members[node] == s.members[node]),
        (forall|i: int|
            0 <= i < log.len() ==> !((#[trigger] log[i]).1 matches CommandView::PlacePartition {
                partition: p,
                ..
            } && p == partition) && !(log[i].1 matches CommandView::AssignPartition {
                partition: p,
                ..
            } && p == partition)) ==> (s.replay(log).placements.contains_key(partition)
            <==> s.placements.contains_key(partition)) && (s.placements.contains_key(partition)
            ==> s.replay(log).placements[partition] == s.placements[partition]),
        (forall|i: int|
            0 <= i < log.len() ==> !((#[trigger] log[i]).1 matches CommandView::SetConfig {
                key: k,
                ..
            } && k == key)) ==> (s.replay(log).config.contains_key(key)
            <==> s.config.contains_key(key)) && (s.config.contains_key(key) ==> s.replay(
            log,
        ).config[key] == s.config[key]),
    decreases log.len(),
{
    if log.len() > 0 {
        let n = log.len() - 1;
        let shorter = log.drop_last();
        law_what_was_written_stays(s, shorter, node, partition, key);
        assert(log[n] == log.last());
        assert forall|i: int| 0 <= i < shorter.len() implies #[trigger] shorter[i] == log[i] by {}
    }
}

/// A configuration change leaves exactly the nodes that it lists as members: whoever votes on
/// either side is a voter, and whoever is listed only as a learner is a learner.
pub proof fn law_membership_lists_everybody_once(
    voters: Seq<u64>,
    voters_outgoing: Seq<u64>,
    learners: Seq<u64>,
    learners_next: Seq<u64>,
    node: u64,
)
    ensures
        ({
            let m = membership(voters, voters_outgoing, learners, learners_next);
            let votes = voters.contains(node) || voters_outgoing.contains(node);
            let learns = learners.contains(node) || learners_next.contains(node);
            &&& m.contains_key(node) <==> votes || learns
            &&& votes ==> m[node] == NodeRole::Voter
            &&& learns && !votes ==> m[node] == NodeRole::Learner
        }),
{
    let voting = voters.to_set().union(voters_outgoing.to_set());
    let learning = learners.to_set().union(learners_next.to_set());
    assert(voting.contains(node) <==> voters.contains(node) || voters_outgoing.contains(node));
    assert(learning.contains(node) <==> learners.contains(node) || learners_next.contains(node));
}

/// The quorum counts the voters and nobody else: adding a learner leaves the count alone, and
/// adding a voter where there was none raises it by one.
pub proof fn law_quorum_counts_the_voters(s: StateView, index: u64, node: u64, other: u64)
    requires
        s.members.dom().finite(),
        !s.members.contains_key(node),
    ensures
        voters_of(s).contains(other) <==> s.members.contains_key(other) && s.members[other]
            == NodeRole::Voter,
        voters_of(
            s.apply(index, CommandView::AddNode { node, role: NodeRole::Learner }),
        ).len() == voters_of(s).len(),
        voters_of(
            s.apply(index, CommandView::AddNode { node, role: NodeRole::Voter }),
        ).len() == voters_of(s).len() + 1,
{
    let learner = s.apply(index, CommandView::AddNode { node, role: NodeRole::Learner });
    let voter = s.apply(index, CommandView::AddNode { node, role: NodeRole::Voter });
    assert(voters_of(learner) =~= voters_of(s));
    assert(voters_of(voter) =~= voters_of(s).insert(node));
}

// ---- what a snapshot is, and what is none ----

/// A snapshot opens with its version and the applied index, in little-endian order; then come the
/// members, the placements, the checkpoints and the configuration, each with its count.
pub proof fn law_snapshot_layout(s: StateView)
    requires
        s.snapshotable(),
    ensures
        ({
            let buf = snapshot_bytes(s);
            let m = 9 + 4 + 9 * s.members.dom().len() as int;
            &&& buf.len() >= m + 4
            &&& buf[0] == 1
            &&& buf.subrange(1, 9) == spec_u64_to_le_bytes(s.applied_index)
            &&& buf.subrange(9, 13) == spec_u32_to_le_bytes(s.members.dom().len() as u32)
            &&& buf.subrange(m, m + 4) == spec_u32_to_le_bytes(s.placements.dom().len() as u32)
        }),
{
    let buf = snapshot_bytes(s);
    let ids = order::id_order();
    order::lemma_id_order();
    wire::lemma_id_widths();
    order::lemma_sorted(s.members.dom(), ids);
    order::lemma_sorted(s.placements.dom(), ids);
    let keys = order::sorted(s.members.dom(), ids);
    let placed = order::sorted(s.placements.dom(), ids);
    order::lemma_listing_len(keys, s.members.dom(), ids);
    order::lemma_listing_len(placed, s.placements.dom(), ids);
    lemma_written_even(keys, member_form(s.members), 9);
    let a = seq![SNAPSHOT_VERSION];
    let b = spec_u64_to_le_bytes(s.applied_index);
    let c = members_section(s.members);
    let d = placements_section(s.placements);
    let e = hw_section(s.committed_hw);
    let f = config_section(s.config);
    wire::lemma_stands_whole(buf, buf);
    wire::lemma_stands_split(buf, 0, a + b + c + d + e, f);
    wire::lemma_stands_split(buf, 0, a + b + c + d, e);
    wire::lemma_stands_split(buf, 0, a + b + c, d);
    wire::lemma_stands_split(buf, 0, a + b, c);
    wire::lemma_stands_split(buf, 0, a, b);
    wire::lemma_stands_split(
        buf,
        9,
        wire::len_prefix(keys.len()),
        wire::written(keys, member_form(s.members)),
    );
    wire::lemma_stands_split(
        buf,
        9 + c.len() as int,
        wire::len_prefix(placed.len()),
        wire::written(placed, placed_form(s.placements)),
    );
    assert(buf.subrange(0, 1)[0] == SNAPSHOT_VERSION);
}

/// A foreign blob is no snapshot: one with no bytes is cut short, and one with another version is
/// refused by that version, whatever follows.
pub proof fn law_foreign_blob_is_no_snapshot(buf: Seq<u8>)
    ensures
        buf.len() == 0 ==> parse_snapshot(buf) == Err::<StateView, DecodeError>(
            DecodeError::Truncated,
        ),
        buf.len() > 0 && buf[0] != 1 ==> parse_snapshot(buf) == Err::<StateView, DecodeError>(
            DecodeError::UnknownSnapshotVersion(buf[0]),
        ),
        0 < buf.len() < 9 && buf[0] == 1 ==> parse_snapshot(buf) == Err::<StateView, DecodeError>(
            DecodeError::Truncated,
        ),
{
}

/// A count that its entries cannot live up to is refused at once: nine bytes for a member, sixteen
/// for a checkpoint.
pub proof fn law_overlong_counts_are_refused(buf: Seq<u8>, pos: int)
    requires
        0 <= pos,
        pos + 4 <= buf.len(),
    ensures
        ({
            let n = spec_u32_from_le_bytes(buf.subrange(pos, pos + 4));
            &&& buf.len() - (pos + 4) < 9 * n ==> read_section(buf, pos, 9, member_reader())
                == Err::<(Map<u64, NodeRole>, int), DecodeError>(DecodeError::BadLength)
            &&& buf.len() - (pos + 4) < 16 * n ==> read_section(buf, pos, 16, hw_reader())
                == Err::<(Map<u64, u64>, int), DecodeError>(DecodeError::BadLength)
        }),
{
}

/// The entries of a section are read in turn, and a later entry for a key takes the place of an
/// earlier one: reading no entry leaves what there was, reading one adds it over what there was,
/// and reading some and then more is reading all of them.
pub proof fn law_entries_are_read_in_turn<K, V>(
    buf: Seq<u8>,
    pos: int,
    some: nat,
    more: nat,
    entry: EntryReader<K, V>,
    acc: Map<K, V>,
)
    ensures
        read_entries(buf, pos, 0, entry, acc) == Ok::<(Map<K, V>, int), DecodeError>((acc, pos)),
        entry(buf, pos) matches Ok((kv, at)) ==> read_entries(buf, pos, 1, entry, acc) == Ok::<
            (Map<K, V>, int),
            DecodeError,
        >((acc.insert(kv.0, kv.1), at)),
        match read_entries(buf, pos, some, entry, acc) {
            Ok((m, at)) => read_entries(buf, pos, some + more, entry, acc) == read_entries(
                buf,
                at,
                more,
                entry,
                m,
            ),
            Err(e) => read_entries(buf, pos, some + more, entry, acc) == Err::<
                (Map<K, V>, int),
                DecodeError,
            >(e),
        },
    decreases some,
{
    reveal_with_fuel(read_entries, 2);
    if some > 0 {
        match entry(buf, pos) {
            Ok(((k, v), at)) => {
                law_entries_are_read_in_turn(
                    buf,
                    at,
                    (some - 1) as nat,
                    more,
                    entry,
                    acc.insert(k, v),
                );
                assert((some + more - 1) as nat == (some - 1) as nat + more);
            },
            Err(_) => {},
        }
    }
}


/// A configuration change replaces the membership and nothing else, and moves the applied index to
/// its own.
pub proof fn law_reconfiguration_replaces_the_membership(
    s: StateView,
    index: u64,
    members: Map<u64, NodeRole>,
)
    ensures
        s.reconfigured(index, members).members == members,
        s.reconfigured(index, members).applied_index == index,
        s.reconfigured(index, members).placements == s.placements,
        s.reconfigured(index, members).committed_hw == s.committed_hw,
        s.reconfigured(index, members).config == s.config,
{
}


/// Every state that can be said is restored from its snapshot: one whose placements lead from their
/// own replicas, and whose counts and texts four bytes can count.
pub proof fn law_every_sayable_state_is_restored(s: StateView)
    requires
        s.members.dom().finite() && s.members.dom().len() <= u32::MAX,
        s.placements.dom().finite() && s.placements.dom().len() <= u32::MAX,
        s.committed_hw.dom().finite() && s.committed_hw.dom().len() <= u32::MAX,
        s.config.dom().finite() && s.config.dom().len() <= u32::MAX,
        forall|p: u64| #[trigger]
            s.placements.contains_key(p) ==> s.placements[p].replicas.contains(
                s.placements[p].leader,
            ) && s.placements[p].replicas.len() <= u32::MAX,
        forall|k: Seq<char>| #[trigger]
            s.config.contains_key(k) ==> vstd::utf8::encode_utf8(k).len() <= u32::MAX
                && vstd::utf8::encode_utf8(s.config[k]).len() <= u32::MAX,
    ensures
        parse_snapshot(snapshot_bytes(s)) == Ok::<StateView, DecodeError>(s),
{
    law_restore_undoes_snapshot(s);
}


/// The form of each kind of entry: a member is its id and its role byte, a placement its partition
/// and its replicas, leader and epoch, a checkpoint its partition and offset, and a configuration
/// entry its key and its value; numbers in eight little-endian bytes, counts in four.
pub proof fn law_entry_layout(s: StateView, id: u64, key: Seq<char>)
    requires
        s.placements[id].replicas.len() <= u32::MAX,
        vstd::utf8::encode_utf8(key).len() <= u32::MAX,
        vstd::utf8::encode_utf8(s.config[key]).len() <= u32::MAX,
    ensures
        (member_form(s.members))(id) == spec_u64_to_le_bytes(id) + seq![
            if s.members[id] == NodeRole::Voter {
                0u8
            } else {
                1u8
            },
        ],
        (hw_form(s.committed_hw))(id) == spec_u64_to_le_bytes(id) + spec_u64_to_le_bytes(
            s.committed_hw[id],
        ),
        ({
            let p = s.placements[id];
            let b = (placed_form(s.placements))(id);
            let n = p.replicas.len() as int;
            &&& b.len() == 28 + 8 * n
            &&& b.subrange(0, 8) == spec_u64_to_le_bytes(id)
            &&& b.subrange(8, 12) == spec_u32_to_le_bytes(n as u32)
            &&& forall|i: int|
                0 <= i < n ==> b.subrange(12 + 8 * i, 20 + 8 * i) == spec_u64_to_le_bytes(
                    #[trigger] p.replicas[i],
                )
            &&& b.subrange(12 + 8 * n, 20 + 8 * n) == spec_u64_to_le_bytes(p.leader)
            &&& b.subrange(20 + 8 * n, 28 + 8 * n) == spec_u64_to_le_bytes(p.epoch)
        }),
        ({
            let k = vstd::utf8::encode_utf8(key);
            let v = vstd::utf8::encode_utf8(s.config[key]);
            (config_form(s.config))(key) == spec_u32_to_le_bytes(k.len() as u32) + k
                + spec_u32_to_le_bytes(v.len() as u32) + v
        }),
{
    wire::lemma_id_widths();
    let p = s.placements[id];
    let b = (placed_form(s.placements))(id);
    let n = p.replicas.len() as int;
    let ids = wire::ids_bytes(p.replicas);
    wire::lemma_ids_len(p.replicas);
    assert((member_form(s.members))(id) =~= spec_u64_to_le_bytes(id) + seq![
        if s.members[id] == NodeRole::Voter {
            0u8
        } else {
            1u8
        },
    ]);
    assert(b.subrange(0, 8) =~= spec_u64_to_le_bytes(id));
    assert(b.subrange(8, 12) =~= spec_u32_to_le_bytes(n as u32));
    assert forall|i: int| 0 <= i < n implies b.subrange(12 + 8 * i, 20 + 8 * i)
        == spec_u64_to_le_bytes(#[trigger] p.replicas[i]) by {
        wire::law_ids_layout(p.replicas, i);
        assert(b.subrange(12 + 8 * i, 20 + 8 * i) =~= ids.subrange(8 * i, 8 * i + 8));
    }
    assert(b.subrange(12 + 8 * n, 20 + 8 * n) =~= spec_u64_to_le_bytes(p.leader));
    assert(b.subrange(20 + 8 * n, 28 + 8 * n) =~= spec_u64_to_le_bytes(p.epoch));
    let k = vstd::utf8::encode_utf8(key);
    let v = vstd::utf8::encode_utf8(s.config[key]);
    assert((config_form(s.config))(key) =~= spec_u32_to_le_bytes(k.len() as u32) + k
        + spec_u32_to_le_bytes(v.len() as u32) + v);
}

/// A section is its count followed by its entries, one after the other: one more entry is one more
/// form at the end and one more in the count.
pub proof fn law_section_layout<K>(keys: Seq<K>, next: K, form: spec_fn(K) -> Seq<u8>)
    requires
        keys.len() < u32::MAX,
    ensures
        section_of(Seq::<K>::empty(), form) == spec_u32_to_le_bytes(0),
        section_of(keys, form).len() >= 4,
        section_of(keys, form).subrange(0, 4) == spec_u32_to_le_bytes(keys.len() as u32),
        section_of(keys.push(next), form).skip(4) == section_of(keys, form).skip(4) + form(next),
{
    wire::lemma_id_widths();
    wire::lemma_written_push(keys, next, form);
    let more = section_of(keys.push(next), form);
    assert(section_of(Seq::<K>::empty(), form) =~= spec_u32_to_le_bytes(0));
    assert(section_of(keys, form).subrange(0, 4) =~= spec_u32_to_le_bytes(keys.len() as u32));
    assert(section_of(keys, form).skip(4) =~= wire::written(keys, form));
    assert(more.skip(4) =~= wire::written(keys.push(next), form));
}

/// The sections of a snapshot list their tables in key order, in this order: the members, the
/// placements and the checkpoints by id, the configuration by the bytes of its keys.
pub proof fn law_snapshot_sections(s: StateView)
    ensures
        snapshot_bytes(s) == seq![1u8] + spec_u64_to_le_bytes(s.applied_index) + section_of(
            order::sorted(s.members.dom(), |a: u64, b: u64| a < b),
            member_form(s.members),
        ) + section_of(
            order::sorted(s.placements.dom(), |a: u64, b: u64| a < b),
            placed_form(s.placements),
        ) + section_of(
            order::sorted(s.committed_hw.dom(), |a: u64, b: u64| a < b),
            hw_form(s.committed_hw),
        ) + section_of(
            order::sorted(
                s.config.dom(),
                |a: Seq<char>, b: Seq<char>|
                    order::bytes_before(
                        vstd::utf8::encode_utf8(a),
                        vstd::utf8::encode_utf8(b),
                    ),
            ),
            config_form(s.config),
        ),
{
    assert(order::id_order() =~= |a: u64, b: u64| a < b);
    assert(order::text_order() =~= |a: Seq<char>, b: Seq<char>|
        order::bytes_before(vstd::utf8::encode_utf8(a), vstd::utf8::encode_utf8(b)));
}

}
