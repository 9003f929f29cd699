//! Bounded, fail-closed peer transport for the metadata Raft group.
//!
//! A node serializes the Raft messages that it has for a peer, and decodes the bytes that it
//! receives from one. Every incoming byte is untrusted, so the decode is bounded on two axes: the
//! frame's length prefix is held against [`MAX_RAFT_MSG_BYTES`] before the body is taken, and the
//! protobuf parse is given the recursion limit [`RAFT_DECODE_RECURSION_LIMIT`]. A message is then
//! bound to a known member: one whose claimed sender is the invalid id, or is not a member, never
//! gets past this module.

use std::collections::BTreeSet;
use vstd::bytes::*;
use vstd::prelude::*;
use vstd::std_specs::btree::*;

use crate::cluster::frame;
use crate::cluster::frame::{FrameDecode, FrameError, FrameType, FrameView, WireProtocol};
use crate::cluster::order;
use crate::cluster::stream;
use crate::cluster::stream::Turn;

use protobuf::Message as _;

verus! {

broadcast use {vstd::laws_cmp::group_laws_cmp, group_btree_axioms};

/// The hard maximum size, in bytes, of one peer Raft message body.
pub const MAX_RAFT_MSG_BYTES: u32 = 1024 * 1024;

/// The protobuf recursion-depth limit applied to the decode of a peer Raft message. A valid
/// message nests at most four levels, so this accepts every legitimate one with margin.
pub const RAFT_DECODE_RECURSION_LIMIT: u32 = 16;

/// The node id that names no node.
pub const INVALID_ID: u64 = 0;

/// A Raft message of the `raft` crate. It is carried through; what is read of it stands beside it
/// in [`PeerMessage`].
#[verifier::external_type_specification]
#[verifier::external_body]
pub struct ExMessage(raft::eraftpb::Message);

/// The error of the protobuf runtime.
#[verifier::external_type_specification]
#[verifier::external_body]
pub struct ExProtobufError(protobuf::ProtobufError);

/// `body` is one of the byte strings that the protobuf runtime writes for a message.
pub uninterp spec fn encodes(msg: raft::eraftpb::Message, body: Seq<u8>) -> bool;

/// The length of every encoding of a message.
pub uninterp spec fn encoded_len(msg: raft::eraftpb::Message) -> nat;

/// Neither a message nor anything in it carries a field that its definition does not know.
pub uninterp spec fn known_fields_only(msg: raft::eraftpb::Message) -> bool;

/// The sender and the addressee that a message names.
pub uninterp spec fn route_of(msg: raft::eraftpb::Message) -> (u64, u64);

/// The message that the protobuf runtime reads from the whole of `body` under a recursion limit,
/// or `None` where it refuses the body.
pub uninterp spec fn message_in(body: Seq<u8>, limit: u32) -> Option<PeerMessage>;

/// A decoded peer message, with the sender and the addressee that it names.
#[derive(Debug)]
pub struct PeerMessage {
    /// The claimed sender.
    pub from: u64,
    /// The addressee.
    pub to: u64,
    /// The message itself.
    pub message: raft::eraftpb::Message,
}

/// A message can be encoded on this machine: the protobuf runtime adds up the length of an encoding
/// in 32 bits, and a buffer holds at most `isize::MAX` bytes.
pub open spec fn can_encode(msg: raft::eraftpb::Message) -> bool {
    encoded_len(msg) <= u32::MAX && encoded_len(msg) <= isize::MAX
}

/// A message as a peer has it once it has been read.
pub open spec fn as_read(msg: raft::eraftpb::Message) -> PeerMessage {
    PeerMessage { from: route_of(msg).0, to: route_of(msg).1, message: msg }
}

/// `Message::write_to_bytes`: a protobuf encoding of a message, named by [`encodes`], of the length
/// named by [`encoded_len`].
///
/// No field of a Raft message is required, so that every message whose length can be added up is
/// encoded. A message may have several encodings: its unknown fields, if it carries any, are
/// written in the order in which a hash map is walked, so nothing is claimed of two calls on one
/// message. One without unknown fields ([`known_fields_only`]) is read back from its encoding,
/// equal to what it was as the crate's own `==` compares messages; nothing is claimed of reading
/// back another, since an unknown field may repeat the number of a known one.
#[verifier::external_body]
fn serialize(msg: &raft::eraftpb::Message) -> (r: Result<Vec<u8>, protobuf::ProtobufError>)
    requires
        can_encode(*msg),
    ensures
        match r {
            Ok(body) => {
                &&& encodes(*msg, body@)
                &&& body@.len() == encoded_len(*msg)
                &&& known_fields_only(*msg) ==> message_in(body@, RAFT_DECODE_RECURSION_LIMIT)
                    == Some(as_read(*msg))
            },
            Err(_) => false,
        },
{
    msg.write_to_bytes()
}

/// `Message::merge_from` on a `CodedInputStream` over `body` with `set_recursion_limit(limit)`,
/// followed by `check_eof`: the message is handed back with its `from` and `to` fields.
///
/// Whether the parse succeeds, and what it then reads, depends on the bytes and on the limit
/// alone; that function of them is named [`message_in`]. What the two fields of a message hold is
/// named [`route_of`].
#[verifier::external_body]
fn parse(body: &[u8], limit: u32) -> (r: Result<PeerMessage, protobuf::ProtobufError>)
    ensures
        match r {
            Ok(m) => message_in(body@, limit) == Some(m) && route_of(m.message) == (m.from, m.to),
            Err(_) => message_in(body@, limit) is None,
        },
{
    let mut is = protobuf::CodedInputStream::from_bytes(body);
    is.set_recursion_limit(limit);
    let mut message = raft::eraftpb::Message::new();
    message.merge_from(&mut is)?;
    is.check_eof()?;
    Ok(PeerMessage { from: message.get_from(), to: message.get_to(), message })
}

/// How a read from, or a write to, a connection failed.
#[derive(Debug, Clone, Copy, PartialEq, Eq, Structural)]
pub enum IoFault {
    /// Nothing arrived in time; the connection is still good.
    WouldBlock,
    /// The read or write timeout elapsed; the connection is still good.
    TimedOut,
    /// The peer closed in the middle of a frame.
    UnexpectedEof,
    /// Any other failure.
    Other,
}

/// A typed error from the peer wire: every way in which framing, decoding or authenticating a
/// peer message fails.
#[derive(Debug)]
pub enum PeerWireError {
    /// The length exceeds the hard size cap; the body was never looked at.
    Oversized {
        /// The length that was claimed, or that the encoding would have.
        len: u64,
    },
    /// The frame envelope itself was malformed.
    Frame(FrameError),
    /// The frame carried a type tag other than that of a Raft message.
    UnexpectedFrameType {
        /// The raw type tag seen.
        tag: u8,
    },
    /// The body was not decodable under the size and recursion bounds.
    Decode(protobuf::ProtobufError),
    /// The claimed sender is the invalid id or not a known member.
    UnknownPeer {
        /// The unrecognized claimed sender id.
        from: u64,
    },
    /// The connection failed.
    Io(IoFault),
}

/// The set of node ids that the local metadata group currently knows as members.
#[derive(Clone, Debug)]
pub struct PeerRegistry {
    members: BTreeSet<u64>,
}

/// The ids that a registry of these members knows: every listed id but the invalid one.
pub open spec fn known_ids(voters: Seq<u64>, learners: Seq<u64>) -> Set<u64> {
    voters.to_set().union(learners.to_set()).remove(INVALID_ID)
}

impl View for PeerRegistry {
    type V = Set<u64>;

    /// The ids that are known.
    closed spec fn view(&self) -> Set<u64> {
        self.members@.remove(INVALID_ID)
    }
}

/// Put every valid id of `ids` into `members`.
fn admit_ids(members: &mut BTreeSet<u64>, ids: &[u64])
    ensures
        final(members)@ == old(members)@.union(ids@.to_set().remove(INVALID_ID)),
{
    let mut i: usize = 0;
    assert(members@ =~= old(members)@.union(ids@.take(0).to_set().remove(INVALID_ID)));
    while i < ids.len()
        invariant
            i <= ids@.len(),
            members@ == old(members)@.union(ids@.take(i as int).to_set().remove(INVALID_ID)),
        decreases ids@.len() - i,
    {
        if ids[i] != INVALID_ID {
            members.insert(ids[i]);
        }
        proof {
            let t = ids@.take(i as int);
            let u = ids@.take(i + 1);
            assert(u =~= t.push(ids@[i as int]));
            order::lemma_push_to_set(t, ids@[i as int]);
            assert(members@ =~= old(members)@.union(u.to_set().remove(INVALID_ID)));
        }
        i = i + 1;
    }
    assert(ids@.take(ids@.len() as int) =~= ids@);
}

impl Default for PeerRegistry {
    fn default() -> (r: PeerRegistry)
        ensures
            r@ == Set::<u64>::empty(),
    {
        PeerRegistry::new()
    }
}

impl PeerRegistry {
    /// No registry knows the invalid id.
    pub proof fn law_invalid_id_is_never_known(&self)
        ensures
            !self@.contains(INVALID_ID),
    {
    }

    /// An empty registry.
    #[must_use]
    pub fn new() -> (r: PeerRegistry)
        ensures
            r@ == Set::<u64>::empty(),
    {
        let r = PeerRegistry { members: BTreeSet::new() };
        assert(r@ =~= Set::empty());
        r
    }

    /// A registry of the current voter and learner sets.
    #[must_use]
    pub fn from_members(voters: &[u64], learners: &[u64]) -> (r: PeerRegistry)
        ensures
            r@ == known_ids(voters@, learners@),
    {
        let mut members: BTreeSet<u64> = BTreeSet::new();
        admit_ids(&mut members, voters);
        admit_ids(&mut members, learners);
        let r = PeerRegistry { members };
        assert(r@ =~= known_ids(voters@, learners@));
        r
    }

    /// Is `node` a known member (and not the invalid id)?
    #[must_use]
    pub fn is_known(&self, node: u64) -> (r: bool)
        ensures
            r == self@.contains(node),
    {
        node != INVALID_ID && self.members.contains(&node)
    }

    /// Hold a message's claimed sender against the known membership.
    pub fn authenticate(&self, from: u64) -> (r: Result<(), PeerWireError>)
        ensures
            match r {
                Ok(()) => self@.contains(from),
                Err(e) => !self@.contains(from) && e == (PeerWireError::UnknownPeer { from }),
            },
    {
        if self.is_known(from) {
            Ok(())
        } else {
            Err(PeerWireError::UnknownPeer { from })
        }
    }
}

/// What became of a message that a peer sent.
#[verifier::ext_equal]
pub enum Verdict {
    /// The message is accepted.
    Accepted(PeerMessage),
    Oversized { len: u64 },
    BadFrame(FrameError),
    WrongType { tag: u8 },
    Undecodable,
    UnknownPeer { from: u64 },
    LinkFault(IoFault),
}

/// The verdict that an error stands for.
pub open spec fn error_verdict(e: PeerWireError) -> Verdict {
    match e {
        PeerWireError::Oversized { len } => Verdict::Oversized { len },
        PeerWireError::Frame(f) => Verdict::BadFrame(f),
        PeerWireError::UnexpectedFrameType { tag } => Verdict::WrongType { tag },
        PeerWireError::Decode(_) => Verdict::Undecodable,
        PeerWireError::UnknownPeer { from } => Verdict::UnknownPeer { from },
        PeerWireError::Io(f) => Verdict::LinkFault(f),
    }
}

/// The verdict that a result stands for.
pub open spec fn verdict(r: Result<PeerMessage, PeerWireError>) -> Verdict {
    match r {
        Ok(m) => Verdict::Accepted(m),
        Err(e) => error_verdict(e),
    }
}

/// The verdict on a body of `len` bytes in which the parser reads `found`, before authentication.
pub open spec fn body_verdict(len: nat, found: Option<PeerMessage>) -> Verdict {
    if len > MAX_RAFT_MSG_BYTES {
        Verdict::Oversized { len: len as u64 }
    } else {
        match found {
            Some(m) => Verdict::Accepted(m),
            None => Verdict::Undecodable,
        }
    }
}

/// The verdict on a body after authentication against the `known` ids.
pub open spec fn authenticated(v: Verdict, known: Set<u64>) -> Verdict {
    match v {
        Verdict::Accepted(m) => if known.contains(m.from) {
            v
        } else {
            Verdict::UnknownPeer { from: m.from }
        },
        _ => v,
    }
}

/// The verdict on a complete frame in whose body the parser reads `found`.
pub open spec fn frame_verdict(
    protocol: &WireProtocol,
    type_tag: u8,
    len: nat,
    found: Option<PeerMessage>,
    known: Set<u64>,
) -> Verdict {
    if type_tag != protocol.spec_tag(FrameType::Raft) {
        Verdict::WrongType { tag: type_tag }
    } else {
        authenticated(body_verdict(len, found), known)
    }
}

/// What the head of a peer stream holds: `None` while the first frame has not fully arrived, else
/// the verdict on it and the bytes that it takes.
pub open spec fn stream_verdict(
    protocol: &WireProtocol,
    input: Seq<u8>,
    known: Set<u64>,
) -> Option<(Verdict, int)> {
    match frame::parse_frame(input, (MAX_RAFT_MSG_BYTES + 1) as u32) {
        Ok(FrameView::Frame { type_tag, body, consumed }) => Some(
            (
                frame_verdict(
                    protocol,
                    type_tag,
                    body.len(),
                    message_in(body, RAFT_DECODE_RECURSION_LIMIT),
                    known,
                ),
                consumed,
            ),
        ),
        Ok(FrameView::Incomplete) => None,
        Err(FrameError::FrameTooLarge { len }) => Some((Verdict::Oversized { len }, 0)),
        Err(e) => Some((Verdict::BadFrame(e), 0)),
    }
}

/// Nothing gets past the transport but a message of the right type, within the size cap, from a
/// known member; in particular never one that claims the invalid id.
pub proof fn law_only_known_members_are_accepted(
    protocol: &WireProtocol,
    input: Seq<u8>,
    registry: &PeerRegistry,
)
    ensures
        stream_verdict(protocol, input, registry@) matches Some((v, _)) ==> (v matches
            Verdict::Accepted(m) ==> {
            &&& registry@.contains(m.from)
            &&& m.from != INVALID_ID
            &&& frame::claimed_len(input) <= MAX_RAFT_MSG_BYTES + 1
            &&& input[4] == protocol.spec_tag(FrameType::Raft)
        }),
{
    registry.law_invalid_id_is_never_known();
}

/// A message body that was framed for a peer is read back there: the frame is taken whole and the
/// peer's verdict is the parser's reading of that very body, held against the peer's membership.
pub proof fn law_framed_body_is_read_back(
    protocol: &WireProtocol,
    body: Seq<u8>,
    rest: Seq<u8>,
    known: Set<u64>,
)
    requires
        body.len() <= MAX_RAFT_MSG_BYTES,
    ensures
        stream_verdict(
            protocol,
            frame::frame_bytes(protocol.spec_tag(FrameType::Raft), body) + rest,
            known,
        ) == Some(
            (
                authenticated(
                    body_verdict(body.len(), message_in(body, RAFT_DECODE_RECURSION_LIMIT)),
                    known,
                ),
                5 + body.len() as int,
            ),
        ),
{
    frame::law_frame_round_trips(
        protocol.spec_tag(FrameType::Raft),
        body,
        rest,
        (MAX_RAFT_MSG_BYTES + 1) as u32,
    );
}

/// An oversized frame is refused on its length prefix, whatever follows and whoever is known.
pub proof fn law_oversized_peer_frame_is_refused(
    protocol: &WireProtocol,
    input: Seq<u8>,
    known: Set<u64>,
)
    requires
        input.len() >= 4,
        frame::claimed_len(input) > MAX_RAFT_MSG_BYTES + 1,
    ensures
        stream_verdict(protocol, input, known) == Some(
            (Verdict::Oversized { len: frame::claimed_len(input) as u64 }, 0int),
        ),
{
}

/// What framing a body of `len` bytes for a peer is refused with, if it is.
pub open spec fn framing_refusal(protocol: &WireProtocol, len: nat) -> Option<Verdict> {
    if len > MAX_RAFT_MSG_BYTES {
        Some(Verdict::Oversized { len: len as u64 })
    } else if 1 + len > protocol.max_frame_len {
        Some(Verdict::Oversized { len: frame::frame_len(len) })
    } else {
        None
    }
}

/// Frame one encoded message body for a peer. A body over the cap is refused, so that nothing is
/// sent that a conforming peer would itself refuse.
pub fn frame_raft_body(protocol: &WireProtocol, body: &[u8]) -> (r: Result<
    Vec<u8>,
    PeerWireError,
>)
    ensures
        framed(protocol, body@, r),
{
    if body.len() as u64 > MAX_RAFT_MSG_BYTES as u64 {
        return Err(PeerWireError::Oversized { len: body.len() as u64 });
    }
    let mut out: Vec<u8> = Vec::new();
    match frame::encode_frame(
        protocol.tag(FrameType::Raft),
        body,
        protocol.max_frame_len,
        &mut out,
    ) {
        Ok(()) => {
            assert(out@ =~= frame::frame_bytes(protocol.spec_tag(FrameType::Raft), body@));
            Ok(out)
        },
        Err(FrameError::FrameTooLarge { len }) => Err(PeerWireError::Oversized { len }),
        Err(e) => Err(PeerWireError::Frame(e)),
    }
}

/// `r` is what framing the body `body` for a peer comes to: its frame, or a refusal.
pub open spec fn framed(
    protocol: &WireProtocol,
    body: Seq<u8>,
    r: Result<Vec<u8>, PeerWireError>,
) -> bool {
    match r {
        Ok(out) => framing_refusal(protocol, body.len()) is None && out@ == frame::frame_bytes(
            protocol.spec_tag(FrameType::Raft),
            body,
        ),
        Err(e) => framing_refusal(protocol, body.len()) == Some(error_verdict(e)),
    }
}

/// `body` is an encoding of `msg`, as it is handed to a peer.
pub open spec fn outgoing(msg: raft::eraftpb::Message, body: Seq<u8>) -> bool {
    &&& encodes(msg, body)
    &&& body.len() == encoded_len(msg)
    &&& known_fields_only(msg) ==> message_in(body, RAFT_DECODE_RECURSION_LIMIT) == Some(
        as_read(msg),
    )
}

/// `r` is what sending `msg` comes to: what framing an encoding of it comes to.
pub open spec fn sent(
    protocol: &WireProtocol,
    msg: raft::eraftpb::Message,
    r: Result<Vec<u8>, PeerWireError>,
) -> bool {
    exists|body: Seq<u8>| #[trigger] outgoing(msg, body) && framed(protocol, body, r)
}

/// Encode an outbound Raft message to its on-wire frame bytes: its protobuf encoding, framed by
/// [`frame_raft_body`].
pub fn encode_raft_message(protocol: &WireProtocol, msg: &raft::eraftpb::Message) -> (r: Result<
    Vec<u8>,
    PeerWireError,
>)
    requires
        can_encode(*msg),
    ensures
        sent(protocol, *msg, r),
        r is Ok <==> framing_refusal(protocol, encoded_len(*msg)) is None,
{
    match serialize(msg) {
        Ok(body) => {
            assert(outgoing(*msg, body@));
            frame_raft_body(protocol, body.as_slice())
        },
        Err(e) => Err(PeerWireError::Decode(e)),
    }
}

/// What the peer makes of a body that was framed for it: it accepts exactly what the parser reads
/// there, if the sender named there is known to it.
pub open spec fn arrival(body: Seq<u8>, known: Set<u64>) -> Verdict {
    match message_in(body, RAFT_DECODE_RECURSION_LIMIT) {
        Some(m) => if known.contains(m.from) {
            Verdict::Accepted(m)
        } else {
            Verdict::UnknownPeer { from: m.from }
        },
        None => Verdict::Undecodable,
    }
}

/// A message that was sent is read back by the peer: its frame is taken whole, and the peer makes
/// of it what the parser reads in an encoding of that message; whatever follows the frame is left
/// alone.
pub proof fn law_sent_message_is_read_back(
    protocol: &WireProtocol,
    msg: raft::eraftpb::Message,
    out: Vec<u8>,
    rest: Seq<u8>,
    known: Set<u64>,
)
    requires
        sent(protocol, msg, Ok(out)),
    ensures
        exists|body: Seq<u8>| #[trigger]
            outgoing(msg, body) && stream_verdict(protocol, out@ + rest, known) == Some(
                (arrival(body, known), out@.len() as int),
            ),
{
    let body = choose|body: Seq<u8>| #[trigger]
        outgoing(msg, body) && framed(protocol, body, Ok(out));
    law_framed_body_is_read_back(protocol, body, rest, known);
    frame::law_frame_round_trips(
        protocol.spec_tag(FrameType::Raft),
        body,
        rest,
        (MAX_RAFT_MSG_BYTES + 1) as u32,
    );
}

/// A message round-trips: what was sent for one without unknown fields is read back by the peer as
/// that very message, if the peer knows its sender, and is refused as that of an unknown peer
/// otherwise.
pub proof fn law_message_round_trips(
    protocol: &WireProtocol,
    msg: raft::eraftpb::Message,
    out: Vec<u8>,
    rest: Seq<u8>,
    known: Set<u64>,
)
    requires
        known_fields_only(msg),
        sent(protocol, msg, Ok(out)),
    ensures
        stream_verdict(protocol, out@ + rest, known) == Some(
            (
                if known.contains(route_of(msg).0) {
                    Verdict::Accepted(as_read(msg))
                } else {
                    Verdict::UnknownPeer { from: route_of(msg).0 }
                },
                out@.len() as int,
            ),
        ),
{
    law_sent_message_is_read_back(protocol, msg, out, rest, known);
}

/// Decode an untrusted message body under the size and recursion bounds. A body over the cap
/// never reaches the parser.
pub fn decode_raft_message(body: &[u8]) -> (r: Result<PeerMessage, PeerWireError>)
    ensures
        verdict(r) == body_verdict(body@.len(), message_in(body@, RAFT_DECODE_RECURSION_LIMIT)),
{
    if body.len() as u64 > MAX_RAFT_MSG_BYTES as u64 {
        return Err(PeerWireError::Oversized { len: body.len() as u64 });
    }
    match parse(body, RAFT_DECODE_RECURSION_LIMIT) {
        Ok(m) => Ok(m),
        Err(e) => Err(PeerWireError::Decode(e)),
    }
}

/// Hold a decoded message against the known membership.
pub fn admit_message(
    decoded: Result<PeerMessage, PeerWireError>,
    registry: &PeerRegistry,
) -> (r: Result<PeerMessage, PeerWireError>)
    ensures
        verdict(r) == authenticated(verdict(decoded), registry@),
{
    match decoded {
        Ok(m) => match registry.authenticate(m.from) {
            Ok(()) => Ok(m),
            Err(e) => Err(e),
        },
        Err(e) => Err(e),
    }
}

/// Decode one untrusted peer frame at the head of `input` into an authenticated message, with the
/// number of bytes that the frame takes. `Ok(None)` asks for more bytes.
pub fn decode_peer_frame(protocol: &WireProtocol, input: &[u8], registry: &PeerRegistry) -> (r:
    Result<Option<(PeerMessage, usize)>, PeerWireError>)
    ensures
        match r {
            Ok(None) => stream_verdict(protocol, input@, registry@) is None,
            Ok(Some((m, consumed))) => stream_verdict(protocol, input@, registry@) == Some(
                (Verdict::Accepted(m), consumed as int),
            ) && consumed <= input@.len(),
            Err(e) => stream_verdict(protocol, input@, registry@) matches Some((v, _)) && v
                == error_verdict(e),
        },
{
    match frame::decode_frame_with_cap(input, MAX_RAFT_MSG_BYTES + 1) {
        Ok(FrameDecode::Frame { type_tag, body, consumed }) => {
            if type_tag != protocol.tag(FrameType::Raft) {
                return Err(PeerWireError::UnexpectedFrameType { tag: type_tag });
            }
            match admit_message(decode_raft_message(body), registry) {
                Ok(m) => Ok(Some((m, consumed))),
                Err(e) => Err(e),
            }
        },
        Ok(FrameDecode::Incomplete) => Ok(None),
        Err(FrameError::FrameTooLarge { len }) => Err(PeerWireError::Oversized { len }),
        Err(e) => Err(PeerWireError::Frame(e)),
    }
}

/// What a read from a link's connection came to.
#[derive(Debug, Clone, Copy, PartialEq, Eq, Structural)]
pub enum LinkRead {
    /// Bytes arrived and were taken in.
    Filled,
    /// The peer closed with no partial frame pending.
    Closed,
    /// The peer closed in the middle of a frame.
    ClosedMidFrame,
}

/// What a read of `chunk` comes to when `before` is pending; an empty chunk is the end of the
/// stream.
pub open spec fn link_read(before: Seq<u8>, chunk: Seq<u8>) -> LinkRead {
    if chunk.len() > 0 {
        LinkRead::Filled
    } else if before.len() == 0 {
        LinkRead::Closed
    } else {
        LinkRead::ClosedMidFrame
    }
}

/// The receive buffer of a link: the bytes that have arrived and are not consumed yet. A partial
/// frame may straddle reads.
#[derive(Debug, Clone)]
pub struct LinkBuffer {
    pub inbuf: Vec<u8>,
}

impl View for LinkBuffer {
    type V = Seq<u8>;

    open spec fn view(&self) -> Seq<u8> {
        self.inbuf@
    }
}

impl LinkBuffer {
    /// An empty buffer.
    pub fn new() -> (b: LinkBuffer)
        ensures
            b@ == Seq::<u8>::empty(),
    {
        LinkBuffer { inbuf: Vec::new() }
    }

    /// Take in what a read returned; an empty chunk is the end of the stream.
    pub fn on_read(&mut self, chunk: &[u8]) -> (r: LinkRead)
        ensures
            final(self)@ == old(self)@ + chunk@,
            r == link_read(old(self)@, chunk@),
    {
        if chunk.len() == 0 {
            assert(old(self)@ + chunk@ =~= old(self)@);
            if self.inbuf.len() == 0 {
                LinkRead::Closed
            } else {
                LinkRead::ClosedMidFrame
            }
        } else {
            crate::cluster::wire::put_bytes(&mut self.inbuf, chunk);
            LinkRead::Filled
        }
    }

    /// Drop the first `n` bytes.
    pub fn consume(&mut self, n: usize)
        requires
            n <= old(self)@.len(),
        ensures
            final(self)@ == old(self)@.skip(n as int),
    {
        let rest = self.inbuf.split_off(n);
        assert(rest@ =~= old(self)@.skip(n as int));
        self.inbuf = rest;
    }
}

/// One end of a peer link, without its connection: outbound messages are framed, and inbound
/// bytes become bounded, authenticated messages.
#[derive(Debug, Clone)]
pub struct PeerLink {
    pub buffer: LinkBuffer,
}

impl PeerLink {
    /// A link on which nothing has arrived.
    pub fn new() -> (l: PeerLink)
        ensures
            l.buffer@ == Seq::<u8>::empty(),
    {
        PeerLink { buffer: LinkBuffer::new() }
    }

    /// The bytes to write for one outbound message; see [`encode_raft_message`].
    pub fn send(&self, protocol: &WireProtocol, msg: &raft::eraftpb::Message) -> (r: Result<
        Vec<u8>,
        PeerWireError,
    >)
        requires
            can_encode(*msg),
        ensures
            sent(protocol, *msg, r),
            r is Ok <==> framing_refusal(protocol, encoded_len(*msg)) is None,
    {
        encode_raft_message(protocol, msg)
    }

    /// Take one message off the bytes that have arrived. `Ok(None)` asks for another read. On an
    /// error the buffer is left as it is, and the caller drops the link.
    pub fn recv(&mut self, protocol: &WireProtocol, registry: &PeerRegistry) -> (r: Result<
        Option<PeerMessage>,
        PeerWireError,
    >)
        ensures
            match r {
                Ok(None) => stream_verdict(protocol, old(self).buffer@, registry@) is None
                    && *final(self) == *old(self),
                Ok(Some(m)) => stream_verdict(protocol, old(self).buffer@, registry@) matches Some(
                    (v, consumed),
                ) && v == Verdict::Accepted(m) && final(self).buffer@
                    == old(self).buffer@.skip(consumed),
                Err(e) => stream_verdict(protocol, old(self).buffer@, registry@) matches Some(
                    (v, _),
                ) && v == error_verdict(e) && *final(self) == *old(self),
            },
    {
        match decode_peer_frame(protocol, self.buffer.inbuf.as_slice(), registry) {
            Ok(Some((m, consumed))) => {
                self.buffer.consume(consumed);
                Ok(Some(m))
            },
            Ok(None) => Ok(None),
            Err(e) => Err(e),
        }
    }
}

// ---- a stream of peer messages ----

/// What [`PeerLink::recv`] finds at the head of its buffer.
pub open spec fn message_turn(protocol: &WireProtocol, known: Set<u64>) -> spec_fn(
    Seq<u8>,
) -> Turn<PeerMessage> {
    |buf: Seq<u8>|
        match stream_verdict(protocol, buf, known) {
            Some((Verdict::Accepted(item), consumed)) => Turn::Item { item, consumed },
            Some(_) => Turn::Fault,
            None => Turn::More,
        }
}

/// `body` may be sent, and a peer that knows the members `known` accepts `m` from it.
pub open spec fn carries(
    protocol: &WireProtocol,
    known: Set<u64>,
    m: PeerMessage,
    body: Seq<u8>,
) -> bool {
    &&& framing_refusal(protocol, body.len()) is None
    &&& arrival(body, known) == Verdict::Accepted(m)
}

/// The messages of `out`, each with its frame.
pub open spec fn message_frames(
    protocol: &WireProtocol,
    out: Seq<(PeerMessage, Seq<u8>)>,
) -> Seq<(PeerMessage, Seq<u8>)> {
    out.map_values(
        |f: (PeerMessage, Seq<u8>)|
            (f.0, frame::frame_bytes(protocol.spec_tag(FrameType::Raft), f.1)),
    )
}

proof fn lemma_message_reads(
    protocol: &WireProtocol,
    known: Set<u64>,
    m: PeerMessage,
    body: Seq<u8>,
)
    requires
        carries(protocol, known, m, body),
    ensures
        stream::frames(
            message_turn(protocol, known),
            m,
            frame::frame_bytes(protocol.spec_tag(FrameType::Raft), body),
        ),
{
    let turn = message_turn(protocol, known);
    let tag = protocol.spec_tag(FrameType::Raft);
    let cap = (MAX_RAFT_MSG_BYTES + 1) as u32;
    let bytes = frame::frame_bytes(tag, body);
    frame::law_frame_round_trips(tag, body, Seq::empty(), cap);
    assert forall|rest: Seq<u8>|
        turn(#[trigger] bytes.add(rest)) == (Turn::Item {
            item: m,
            consumed: bytes.len() as int,
        }) by {
        law_framed_body_is_read_back(protocol, body, rest, known);
    }
    assert forall|k: int| 0 <= k < bytes.len() implies turn(#[trigger] bytes.take(k)) == Turn::<
        PeerMessage,
    >::More by {
        frame::law_partial_frame_is_incomplete(tag, body, k, cap);
    }
}

proof fn lemma_message_frames(
    protocol: &WireProtocol,
    known: Set<u64>,
    out: Seq<(PeerMessage, Seq<u8>)>,
)
    requires
        forall|i: int|
            0 <= i < out.len() ==> carries(protocol, known, (#[trigger] out[i]).0, out[i].1),
    ensures
        ({
            let fs = message_frames(protocol, out);
            forall|i: int|
                0 <= i < fs.len() ==> stream::frames(
                    message_turn(protocol, known),
                    (#[trigger] fs[i]).0,
                    fs[i].1,
                )
        }),
        stream::items_of(message_frames(protocol, out)) == stream::items_of(out),
{
    let fs = message_frames(protocol, out);
    assert forall|i: int| 0 <= i < fs.len() implies stream::frames(
        message_turn(protocol, known),
        (#[trigger] fs[i]).0,
        fs[i].1,
    ) by {
        assert(carries(protocol, known, out[i].0, out[i].1));
        lemma_message_reads(protocol, known, out[i].0, out[i].1);
    }
    assert(stream::items_of(fs) =~= stream::items_of(out));
}

/// A link hands out exactly the messages that the other end sent, in order, however the reads cut
/// their frames, and then a clean close.
pub proof fn law_sent_messages_are_received(
    protocol: &WireProtocol,
    known: Set<u64>,
    out: Seq<(PeerMessage, Seq<u8>)>,
    reads: Seq<Seq<u8>>,
)
    requires
        forall|i: int|
            0 <= i < out.len() ==> carries(protocol, known, (#[trigger] out[i]).0, out[i].1),
        forall|i: int| 0 <= i < reads.len() ==> (#[trigger] reads[i]).len() > 0,
        reads.flatten() == stream::joined(message_frames(protocol, out)),
    ensures
        stream::received(message_turn(protocol, known), Seq::empty(), reads) == (
            stream::items_of(out),
            Some(LinkRead::Closed),
        ),
{
    let fs = message_frames(protocol, out);
    let turn = message_turn(protocol, known);
    let none = Seq::<u8>::empty();
    lemma_message_frames(protocol, known, out);
    assert forall|k: int| 0 <= k <= none.len() implies turn(#[trigger] none.take(k)) == Turn::<
        PeerMessage,
    >::More by {
        assert(none.take(k) =~= none);
    }
    assert(none + reads.flatten() =~= stream::joined(fs) + none);
    stream::law_stream_is_read_back(turn, fs, none, none, reads);
}

/// A stream that ends inside a frame is no clean close: the messages before it are handed out, and
/// then the end in the middle of a frame.
pub proof fn law_cut_message_is_no_clean_close(
    protocol: &WireProtocol,
    known: Set<u64>,
    out: Seq<(PeerMessage, Seq<u8>)>,
    last: Seq<u8>,
    cut: int,
    reads: Seq<Seq<u8>>,
)
    requires
        forall|i: int|
            0 <= i < out.len() ==> carries(protocol, known, (#[trigger] out[i]).0, out[i].1),
        framing_refusal(protocol, last.len()) is None,
        0 < cut < 5 + last.len(),
        forall|i: int| 0 <= i < reads.len() ==> (#[trigger] reads[i]).len() > 0,
        reads.flatten() == stream::joined(message_frames(protocol, out)) + frame::frame_bytes(
            protocol.spec_tag(FrameType::Raft),
            last,
        ).take(cut),
    ensures
        stream::received(message_turn(protocol, known), Seq::empty(), reads) == (
            stream::items_of(out),
            Some(LinkRead::ClosedMidFrame),
        ),
{
    let fs = message_frames(protocol, out);
    let turn = message_turn(protocol, known);
    let tag = protocol.spec_tag(FrameType::Raft);
    let cap = (MAX_RAFT_MSG_BYTES + 1) as u32;
    let bytes = frame::frame_bytes(tag, last);
    let tail = bytes.take(cut);
    lemma_message_frames(protocol, known, out);
    frame::law_frame_round_trips(tag, last, Seq::empty(), cap);
    assert forall|k: int| 0 <= k <= tail.len() implies turn(#[trigger] tail.take(k)) == Turn::<
        PeerMessage,
    >::More by {
        assert(tail.take(k) =~= bytes.take(k));
        frame::law_partial_frame_is_incomplete(tag, last, k, cap);
    }
    assert(Seq::<u8>::empty() + reads.flatten() =~= stream::joined(fs) + tail);
    stream::law_stream_is_read_back(turn, fs, tail, Seq::empty(), reads);
}

/// What a reader thread does after one turn of its link.
#[derive(Debug, Clone, Copy, PartialEq, Eq, Structural)]
pub enum ReaderStep {
    /// Hand the message to the driver.
    Forward,
    /// Nothing yet: re-check shutdown and read on.
    Poll,
    /// Drop the link.
    Stop,
}

/// Whether a fault only says that nothing arrived in time.
pub open spec fn is_timeout(f: IoFault) -> bool {
    f == IoFault::WouldBlock || f == IoFault::TimedOut
}

/// The turn of a metadata peer reader. A read timeout is re-polled, since the link keeps a
/// partial frame; a clean close and every other error end the link.
pub fn reader_step(turn: &Result<Option<PeerMessage>, PeerWireError>) -> (s: ReaderStep)
    ensures
        s == match *turn {
            Ok(Some(_)) => ReaderStep::Forward,
            Ok(None) => ReaderStep::Stop,
            Err(PeerWireError::Io(f)) => if is_timeout(f) {
                ReaderStep::Poll
            } else {
                ReaderStep::Stop
            },
            Err(_) => ReaderStep::Stop,
        },
{
    match turn {
        Ok(Some(_)) => ReaderStep::Forward,
        Ok(None) => ReaderStep::Stop,
        Err(PeerWireError::Io(IoFault::WouldBlock)) => ReaderStep::Poll,
        Err(PeerWireError::Io(IoFault::TimedOut)) => ReaderStep::Poll,
        Err(_) => ReaderStep::Stop,
    }
}


// ---- laws of the peer wire ----

/// A registry knows exactly the voters and the learners that it was made of, but never the invalid
/// id.
pub proof fn law_registry_knows_its_members(voters: Seq<u64>, learners: Seq<u64>, id: u64)
    ensures
        known_ids(voters, learners).contains(id) <==> id != 0 && (voters.contains(id)
            || learners.contains(id)),
{
    let all = voters.to_set().union(learners.to_set());
    assert(all.contains(id) <==> voters.contains(id) || learners.contains(id));
}

/// What becomes of the head of a peer stream, byte for byte: nothing before its frame is complete;
/// a claim of zero or over the cap is refused by its prefix; a frame of another type is refused by
/// its tag; and of a Raft frame the body is accepted if and only if it decodes to a message whose
/// sender is known, and is otherwise undecodable or of an unknown peer.
pub proof fn law_peer_stream_is_decided_by_its_bytes(
    protocol: &WireProtocol,
    input: Seq<u8>,
    known: Set<u64>,
)
    ensures
        input.len() < 4 ==> stream_verdict(protocol, input, known) is None,
        input.len() >= 4 ==> {
            let n = spec_u32_from_le_bytes(input.subrange(0, 4));
            let v = stream_verdict(protocol, input, known);
            &&& n == 0 ==> v == Some((Verdict::BadFrame(FrameError::EmptyFrame), 0int))
            &&& n > MAX_RAFT_MSG_BYTES + 1 ==> v == Some(
                (Verdict::Oversized { len: n as u64 }, 0int),
            )
            &&& 0 < n <= MAX_RAFT_MSG_BYTES + 1 && input.len() < 4 + n ==> v is None
            &&& 0 < n <= MAX_RAFT_MSG_BYTES + 1 && input.len() >= 4 + n ==> {
                let found = message_in(input.subrange(5, 4 + n), RAFT_DECODE_RECURSION_LIMIT);
                &&& v matches Some((w, consumed))
                &&& consumed == 4 + n
                &&& input[4] != protocol.raft ==> w == (Verdict::WrongType { tag: input[4] })
                &&& input[4] == protocol.raft && found is None ==> w == Verdict::Undecodable
                &&& input[4] == protocol.raft && found is Some && known.contains(found->0.from)
                    ==> w == Verdict::Accepted(found->0)
                &&& input[4] == protocol.raft && found is Some && !known.contains(found->0.from)
                    ==> w == (Verdict::UnknownPeer { from: found->0.from })
            }
        },
{
}

/// A body is decoded if and only if it is within the cap and the parser reads a message in it; one
/// over the cap is refused by its length, whatever it holds.
pub proof fn law_body_is_bounded_and_read(len: nat, found: Option<PeerMessage>, m: PeerMessage)
    requires
        len <= u64::MAX,
    ensures
        body_verdict(len, found) == Verdict::Accepted(m) <==> len <= MAX_RAFT_MSG_BYTES && found
            == Some(m),
        body_verdict(len, found) == Verdict::Undecodable <==> len <= MAX_RAFT_MSG_BYTES
            && found is None,
        len > MAX_RAFT_MSG_BYTES ==> body_verdict(len, found) == (Verdict::Oversized {
            len: len as u64,
        }),
{
}

/// Authentication lets a message of a known sender pass as it is, refuses one of anybody else by
/// the sender that it claims, and leaves every other verdict alone.
pub proof fn law_authentication_is_by_the_sender(v: Verdict, known: Set<u64>, m: PeerMessage)
    ensures
        known.contains(m.from) ==> authenticated(Verdict::Accepted(m), known) == Verdict::Accepted(
            m,
        ),
        !known.contains(m.from) ==> authenticated(Verdict::Accepted(m), known)
            == (Verdict::UnknownPeer { from: m.from }),
        !(v is Accepted) ==> authenticated(v, known) == v,
{
}

/// Every error is told apart as what it is, with what it carries.
pub proof fn law_errors_say_what_happened(e: PeerWireError)
    ensures
        match e {
            PeerWireError::Oversized { len } => error_verdict(e) == (Verdict::Oversized { len }),
            PeerWireError::Frame(f) => error_verdict(e) == Verdict::BadFrame(f),
            PeerWireError::UnexpectedFrameType { tag } => error_verdict(e) == (Verdict::WrongType {
                tag,
            }),
            PeerWireError::Decode(_) => error_verdict(e) == Verdict::Undecodable,
            PeerWireError::UnknownPeer { from } => error_verdict(e) == (Verdict::UnknownPeer {
                from,
            }),
            PeerWireError::Io(f) => error_verdict(e) == Verdict::LinkFault(f),
        },
        verdict(Err(e)) == error_verdict(e),
        !(verdict(Err(e)) is Accepted),
{
}

/// A body is framed if and only if it is within the message cap and its frame within the absolute
/// bound; the frame then says its length, the Raft tag and the body, and a refusal says the length
/// that was too large.
pub proof fn law_body_is_framed_within_the_bounds(
    protocol: &WireProtocol,
    body: Seq<u8>,
    r: Result<Vec<u8>, PeerWireError>,
)
    requires
        body.len() <= u64::MAX,
        framed(protocol, body, r),
    ensures
        r is Ok <==> body.len() <= MAX_RAFT_MSG_BYTES && 1 + body.len() <= protocol.max_frame_len,
        r matches Ok(out) ==> {
            &&& out@.len() == 5 + body.len()
            &&& out@.subrange(0, 4) == spec_u32_to_le_bytes((1 + body.len()) as u32)
            &&& out@[4] == protocol.raft
            &&& out@.subrange(5, out@.len() as int) == body
        },
        r matches Err(e) ==> (e matches PeerWireError::Oversized { len } && len == if body.len()
            > MAX_RAFT_MSG_BYTES {
            body.len()
        } else {
            body.len() + 1
        }),
{
    if r is Ok {
        frame::law_frame_layout(protocol.spec_tag(FrameType::Raft), body);
    }
}

/// Whatever is framed for a peer, a peer with the same cap does not refuse for its size or its
/// type; nothing else could be sent in its place.
pub proof fn law_framed_body_is_never_refused_for_its_frame(
    protocol: &WireProtocol,
    body: Seq<u8>,
    out: Vec<u8>,
    rest: Seq<u8>,
    known: Set<u64>,
)
    requires
        body.len() <= u64::MAX,
        framed(protocol, body, Ok(out)),
    ensures
        stream_verdict(protocol, out@ + rest, known) matches Some((v, consumed)) && consumed
            == out@.len() && !(v is Oversized) && !(v is BadFrame) && !(v is WrongType) && !(
        v is LinkFault),
        message_in(body, RAFT_DECODE_RECURSION_LIMIT) matches Some(m) ==> (known.contains(m.from)
            <==> stream_verdict(protocol, out@ + rest, known) == Some(
            (Verdict::Accepted(m), out@.len() as int),
        )),
{
    law_body_is_framed_within_the_bounds(protocol, body, Ok(out));
    law_framed_body_is_read_back(protocol, body, rest, known);
}

/// A read ends a link if and only if it brought nothing, and ends it cleanly if and only if nothing
/// was pending then.
pub proof fn law_empty_read_is_the_end(before: Seq<u8>, chunk: Seq<u8>)
    ensures
        link_read(before, chunk) == LinkRead::Filled <==> chunk.len() > 0,
        link_read(before, chunk) == LinkRead::Closed <==> chunk.len() == 0 && before.len() == 0,
        link_read(before, chunk) == LinkRead::ClosedMidFrame <==> chunk.len() == 0 && before.len()
            > 0,
{
}

/// Only a read that found nothing in time leaves the link good.
pub proof fn law_only_a_timeout_is_polled_again(f: IoFault)
    ensures
        is_timeout(f) <==> f == IoFault::WouldBlock || f == IoFault::TimedOut,
        !is_timeout(IoFault::UnexpectedEof),
        !is_timeout(IoFault::Other),
{
}

/// A message is read with the sender and the addressee that it names, and can be sent as long as
/// its length fits 32 bits and a buffer.
pub proof fn law_message_keeps_its_route(msg: raft::eraftpb::Message)
    ensures
        as_read(msg).message == msg,
        (as_read(msg).from, as_read(msg).to) == route_of(msg),
        can_encode(msg) <==> encoded_len(msg) <= u32::MAX && encoded_len(msg) <= isize::MAX,
{
}


/// A reader forwards every message, reads on after a timeout, and ends its link on everything else,
/// a clean close among it.
pub proof fn law_reader_goes_on_after_a_timeout_only(
    turn: &Result<Option<PeerMessage>, PeerWireError>,
    s: ReaderStep,
)
    requires
        call_ensures(reader_step, (turn,), s),
    ensures
        s == ReaderStep::Forward <==> (*turn matches Ok(m) && m is Some),
        s == ReaderStep::Poll <==> (*turn matches Err(PeerWireError::Io(f)) && (f
            == IoFault::WouldBlock || f == IoFault::TimedOut)),
{
}


/// A message is sent if and only if its encoding fits both bounds, and what is written for it is
/// one of its encodings behind a length and the Raft tag; a refusal leaves nothing to write.
pub proof fn law_sent_bytes_are_an_encoding(
    protocol: &WireProtocol,
    msg: raft::eraftpb::Message,
    r: Result<Vec<u8>, PeerWireError>,
)
    requires
        can_encode(msg),
        sent(protocol, msg, r),
    ensures
        r is Ok <==> encoded_len(msg) <= MAX_RAFT_MSG_BYTES && 1 + encoded_len(msg)
            <= protocol.max_frame_len,
        r matches Ok(out) ==> out@.len() == 5 + encoded_len(msg) && out@[4] == protocol.raft
            && encodes(msg, out@.subrange(5, out@.len() as int)),
        r matches Err(e) ==> e is Oversized,
{
    let body = choose|body: Seq<u8>| #[trigger] outgoing(msg, body) && framed(protocol, body, r);
    law_body_is_framed_within_the_bounds(protocol, body, r);
}


/// The cap in numbers: a message of a mebibyte is framed where the absolute bound allows it, and
/// none that is a byte longer.
pub proof fn law_message_cap_in_numbers(protocol: &WireProtocol, len: nat)
    requires
        len < protocol.max_frame_len,
    ensures
        framing_refusal(protocol, len) is None <==> len <= 1_048_576,
{
}

}
