//! Serving other clusters: one listener accepts mirror pulls and leaf pushes, and each frame is
//! dispatched by its type. Anything that this node does not serve, and anything malformed, drops
//! that link and nothing else.

use vstd::bytes::*;
use vstd::prelude::*;

use crate::cluster::frame;
use crate::cluster::frame::{FrameDecode, FrameError, FrameType, FrameView, WireProtocol};
use crate::cluster::transport::{is_timeout, IoFault, LinkBuffer};
use crate::cluster::wire;

verus! {

/// How long a cross-cluster serve thread waits between looks at the shutdown flag.
pub const SERVE_ACCEPT_POLL_NANOS: u64 = 100_000_000;

/// The head-room for the headers of a pull or a push.
pub const SERVE_HEADER_BYTES: u32 = 1024;

/// A 32-bit sum, saturating.
pub open spec fn sat_add(a: u32, b: u32) -> u32 {
    if a + b <= u32::MAX {
        (a + b) as u32
    } else {
        u32::MAX
    }
}

/// The cap on one inbound cross-cluster frame: the larger of a maximal pull and a maximal push,
/// with head-room for its headers.
pub fn serve_frame_cap(max_pull_bytes: u32, max_push_bytes: u32) -> (cap: u32)
    ensures
        cap == (if sat_add(max_pull_bytes, SERVE_HEADER_BYTES) > sat_add(
            max_push_bytes,
            SERVE_HEADER_BYTES,
        ) {
            sat_add(max_pull_bytes, SERVE_HEADER_BYTES)
        } else {
            sat_add(max_push_bytes, SERVE_HEADER_BYTES)
        }),
        cap >= max_pull_bytes,
        cap >= max_push_bytes,
{
    let pull: u32 = max_pull_bytes.saturating_add(SERVE_HEADER_BYTES);
    let push: u32 = max_push_bytes.saturating_add(SERVE_HEADER_BYTES);
    if pull > push {
        pull
    } else {
        push
    }
}

/// What this node serves to other clusters.
#[derive(Debug, Clone, Copy, PartialEq, Eq, Structural)]
pub struct CrossClusterServeConfig {
    /// Mirror pulls are served from a read plane.
    pub serves_pulls: bool,
    /// Leaf pushes are taken into the hub's own receive log.
    pub accepts_pushes: bool,
}

impl CrossClusterServeConfig {
    /// True when nothing is served; no listener is bound then.
    #[must_use]
    pub fn is_empty(&self) -> (r: bool)
        ensures
            r == (!self.serves_pulls && !self.accepts_pushes),
    {
        !self.serves_pulls && !self.accepts_pushes
    }
}

/// What a frame on a cross-cluster link asks for.
#[derive(Debug, Clone, Copy, PartialEq, Eq, Structural)]
pub enum ServeRoute {
    /// Serve a mirror pull, read-only.
    Pull,
    /// Apply a leaf push.
    Push,
    /// Drop the link.
    DropLink,
}

/// Dispatch a frame by its type. What is not served, and what is not recognized, drops the link.
pub fn route_frame(config: &CrossClusterServeConfig, frame_type: Option<FrameType>) -> (r:
    ServeRoute)
    ensures
        r == match frame_type {
            Some(FrameType::MirrorPull) => if config.serves_pulls {
                ServeRoute::Pull
            } else {
                ServeRoute::DropLink
            },
            Some(FrameType::LeafPush) => if config.accepts_pushes {
                ServeRoute::Push
            } else {
                ServeRoute::DropLink
            },
            _ => ServeRoute::DropLink,
        },
{
    match frame_type {
        Some(FrameType::MirrorPull) => {
            if config.serves_pulls {
                ServeRoute::Pull
            } else {
                ServeRoute::DropLink
            }
        },
        Some(FrameType::LeafPush) => {
            if config.accepts_pushes {
                ServeRoute::Push
            } else {
                ServeRoute::DropLink
            }
        },
        _ => ServeRoute::DropLink,
    }
}

/// What applying a push came to.
#[derive(Debug, Clone, Copy, PartialEq, Eq, Structural)]
pub enum PushOutcome {
    /// Everything was accepted, up to this leaf offset.
    Applied { accepted_through_leaf_offset: u64 },
    /// The push was corrupt from this leaf offset on; what came before was kept.
    Corrupt { at_leaf_offset: u64 },
    /// The push could not be applied.
    Failed,
}

/// How far a push is acknowledged: as far as it was accepted, and a corrupt one exactly as far as
/// it was kept; `None` where it is not acknowledged at all.
pub open spec fn acked_through(outcome: PushOutcome) -> Option<u64> {
    match outcome {
        PushOutcome::Applied { accepted_through_leaf_offset } => Some(
            accepted_through_leaf_offset,
        ),
        PushOutcome::Corrupt { at_leaf_offset } => Some(at_leaf_offset),
        PushOutcome::Failed => None,
    }
}

/// The offset to acknowledge to the leaf, or `None` to drop the link. A corrupt push is
/// acknowledged exactly as far as it was kept, never past durable data.
pub fn push_ack(outcome: PushOutcome) -> (r: Option<u64>)
    ensures
        r == acked_through(outcome),
{
    match outcome {
        PushOutcome::Applied { accepted_through_leaf_offset } => Some(
            accepted_through_leaf_offset,
        ),
        PushOutcome::Corrupt { at_leaf_offset } => Some(at_leaf_offset),
        PushOutcome::Failed => None,
    }
}

/// The frame that answers a request of type `frame_type` with `body`, or `None` where the body does
/// not fit a frame.
pub open spec fn reply_bytes(
    protocol: &WireProtocol,
    frame_type: FrameType,
    body: Seq<u8>,
) -> Option<Seq<u8>> {
    if 1 + body.len() <= protocol.max_frame_len {
        Some(frame::frame_bytes(protocol.spec_tag(frame_type), body))
    } else {
        None
    }
}

/// Frame the answer to a request, under the request's own type.
pub fn frame_reply(protocol: &WireProtocol, frame_type: FrameType, body: &[u8]) -> (r: Option<
    Vec<u8>,
>)
    ensures
        replies(r, reply_bytes(protocol, frame_type, body@)),
{
    let mut out: Vec<u8> = Vec::new();
    match frame::encode_frame(
        protocol.tag(frame_type),
        body,
        protocol.max_frame_len,
        &mut out,
    ) {
        Ok(()) => {
            assert(out@ =~= frame::frame_bytes(protocol.spec_tag(frame_type), body@));
            Some(out)
        },
        Err(_) => None,
    }
}

/// `r` is the answer `bytes`, or drops the link where there is none.
pub open spec fn replies(r: Option<Vec<u8>>, bytes: Option<Seq<u8>>) -> bool {
    match r {
        Some(out) => bytes == Some(out@),
        None => bytes is None,
    }
}

/// `r` answers the pull `body` under some outcome of `pull`: its response, framed. A request that
/// is malformed, or whose serve failed, drops the link.
pub open spec fn pull_answered<P: Fn(&[u8]) -> Option<Vec<u8>>>(
    protocol: &WireProtocol,
    body: &[u8],
    pull: P,
    r: Option<Vec<u8>>,
) -> bool {
    exists|response: Option<Vec<u8>>| #[trigger]
        call_ensures(pull, (body,), response) && match response {
            Some(bytes) => replies(r, reply_bytes(protocol, FrameType::MirrorPull, bytes@)),
            None => r is None,
        }
}

/// `r` is the acknowledgement of everything up to `offset`, as `encode_ack` writes it, framed.
pub open spec fn acknowledged<A: Fn(u64) -> Vec<u8>>(
    protocol: &WireProtocol,
    offset: u64,
    encode_ack: A,
    r: Option<Vec<u8>>,
) -> bool {
    exists|bytes: Vec<u8>| #[trigger]
        call_ensures(encode_ack, (offset,), bytes) && replies(
            r,
            reply_bytes(protocol, FrameType::LeafPush, bytes@),
        )
}

/// `r` answers the push `body` under some outcome of `push`: it is acknowledged exactly as far as
/// it was kept. A request that is malformed or could not be applied drops the link.
pub open spec fn push_answered<U: Fn(&[u8]) -> Option<PushOutcome>, A: Fn(u64) -> Vec<u8>>(
    protocol: &WireProtocol,
    body: &[u8],
    push: U,
    encode_ack: A,
    r: Option<Vec<u8>>,
) -> bool {
    exists|outcome: Option<PushOutcome>| #[trigger]
        call_ensures(push, (body,), outcome) && match outcome {
            Some(o) => match acked_through(o) {
                Some(offset) => acknowledged(protocol, offset, encode_ack, r),
                None => r is None,
            },
            None => r is None,
        }
}

/// Handle one request: the frame to write back, or `None` to drop the link. `pull` serves a mirror
/// pull, `push` applies a leaf push, each `None` where the request is malformed (and a pull where
/// it could not be served); `encode_ack` writes the acknowledgement of a push.
pub fn handle_one<
    P: Fn(&[u8]) -> Option<Vec<u8>>,
    U: Fn(&[u8]) -> Option<PushOutcome>,
    A: Fn(u64) -> Vec<u8>,
>(
    protocol: &WireProtocol,
    config: &CrossClusterServeConfig,
    frame_type: Option<FrameType>,
    body: &[u8],
    pull: P,
    push: U,
    encode_ack: A,
) -> (r: Option<Vec<u8>>)
    requires
        call_requires(pull, (body,)),
        call_requires(push, (body,)),
        forall|offset: u64| call_requires(encode_ack, (offset,)),
    ensures
        match frame_type {
            Some(FrameType::MirrorPull) if config.serves_pulls => pull_answered(
                protocol,
                body,
                pull,
                r,
            ),
            Some(FrameType::LeafPush) if config.accepts_pushes => push_answered(
                protocol,
                body,
                push,
                encode_ack,
                r,
            ),
            _ => r is None,
        },
{
    match route_frame(config, frame_type) {
        ServeRoute::DropLink => None,
        ServeRoute::Pull => {
            let response = pull(body);
            let ghost said = response;
            let reply = match response {
                Some(bytes) => frame_reply(protocol, FrameType::MirrorPull, bytes.as_slice()),
                None => None,
            };
            assert(call_ensures(pull, (body,), said));
            reply
        },
        ServeRoute::Push => {
            let outcome = push(body);
            let ghost said = outcome;
            let through = match outcome {
                Some(o) => push_ack(o),
                None => None,
            };
            let reply = match through {
                Some(offset) => {
                    let bytes = encode_ack(offset);
                    let framed = frame_reply(protocol, FrameType::LeafPush, bytes.as_slice());
                    assert(call_ensures(encode_ack, (offset,), bytes));
                    assert(acknowledged(protocol, offset, encode_ack, framed));
                    framed
                },
                None => None,
            };
            assert(call_ensures(push, (body,), said));
            reply
        },
    }
}

/// A failure of a cross-cluster link.
#[derive(Debug, Clone, Copy, PartialEq, Eq, Structural)]
pub enum ServeConnError {
    /// The frame envelope was malformed or exceeded the cap.
    Frame(FrameError),
    /// The connection failed.
    Io(IoFault),
}

/// One accepted cross-cluster link, without its connection.
#[derive(Debug, Clone)]
pub struct ServeConn {
    pub buffer: LinkBuffer,
    /// The cap on the claimed length of an inbound frame.
    pub cap: u32,
}

impl ServeConn {
    /// A link on which nothing has arrived.
    pub fn new(cap: u32) -> (c: ServeConn)
        ensures
            c.buffer@ == Seq::<u8>::empty(),
            c.cap == cap,
    {
        ServeConn { buffer: LinkBuffer::new(), cap }
    }

    /// Take one frame off the bytes that have arrived: its type, where the tag is a known one, and
    /// its body. `Ok(None)` asks for another read.
    pub fn try_decode_one(&mut self, protocol: &WireProtocol) -> (r: Result<
        Option<(Option<FrameType>, Vec<u8>)>,
        ServeConnError,
    >)
        ensures
            final(self).cap == old(self).cap,
            match frame::parse_frame(old(self).buffer@, old(self).cap) {
                Ok(FrameView::Frame { type_tag, body, consumed }) => {
                    &&& r matches Ok(Some((t, b)))
                    &&& b@ == body
                    &&& match t {
                        Some(ft) => protocol.spec_tag(ft) == type_tag,
                        None => forall|ft: FrameType| protocol.spec_tag(ft) != type_tag,
                    }
                    &&& final(self).buffer@ == old(self).buffer@.skip(consumed)
                },
                Ok(FrameView::Incomplete) => r == Ok::<
                    Option<(Option<FrameType>, Vec<u8>)>,
                    ServeConnError,
                >(None) && *final(self) == *old(self),
                Err(e) => r == Err::<Option<(Option<FrameType>, Vec<u8>)>, ServeConnError>(
                    ServeConnError::Frame(e),
                ) && *final(self) == *old(self),
            },
    {
        let (frame_type, body, consumed) = match frame::decode_frame_with_cap(
            self.buffer.inbuf.as_slice(),
            self.cap,
        ) {
            Ok(FrameDecode::Frame { type_tag, body, consumed }) => {
                let mut copy: Vec<u8> = Vec::new();
                wire::put_bytes(&mut copy, body);
                assert(copy@ =~= body@);
                (protocol.frame_type(type_tag), copy, consumed)
            },
            Ok(FrameDecode::Incomplete) => {
                return Ok(None);
            },
            Err(e) => {
                return Err(ServeConnError::Frame(e));
            },
        };
        self.buffer.consume(consumed);
        Ok(Some((frame_type, body)))
    }
}

/// What a cross-cluster reader does with one turn of its link.
#[derive(Debug, Clone, Copy, PartialEq, Eq, Structural)]
pub enum ServeReaderStep {
    /// Handle the frame.
    Handle,
    /// Nothing yet: re-check shutdown and read on.
    Poll,
    /// Drop the link.
    Stop,
}

/// The turn of a cross-cluster reader: `Ok(true)` is a frame, `Ok(false)` the end of the stream,
/// which is a close even in the middle of a frame.
pub fn serve_reader_step(turn: Result<bool, ServeConnError>) -> (s: ServeReaderStep)
    ensures
        s == match turn {
            Ok(true) => ServeReaderStep::Handle,
            Ok(false) => ServeReaderStep::Stop,
            Err(ServeConnError::Io(f)) => if is_timeout(f) {
                ServeReaderStep::Poll
            } else {
                ServeReaderStep::Stop
            },
            Err(ServeConnError::Frame(_)) => ServeReaderStep::Stop,
        },
{
    match turn {
        Ok(true) => ServeReaderStep::Handle,
        Ok(false) => ServeReaderStep::Stop,
        Err(ServeConnError::Io(IoFault::WouldBlock)) => ServeReaderStep::Poll,
        Err(ServeConnError::Io(IoFault::TimedOut)) => ServeReaderStep::Poll,
        Err(_) => ServeReaderStep::Stop,
    }
}


// ---- laws of serving ----

/// A cap with head-room is the exact sum as long as that can be said, and saturates beyond.
pub proof fn law_head_room_saturates(a: u32, b: u32)
    ensures
        sat_add(a, b) == a + b || (sat_add(a, b) == u32::MAX && a + b > u32::MAX),
        sat_add(a, b) >= a,
        sat_add(a, b) >= b,
        a + b <= u32::MAX ==> sat_add(a, b) == a + b,
{
}

/// A push is acknowledged exactly as far as it was kept: an applied one as far as it was accepted,
/// a corrupt one up to where it broke, and one that failed not at all.
pub proof fn law_push_is_acknowledged_as_far_as_kept(offset: u64)
    ensures
        acked_through(PushOutcome::Applied { accepted_through_leaf_offset: offset }) == Some(offset),
        acked_through(PushOutcome::Corrupt { at_leaf_offset: offset }) == Some(offset),
        acked_through(PushOutcome::Failed) is None,
{
}

/// A reply is framed under the type of its request if and only if it fits the absolute bound.
pub proof fn law_reply_is_framed_as_its_request(
    protocol: &WireProtocol,
    frame_type: FrameType,
    body: Seq<u8>,
)
    ensures
        reply_bytes(protocol, frame_type, body) is Some <==> 1 + body.len()
            <= protocol.max_frame_len,
        reply_bytes(protocol, frame_type, body) matches Some(b) ==> {
            &&& b.len() == 5 + body.len()
            &&& b.subrange(0, 4) == spec_u32_to_le_bytes((1 + body.len()) as u32)
            &&& b[4] == protocol.spec_tag(frame_type)
            &&& b.subrange(5, b.len() as int) == body
        },
{
    if 1 + body.len() <= protocol.max_frame_len {
        frame::law_frame_layout(protocol.spec_tag(frame_type), body);
    }
}

/// A pull that is answered is answered with the response of the read plane to that very request,
/// under the tag of a mirror pull; the link is dropped only where there is no response, or none
/// that fits a frame.
pub proof fn law_pull_is_answered_with_its_response<P: Fn(&[u8]) -> Option<Vec<u8>>>(
    protocol: &WireProtocol,
    body: &[u8],
    pull: P,
    r: Option<Vec<u8>>,
)
    requires
        pull_answered(protocol, body, pull, r),
    ensures
        r matches Some(out) ==> exists|bytes: Vec<u8>| #[trigger]
            call_ensures(pull, (body,), Some(bytes)) && out@.len() == 5 + bytes@.len() && out@[4]
                == 40 && out@.subrange(5, out@.len() as int) == bytes@,
        r is None ==> exists|response: Option<Vec<u8>>| #[trigger]
            call_ensures(pull, (body,), response) && (response matches Some(bytes) ==> 1
                + bytes@.len() > protocol.max_frame_len),
{
    let response = choose|response: Option<Vec<u8>>| #[trigger]
        call_ensures(pull, (body,), response) && match response {
            Some(bytes) => replies(r, reply_bytes(protocol, FrameType::MirrorPull, bytes@)),
            None => r is None,
        };
    assert(call_ensures(pull, (body,), response));
    if response is Some {
        let bytes = response->0;
        law_reply_is_framed_as_its_request(protocol, FrameType::MirrorPull, bytes@);
        assert(call_ensures(pull, (body,), Some(bytes)));
    }
}

/// A push that is answered is acknowledged exactly as far as it was kept, as the encoder writes it,
/// under the tag of a leaf push; the link is dropped only where nothing was kept to acknowledge, or
/// the acknowledgement fits no frame.
pub proof fn law_push_is_answered_with_its_acknowledgement<
    U: Fn(&[u8]) -> Option<PushOutcome>,
    A: Fn(u64) -> Vec<u8>,
>(protocol: &WireProtocol, body: &[u8], push: U, encode_ack: A, r: Option<Vec<u8>>)
    requires
        push_answered(protocol, body, push, encode_ack, r),
    ensures
        r matches Some(out) ==> exists|o: PushOutcome, offset: u64, bytes: Vec<u8>|
            {
                &&& #[trigger] call_ensures(push, (body,), Some(o))
                &&& o == (PushOutcome::Applied { accepted_through_leaf_offset: offset }) || o
                    == (PushOutcome::Corrupt { at_leaf_offset: offset })
                &&& #[trigger] call_ensures(encode_ack, (offset,), bytes)
                &&& out@.len() == 5 + bytes@.len()
                &&& out@[4] == 41
                &&& out@.subrange(5, out@.len() as int) == bytes@
            },
        r is None ==> exists|outcome: Option<PushOutcome>| #[trigger]
            call_ensures(push, (body,), outcome) && (outcome is None || outcome == Some(
                PushOutcome::Failed,
            ) || exists|offset: u64, bytes: Vec<u8>| #[trigger]
                call_ensures(encode_ack, (offset,), bytes) && 1 + bytes@.len()
                    > protocol.max_frame_len),
{
    let outcome = choose|outcome: Option<PushOutcome>| #[trigger]
        call_ensures(push, (body,), outcome) && match outcome {
            Some(o) => match acked_through(o) {
                Some(offset) => acknowledged(protocol, offset, encode_ack, r),
                None => r is None,
            },
            None => r is None,
        };
    assert(call_ensures(push, (body,), outcome));
    if outcome is Some && acked_through(outcome->0) is Some {
        let o = outcome->0;
        let offset = acked_through(o)->0;
        assert(acknowledged(protocol, offset, encode_ack, r));
        let bytes = choose|bytes: Vec<u8>| #[trigger]
            call_ensures(encode_ack, (offset,), bytes) && replies(
                r,
                reply_bytes(protocol, FrameType::LeafPush, bytes@),
            );
        law_reply_is_framed_as_its_request(protocol, FrameType::LeafPush, bytes@);
        assert(call_ensures(push, (body,), Some(o)));
        assert(call_ensures(encode_ack, (offset,), bytes));
    }
}


/// A frame is served if and only if its kind is: a pull where pulls are served, a push where pushes
/// are accepted; everything else drops the link.
pub proof fn law_only_what_is_served_is_routed(
    config: &CrossClusterServeConfig,
    frame_type: Option<FrameType>,
    r: ServeRoute,
)
    requires
        call_ensures(route_frame, (config, frame_type), r),
    ensures
        r == ServeRoute::Pull <==> config.serves_pulls && frame_type == Some(FrameType::MirrorPull),
        r == ServeRoute::Push <==> config.accepts_pushes && frame_type == Some(FrameType::LeafPush),
{
}

/// The cap leaves room for the headers over the larger of a maximal pull and a maximal push, and
/// for no more.
pub proof fn law_serve_cap_has_head_room(pull: u32, push: u32, cap: u32)
    requires
        call_ensures(serve_frame_cap, (pull, push), cap),
        pull <= u32::MAX - SERVE_HEADER_BYTES,
        push <= u32::MAX - SERVE_HEADER_BYTES,
    ensures
        cap >= pull + SERVE_HEADER_BYTES,
        cap >= push + SERVE_HEADER_BYTES,
        cap == pull + SERVE_HEADER_BYTES || cap == push + SERVE_HEADER_BYTES,
{
}

/// A reader handles every frame, reads on after a timeout, and ends its link on everything else.
pub proof fn law_serve_reader_goes_on_after_a_timeout_only(
    turn: Result<bool, ServeConnError>,
    s: ServeReaderStep,
)
    requires
        call_ensures(serve_reader_step, (turn,), s),
    ensures
        s == ServeReaderStep::Handle <==> turn == Ok::<bool, ServeConnError>(true),
        s == ServeReaderStep::Poll <==> (turn matches Err(ServeConnError::Io(f)) && (f
            == IoFault::WouldBlock || f == IoFault::TimedOut)),
{
}


/// The head-room in numbers: a kilobyte over the larger of the two.
pub proof fn law_head_room_in_numbers(pull: u32, push: u32, cap: u32)
    requires
        call_ensures(serve_frame_cap, (pull, push), cap),
        push <= pull <= u32::MAX - 1024,
    ensures
        cap == pull + 1024,
{
}

}
