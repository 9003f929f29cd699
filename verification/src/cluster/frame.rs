//! The frame envelope that every peer link shares: `[len: u32-le][type: u8][body]`, where `len`
//! counts the type byte and the body.
//!
//! A length prefix is held against a cap before the body is looked at, so an oversized frame is
//! refused on its first four bytes, whatever follows them.

use vstd::bytes::*;
use vstd::prelude::*;

use crate::cluster::wire;

verus! {

/// A malformed envelope.
#[derive(Debug, Clone, Copy, PartialEq, Eq, Structural)]
pub enum FrameError {
    /// The frame length exceeds the cap.
    FrameTooLarge {
        /// The offending length.
        len: u64,
    },
    /// The frame has no type byte.
    EmptyFrame,
}

/// The frame types that a node puts on, or takes off, its peer links.
#[derive(Debug, Clone, Copy, PartialEq, Eq, Structural)]
pub enum FrameType {
    Ping,
    Raft,
    FetchRecords,
    FetchResponse,
    AckReplicated,
    OffsetForLeaderEpoch,
    MirrorPull,
    LeafPush,
    CommittedHwQuery,
}

/// The wire protocol that a node speaks: the type tags of its frames, as far as a deployment may
/// choose them, and the absolute bound on a frame's length.
#[derive(Debug, Clone, Copy)]
pub struct WireProtocol {
    pub raft: u8,
    pub fetch_records: u8,
    pub fetch_response: u8,
    pub ack_replicated: u8,
    pub offset_for_leader_epoch: u8,
    pub max_frame_len: u32,
}

/// The tag of a ping.
pub const TAG_PING: u8 = 3;

/// The tag of a mirror pull.
pub const TAG_MIRROR_PULL: u8 = 40;

/// The tag of a leaf push.
pub const TAG_LEAF_PUSH: u8 = 41;

/// The tag of a committed-high-watermark query and of its response.
pub const TAG_COMMITTED_HW_QUERY: u8 = 43;

impl WireProtocol {
    /// The tag of a frame type.
    pub open spec fn spec_tag(&self, t: FrameType) -> u8 {
        match t {
            FrameType::Ping => TAG_PING,
            FrameType::Raft => self.raft,
            FrameType::FetchRecords => self.fetch_records,
            FrameType::FetchResponse => self.fetch_response,
            FrameType::AckReplicated => self.ack_replicated,
            FrameType::OffsetForLeaderEpoch => self.offset_for_leader_epoch,
            FrameType::MirrorPull => TAG_MIRROR_PULL,
            FrameType::LeafPush => TAG_LEAF_PUSH,
            FrameType::CommittedHwQuery => TAG_COMMITTED_HW_QUERY,
        }
    }

    /// No two frame types share a tag.
    pub open spec fn wf(&self) -> bool {
        forall|a: FrameType, b: FrameType| #[trigger]
            self.spec_tag(a) == #[trigger] self.spec_tag(b) ==> a == b
    }

    /// The wire tag of a frame type.
    pub fn tag(&self, t: FrameType) -> (tag: u8)
        ensures
            tag == self.spec_tag(t),
    {
        match t {
            FrameType::Ping => TAG_PING,
            FrameType::Raft => self.raft,
            FrameType::FetchRecords => self.fetch_records,
            FrameType::FetchResponse => self.fetch_response,
            FrameType::AckReplicated => self.ack_replicated,
            FrameType::OffsetForLeaderEpoch => self.offset_for_leader_epoch,
            FrameType::MirrorPull => TAG_MIRROR_PULL,
            FrameType::LeafPush => TAG_LEAF_PUSH,
            FrameType::CommittedHwQuery => TAG_COMMITTED_HW_QUERY,
        }
    }

    /// The frame type with wire tag `tag`, if there is one.
    pub fn frame_type(&self, tag: u8) -> (r: Option<FrameType>)
        ensures
            match r {
                Some(t) => self.spec_tag(t) == tag,
                None => forall|t: FrameType| self.spec_tag(t) != tag,
            },
    {
        if tag == TAG_PING {
            Some(FrameType::Ping)
        } else if tag == self.raft {
            Some(FrameType::Raft)
        } else if tag == self.fetch_records {
            Some(FrameType::FetchRecords)
        } else if tag == self.fetch_response {
            Some(FrameType::FetchResponse)
        } else if tag == self.ack_replicated {
            Some(FrameType::AckReplicated)
        } else if tag == self.offset_for_leader_epoch {
            Some(FrameType::OffsetForLeaderEpoch)
        } else if tag == TAG_MIRROR_PULL {
            Some(FrameType::MirrorPull)
        } else if tag == TAG_LEAF_PUSH {
            Some(FrameType::LeafPush)
        } else if tag == TAG_COMMITTED_HW_QUERY {
            Some(FrameType::CommittedHwQuery)
        } else {
            None
        }
    }
}

/// What the bytes at the head of a stream hold.
#[derive(Debug)]
pub enum FrameDecode<'a> {
    /// A complete frame, and how many bytes it takes.
    Frame { type_tag: u8, body: &'a [u8], consumed: usize },
    /// The head of a frame that has not fully arrived.
    Incomplete,
}

/// [`FrameDecode`] as a mathematical value.
#[verifier::ext_equal]
pub enum FrameView {
    Frame { type_tag: u8, body: Seq<u8>, consumed: int },
    Incomplete,
}

impl<'a> FrameDecode<'a> {
    pub open spec fn view(&self) -> FrameView {
        match self {
            FrameDecode::Frame { type_tag, body, consumed } => FrameView::Frame {
                type_tag: *type_tag,
                body: body@,
                consumed: *consumed as int,
            },
            FrameDecode::Incomplete => FrameView::Incomplete,
        }
    }
}

/// The bytes of a frame whose length fits its prefix.
pub open spec fn frame_bytes(type_tag: u8, body: Seq<u8>) -> Seq<u8> {
    spec_u32_to_le_bytes((1 + body.len()) as u32) + seq![type_tag] + body
}

/// The length that the first four bytes of `input` claim.
pub open spec fn claimed_len(input: Seq<u8>) -> u32 {
    spec_u32_from_le_bytes(input.subrange(0, 4))
}

/// What `input` holds, under a cap on the claimed length.
pub open spec fn parse_frame(input: Seq<u8>, cap: u32) -> Result<FrameView, FrameError> {
    if input.len() < 4 {
        Ok(FrameView::Incomplete)
    } else {
        let len = claimed_len(input);
        if len == 0 {
            Err(FrameError::EmptyFrame)
        } else if len > cap {
            Err(FrameError::FrameTooLarge { len: len as u64 })
        } else if input.len() < 4 + len {
            Ok(FrameView::Incomplete)
        } else {
            Ok(
                FrameView::Frame {
                    type_tag: input[4],
                    body: input.subrange(5, 4 + len),
                    consumed: 4 + len,
                },
            )
        }
    }
}

/// A frame that fits the cap is read back whole from the head of any stream that starts with it.
pub proof fn law_frame_round_trips(type_tag: u8, body: Seq<u8>, rest: Seq<u8>, cap: u32)
    requires
        1 + body.len() <= cap,
    ensures
        parse_frame(frame_bytes(type_tag, body) + rest, cap) == Ok::<FrameView, FrameError>(
            FrameView::Frame { type_tag, body, consumed: 5int + body.len() },
        ),
        frame_bytes(type_tag, body).len() == 5 + body.len(),
{
    lemma_auto_spec_u32_to_from_le_bytes();
    let n = (1 + body.len()) as u32;
    let head = spec_u32_to_le_bytes(n);
    let input = frame_bytes(type_tag, body) + rest;
    assert(head.len() == 4);
    assert(input.subrange(0, 4) =~= head);
    assert(input[4] == type_tag);
    assert(input.subrange(5, 4 + n) =~= body);
}

/// A frame whose prefix claims more than the cap is refused on the prefix alone: no byte after it
/// has any say, and none need be present.
pub proof fn law_oversized_refused_on_prefix(input: Seq<u8>, rest: Seq<u8>, cap: u32)
    requires
        input.len() >= 4,
        claimed_len(input) > cap,
    ensures
        parse_frame(input, cap) == Err::<FrameView, FrameError>(
            FrameError::FrameTooLarge { len: claimed_len(input) as u64 },
        ),
        parse_frame(input.subrange(0, 4) + rest, cap) == parse_frame(input, cap),
{
    let other = input.subrange(0, 4) + rest;
    assert(other.subrange(0, 4) =~= input.subrange(0, 4));
}

/// A frame that has not fully arrived is never refused and never misread: every strict prefix of
/// a frame that fits the cap is incomplete.
pub proof fn law_partial_frame_is_incomplete(type_tag: u8, body: Seq<u8>, n: int, cap: u32)
    requires
        1 + body.len() <= cap,
        0 <= n < frame_bytes(type_tag, body).len(),
    ensures
        parse_frame(frame_bytes(type_tag, body).take(n), cap) == Ok::<FrameView, FrameError>(
            FrameView::Incomplete,
        ),
{
    lemma_auto_spec_u32_to_from_le_bytes();
    let head = spec_u32_to_le_bytes((1 + body.len()) as u32);
    let input = frame_bytes(type_tag, body).take(n);
    assert(head.len() == 4);
    if n >= 4 {
        assert(input.subrange(0, 4) =~= head);
    }
}

/// The length of a frame with a body of `n` bytes, saturating at `u64::MAX`.
pub open spec fn frame_len(n: nat) -> u64 {
    if n < u64::MAX {
        (n + 1) as u64
    } else {
        u64::MAX
    }
}

/// Append a frame to `out`. A frame longer than `max_len` is refused and nothing is appended.
pub fn encode_frame(type_tag: u8, body: &[u8], max_len: u32, out: &mut Vec<u8>) -> (r: Result<
    (),
    FrameError,
>)
    ensures
        1 + body@.len() <= max_len ==> r == Ok::<(), FrameError>(()) && final(out)@ == old(out)@
            + frame_bytes(type_tag, body@),
        1 + body@.len() > max_len ==> r == Err::<(), FrameError>(
            FrameError::FrameTooLarge { len: frame_len(body@.len()) },
        ) && final(out)@ == old(out)@,
{
    let len: u64 = (body.len() as u64).saturating_add(1);
    if len > max_len as u64 {
        return Err(FrameError::FrameTooLarge { len });
    }
    let head = u32_to_le_bytes(len as u32);
    wire::put_bytes(out, head.as_slice());
    out.push(type_tag);
    wire::put_bytes(out, body);
    assert(out@ =~= old(out)@ + frame_bytes(type_tag, body@));
    Ok(())
}

/// Look for one complete frame at the head of `input`, under a cap on the claimed length.
pub fn decode_frame_with_cap<'a>(input: &'a [u8], cap: u32) -> (r: Result<
    FrameDecode<'a>,
    FrameError,
>)
    ensures
        match r {
            Ok(d) => parse_frame(input@, cap) == Ok::<FrameView, FrameError>(d.view()),
            Err(e) => parse_frame(input@, cap) == Err::<FrameView, FrameError>(e),
        },
{
    if input.len() < 4 {
        return Ok(FrameDecode::Incomplete);
    }
    let len = u32_from_le_bytes(vstd::slice::slice_subrange(input, 0, 4));
    if len == 0 {
        return Err(FrameError::EmptyFrame);
    }
    if len > cap {
        return Err(FrameError::FrameTooLarge { len: len as u64 });
    }
    if input.len() - 4 < len as usize {
        return Ok(FrameDecode::Incomplete);
    }
    let end: usize = 4 + len as usize;
    Ok(
        FrameDecode::Frame {
            type_tag: input[4],
            body: vstd::slice::slice_subrange(input, 5, end),
            consumed: end,
        },
    )
}


// ---- laws of the envelope ----

/// The layout of a frame: four little-endian bytes that count the type byte and the body, the type
/// byte, the body.
pub proof fn law_frame_layout(type_tag: u8, body: Seq<u8>)
    requires
        1 + body.len() <= u32::MAX,
    ensures
        ({
            let b = frame_bytes(type_tag, body);
            &&& b.len() == 5 + body.len()
            &&& b.subrange(0, 4) == spec_u32_to_le_bytes((1 + body.len()) as u32)
            &&& b[4] == type_tag
            &&& b.subrange(5, b.len() as int) == body
        }),
{
    let b = frame_bytes(type_tag, body);
    wire::lemma_id_widths();
    assert(b.subrange(0, 4) =~= spec_u32_to_le_bytes((1 + body.len()) as u32));
    assert(b.subrange(5, b.len() as int) =~= body);
}

/// Only a frame is read as one: what is read off a stream stands at its head, within the cap, and
/// exactly its bytes are consumed.
pub proof fn law_only_a_frame_is_read_as_one(input: Seq<u8>, cap: u32)
    ensures
        parse_frame(input, cap) matches Ok(FrameView::Frame { type_tag, body, consumed }) ==> {
            &&& 1 + body.len() <= cap
            &&& consumed == 5 + body.len()
            &&& consumed <= input.len()
            &&& input.take(consumed) == frame_bytes(type_tag, body)
        },
{
    lemma_auto_spec_u32_to_from_le_bytes();
    if let Ok(FrameView::Frame { type_tag, body, consumed }) = parse_frame(input, cap) {
        let head = input.subrange(0, 4);
        assert(spec_u32_to_le_bytes(spec_u32_from_le_bytes(head)) == head);
        assert(input.take(consumed) =~= frame_bytes(type_tag, body));
    }
}

/// What the head of a stream comes to, by the length that it claims: nothing is decided before four
/// bytes are there, a claim of zero is an empty frame, one over the cap is refused by that claim,
/// and any other is waited for until its last byte is there.
pub proof fn law_frame_is_decided_by_its_claim(input: Seq<u8>, cap: u32)
    ensures
        input.len() < 4 ==> parse_frame(input, cap) == Ok::<FrameView, FrameError>(
            FrameView::Incomplete,
        ),
        input.len() >= 4 ==> {
            let n = spec_u32_from_le_bytes(input.subrange(0, 4));
            &&& n == 0 <==> parse_frame(input, cap) == Err::<FrameView, FrameError>(
                FrameError::EmptyFrame,
            )
            &&& 0 < n && n > cap ==> parse_frame(input, cap) == Err::<FrameView, FrameError>(
                FrameError::FrameTooLarge { len: n as u64 },
            )
            &&& 0 < n <= cap && input.len() < 4 + n ==> parse_frame(input, cap) == Ok::<
                FrameView,
                FrameError,
            >(FrameView::Incomplete)
            &&& 0 < n <= cap && input.len() >= 4 + n ==> parse_frame(input, cap) == Ok::<
                FrameView,
                FrameError,
            >(
                FrameView::Frame {
                    type_tag: input[4],
                    body: input.subrange(5, 4 + n),
                    consumed: 4int + n,
                },
            )
        },
{
}

/// A frame is one byte longer than its body, as far as that can be counted.
pub proof fn law_frame_counts_its_type_byte(n: nat)
    ensures
        n < u64::MAX ==> frame_len(n) == n + 1,
        n >= u64::MAX ==> frame_len(n) == u64::MAX,
{
}

/// The tags that a deployment may choose are the protocol's; the others are fixed.
pub proof fn law_tags_are_the_protocols(p: &WireProtocol)
    ensures
        p.spec_tag(FrameType::Ping) == 3,
        p.spec_tag(FrameType::Raft) == p.raft,
        p.spec_tag(FrameType::FetchRecords) == p.fetch_records,
        p.spec_tag(FrameType::FetchResponse) == p.fetch_response,
        p.spec_tag(FrameType::AckReplicated) == p.ack_replicated,
        p.spec_tag(FrameType::OffsetForLeaderEpoch) == p.offset_for_leader_epoch,
        p.spec_tag(FrameType::MirrorPull) == 40,
        p.spec_tag(FrameType::LeafPush) == 41,
        p.spec_tag(FrameType::CommittedHwQuery) == 43,
{
}

/// A protocol is well-formed if and only if every tag names at most one frame type.
pub proof fn law_tags_are_told_apart(p: &WireProtocol)
    ensures
        p.wf() <==> forall|a: FrameType, b: FrameType|
            a != b ==> #[trigger] p.spec_tag(a) != #[trigger] p.spec_tag(b),
{
}

}
