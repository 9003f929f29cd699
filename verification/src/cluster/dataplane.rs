//! The data-plane peer codec: `[len][type][partition: u64-le][layer body]`.
//!
//! One peer link carries the data frames of every partition that a node holds, so each body
//! starts with its partition id. The bodies themselves belong to the replication layer and are
//! opaque bytes here.

use vstd::bytes::*;
use vstd::prelude::*;

use crate::cluster::frame;
use crate::cluster::frame::{FrameDecode, FrameError, FrameType, FrameView, WireProtocol};
use crate::cluster::stream;
use crate::cluster::stream::Turn;
use crate::cluster::transport::{IoFault, LinkBuffer, LinkRead};
use crate::cluster::wire;

verus! {

/// The hard maximum size, in bytes, of one data-plane frame: the partition prefix and the layer
/// body.
pub const MAX_DATAPLANE_FRAME_BYTES: u32 = 12 * 1024 * 1024;

/// The width of the partition-id prefix.
pub const PARTITION_PREFIX_LEN: usize = 8;

/// The data verbs that peers exchange.
#[derive(Debug, Clone, Copy, PartialEq, Eq, Structural)]
pub enum DataPlaneVerb {
    FetchRequest,
    FetchResponse,
    AckReplicated,
    EpochQuery,
    EpochResponse,
    CommittedHwQuery,
    CommittedHwResponse,
}

/// Why the layer below refused a frame.
#[derive(Debug, Clone, Copy, PartialEq, Eq, Structural)]
pub enum LayerError {
    /// The type tag is not that of a data verb.
    UnexpectedType {
        /// The raw type tag seen.
        tag: u8,
    },
    /// The layer codec refused the body.
    Body,
}

/// A typed error from the data-plane wire.
#[derive(Debug, Clone, Copy, PartialEq, Eq, Structural)]
pub enum DataPlaneWireError {
    /// The length exceeds the hard size cap; the body was never looked at.
    Oversized {
        /// The length that was claimed, or that the frame would have.
        len: u64,
    },
    /// The frame envelope itself was malformed.
    Frame(FrameError),
    /// The body is shorter than the partition-id prefix.
    MissingPartitionPrefix,
    /// The frame is not a valid data verb.
    Decode(LayerError),
    /// The connection failed.
    Io(IoFault),
}

/// The frame type of a verb: a query and its response share one.
pub open spec fn spec_frame_type_for(verb: DataPlaneVerb) -> FrameType {
    match verb {
        DataPlaneVerb::FetchRequest => FrameType::FetchRecords,
        DataPlaneVerb::FetchResponse => FrameType::FetchResponse,
        DataPlaneVerb::AckReplicated => FrameType::AckReplicated,
        DataPlaneVerb::EpochQuery => FrameType::OffsetForLeaderEpoch,
        DataPlaneVerb::EpochResponse => FrameType::OffsetForLeaderEpoch,
        DataPlaneVerb::CommittedHwQuery => FrameType::CommittedHwQuery,
        DataPlaneVerb::CommittedHwResponse => FrameType::CommittedHwQuery,
    }
}

/// The frame type of a verb.
pub fn frame_type_for(verb: DataPlaneVerb) -> (t: FrameType)
    ensures
        t == spec_frame_type_for(verb),
{
    match verb {
        DataPlaneVerb::FetchRequest => FrameType::FetchRecords,
        DataPlaneVerb::FetchResponse => FrameType::FetchResponse,
        DataPlaneVerb::AckReplicated => FrameType::AckReplicated,
        DataPlaneVerb::EpochQuery | DataPlaneVerb::EpochResponse => FrameType::OffsetForLeaderEpoch,
        DataPlaneVerb::CommittedHwQuery | DataPlaneVerb::CommittedHwResponse => {
            FrameType::CommittedHwQuery
        },
    }
}

/// The tag is that of a data verb.
pub open spec fn is_data_tag(protocol: &WireProtocol, tag: u8) -> bool {
    exists|verb: DataPlaneVerb| #[trigger] protocol.spec_tag(spec_frame_type_for(verb)) == tag
}

/// A count in 64 bits, saturating.
pub open spec fn len_u64(n: nat) -> u64 {
    if n <= u64::MAX {
        n as u64
    } else {
        u64::MAX
    }
}

/// The frame body: the partition id, then the layer body.
pub open spec fn dataplane_body(partition: u64, layer_body: Seq<u8>) -> Seq<u8> {
    spec_u64_to_le_bytes(partition) + layer_body
}

/// The bytes of a data-plane frame.
pub open spec fn dataplane_bytes(
    protocol: &WireProtocol,
    partition: u64,
    verb: DataPlaneVerb,
    layer_body: Seq<u8>,
) -> Seq<u8> {
    frame::frame_bytes(
        protocol.spec_tag(spec_frame_type_for(verb)),
        dataplane_body(partition, layer_body),
    )
}

/// What framing a layer body of `n` bytes is refused with, if it is: first the data-plane cap on
/// the body, then the absolute bound on the frame.
pub open spec fn framing_refusal(protocol: &WireProtocol, n: nat) -> Option<DataPlaneWireError> {
    if 8 + n > MAX_DATAPLANE_FRAME_BYTES {
        Some(DataPlaneWireError::Oversized { len: len_u64(8 + n) })
    } else if 9 + n > protocol.max_frame_len {
        Some(DataPlaneWireError::Oversized { len: (9 + n) as u64 })
    } else {
        None
    }
}

/// Frame one fetch response directly into its final buffer, so that the record run is copied once
/// only. `header` and `run` together are the layer body; the bytes are those that
/// [`encode_dataplane_peer_frame`] produces for it.
pub fn encode_fetch_response_peer_frame(
    protocol: &WireProtocol,
    partition: u64,
    header: &[u8],
    run: &[u8],
) -> (r: Result<Vec<u8>, DataPlaneWireError>)
    ensures
        match r {
            Ok(out) => framing_refusal(protocol, header@.len() + run@.len()) is None && out@
                == dataplane_bytes(
                protocol,
                partition,
                DataPlaneVerb::FetchResponse,
                header@ + run@,
            ),
            Err(e) => framing_refusal(protocol, header@.len() + run@.len()) == Some(e),
        },
{
    let body_len: u64 = (header.len() as u64).saturating_add(run.len() as u64).saturating_add(
        PARTITION_PREFIX_LEN as u64,
    );
    if body_len > MAX_DATAPLANE_FRAME_BYTES as u64 {
        return Err(DataPlaneWireError::Oversized { len: body_len });
    }
    let frame_len: u64 = 1 + body_len;
    if frame_len > protocol.max_frame_len as u64 {
        return Err(DataPlaneWireError::Oversized { len: frame_len });
    }
    proof {
        wire::lemma_id_widths();
    }
    let mut out: Vec<u8> = Vec::new();
    let prefix = u32_to_le_bytes(frame_len as u32);
    wire::put_bytes(&mut out, prefix.as_slice());
    out.push(protocol.tag(FrameType::FetchResponse));
    wire::put_u64(&mut out, partition);
    wire::put_bytes(&mut out, header);
    wire::put_bytes(&mut out, run);
    assert(out@ =~= dataplane_bytes(
        protocol,
        partition,
        DataPlaneVerb::FetchResponse,
        header@ + run@,
    ));
    Ok(out)
}

/// Encode one data frame for a partition.
pub fn encode_dataplane_peer_frame(
    protocol: &WireProtocol,
    partition: u64,
    verb: DataPlaneVerb,
    layer_body: &[u8],
) -> (r: Result<Vec<u8>, DataPlaneWireError>)
    ensures
        match r {
            Ok(out) => framing_refusal(protocol, layer_body@.len()) is None && out@
                == dataplane_bytes(protocol, partition, verb, layer_body@),
            Err(e) => framing_refusal(protocol, layer_body@.len()) == Some(e),
        },
{
    match verb {
        DataPlaneVerb::FetchResponse => {
            let nothing: Vec<u8> = Vec::new();
            assert(layer_body@ + nothing@ =~= layer_body@);
            return encode_fetch_response_peer_frame(
                protocol,
                partition,
                layer_body,
                nothing.as_slice(),
            );
        },
        _ => {},
    }
    proof {
        wire::lemma_id_widths();
    }
    let body_len: u64 = (layer_body.len() as u64).saturating_add(PARTITION_PREFIX_LEN as u64);
    if body_len > MAX_DATAPLANE_FRAME_BYTES as u64 {
        return Err(DataPlaneWireError::Oversized { len: body_len });
    }
    let mut body: Vec<u8> = Vec::new();
    wire::put_u64(&mut body, partition);
    wire::put_bytes(&mut body, layer_body);
    assert(body@ =~= dataplane_body(partition, layer_body@));
    let mut out: Vec<u8> = Vec::new();
    match frame::encode_frame(
        protocol.tag(frame_type_for(verb)),
        body.as_slice(),
        protocol.max_frame_len,
        &mut out,
    ) {
        Ok(()) => {
            assert(out@ =~= dataplane_bytes(protocol, partition, verb, layer_body@));
            Ok(out)
        },
        Err(FrameError::FrameTooLarge { len }) => Err(DataPlaneWireError::Oversized { len }),
        Err(e) => Err(DataPlaneWireError::Frame(e)),
    }
}

/// One data frame off the wire: the partition, the type tag of its verb, and the layer body.
#[derive(Debug, Clone, PartialEq, Eq)]
pub struct DataPlanePacket {
    pub partition: u64,
    pub type_tag: u8,
    pub body: Vec<u8>,
}

/// A data frame as a mathematical value.
#[verifier::ext_equal]
pub struct PacketView {
    pub partition: u64,
    pub type_tag: u8,
    pub body: Seq<u8>,
}

impl View for DataPlanePacket {
    type V = PacketView;

    open spec fn view(&self) -> PacketView {
        PacketView { partition: self.partition, type_tag: self.type_tag, body: self.body@ }
    }
}

/// The cap on the claimed length of a data-plane frame: the type byte and the largest body, within
/// the absolute bound.
pub open spec fn dataplane_cap(protocol: &WireProtocol) -> u32 {
    if MAX_DATAPLANE_FRAME_BYTES < protocol.max_frame_len {
        (MAX_DATAPLANE_FRAME_BYTES + 1) as u32
    } else {
        protocol.max_frame_len
    }
}

/// What the head of a data-plane stream holds: nothing complete yet, a packet and the bytes that
/// it takes, or an error.
pub open spec fn parse_packet(protocol: &WireProtocol, input: Seq<u8>) -> Result<
    Option<(PacketView, int)>,
    DataPlaneWireError,
> {
    match frame::parse_frame(input, dataplane_cap(protocol)) {
        Ok(FrameView::Frame { type_tag, body, consumed }) => if body.len() < 8 {
            Err(DataPlaneWireError::MissingPartitionPrefix)
        } else if !is_data_tag(protocol, type_tag) {
            Err(DataPlaneWireError::Decode(LayerError::UnexpectedType { tag: type_tag }))
        } else {
            Ok(
                Some(
                    (
                        PacketView {
                            partition: spec_u64_from_le_bytes(body.subrange(0, 8)),
                            type_tag,
                            body: body.skip(8),
                        },
                        consumed,
                    ),
                ),
            )
        },
        Ok(FrameView::Incomplete) => Ok(None),
        Err(FrameError::FrameTooLarge { len }) => Err(DataPlaneWireError::Oversized { len }),
        Err(e) => Err(DataPlaneWireError::Frame(e)),
    }
}

/// Encoder and decoder are bounded alike, and every data frame that is encoded round-trips: the
/// partition, the verb's tag and the layer body come back, and exactly the frame is consumed.
pub proof fn law_dataplane_frame_round_trips(
    protocol: &WireProtocol,
    partition: u64,
    verb: DataPlaneVerb,
    layer_body: Seq<u8>,
    rest: Seq<u8>,
)
    requires
        framing_refusal(protocol, layer_body.len()) is None,
    ensures
        dataplane_bytes(protocol, partition, verb, layer_body).len() == 13 + layer_body.len(),
        parse_packet(
            protocol,
            dataplane_bytes(protocol, partition, verb, layer_body) + rest,
        ) == Ok::<Option<(PacketView, int)>, DataPlaneWireError>(
            Some(
                (
                    PacketView {
                        partition,
                        type_tag: protocol.spec_tag(spec_frame_type_for(verb)),
                        body: layer_body,
                    },
                    13int + layer_body.len(),
                ),
            ),
        ),
{
    lemma_auto_spec_u64_to_from_le_bytes();
    let body = dataplane_body(partition, layer_body);
    let tag = protocol.spec_tag(spec_frame_type_for(verb));
    assert(spec_u64_to_le_bytes(partition).len() == 8);
    frame::law_frame_round_trips(tag, body, rest, dataplane_cap(protocol));
    assert(is_data_tag(protocol, tag));
    assert(body.subrange(0, 8) =~= spec_u64_to_le_bytes(partition));
    assert(body.skip(8) =~= layer_body);
}

/// An oversized data frame is refused on its length prefix, whatever follows.
pub proof fn law_oversized_dataplane_frame_is_refused(protocol: &WireProtocol, input: Seq<u8>)
    requires
        input.len() >= 4,
        frame::claimed_len(input) > dataplane_cap(protocol),
    ensures
        parse_packet(protocol, input) == Err::<Option<(PacketView, int)>, DataPlaneWireError>(
            DataPlaneWireError::Oversized { len: frame::claimed_len(input) as u64 },
        ),
{
}

/// Whether a tag is that of a data verb.
fn data_tag(protocol: &WireProtocol, tag: u8) -> (r: bool)
    ensures
        r == is_data_tag(protocol, tag),
{
    let r = tag == protocol.tag(frame_type_for(DataPlaneVerb::FetchRequest)) || tag
        == protocol.tag(frame_type_for(DataPlaneVerb::FetchResponse)) || tag == protocol.tag(
        frame_type_for(DataPlaneVerb::AckReplicated),
    ) || tag == protocol.tag(frame_type_for(DataPlaneVerb::EpochQuery)) || tag == protocol.tag(
        frame_type_for(DataPlaneVerb::CommittedHwQuery),
    );
    proof {
        if is_data_tag(protocol, tag) {
            let verb = choose|verb: DataPlaneVerb| #[trigger]
                protocol.spec_tag(spec_frame_type_for(verb)) == tag;
            match verb {
                DataPlaneVerb::FetchRequest => {},
                DataPlaneVerb::FetchResponse => {},
                DataPlaneVerb::AckReplicated => {},
                DataPlaneVerb::EpochQuery => {},
                DataPlaneVerb::EpochResponse => {},
                DataPlaneVerb::CommittedHwQuery => {},
                DataPlaneVerb::CommittedHwResponse => {},
            }
        }
    }
    r
}

/// Decode one untrusted data-plane frame at the head of `input`. `Ok(None)` asks for more bytes.
pub fn decode_dataplane_peer_frame(protocol: &WireProtocol, input: &[u8]) -> (r: Result<
    Option<(DataPlanePacket, usize)>,
    DataPlaneWireError,
>)
    ensures
        match r {
            Ok(None) => parse_packet(protocol, input@) == Ok::<
                Option<(PacketView, int)>,
                DataPlaneWireError,
            >(None),
            Ok(Some((p, consumed))) => parse_packet(protocol, input@) == Ok::<
                Option<(PacketView, int)>,
                DataPlaneWireError,
            >(Some((p@, consumed as int))) && consumed <= input@.len(),
            Err(e) => parse_packet(protocol, input@) == Err::<
                Option<(PacketView, int)>,
                DataPlaneWireError,
            >(e),
        },
{
    let cap: u32 = if MAX_DATAPLANE_FRAME_BYTES < protocol.max_frame_len {
        MAX_DATAPLANE_FRAME_BYTES + 1
    } else {
        protocol.max_frame_len
    };
    match frame::decode_frame_with_cap(input, cap) {
        Ok(FrameDecode::Frame { type_tag, body, consumed }) => {
            if body.len() < PARTITION_PREFIX_LEN {
                return Err(DataPlaneWireError::MissingPartitionPrefix);
            }
            if !data_tag(protocol, type_tag) {
                return Err(
                    DataPlaneWireError::Decode(LayerError::UnexpectedType { tag: type_tag }),
                );
            }
            let partition = u64_from_le_bytes(
                vstd::slice::slice_subrange(body, 0, PARTITION_PREFIX_LEN),
            );
            let mut layer: Vec<u8> = Vec::new();
            wire::put_bytes(
                &mut layer,
                vstd::slice::slice_subrange(body, PARTITION_PREFIX_LEN, body.len()),
            );
            assert(layer@ =~= body@.skip(8));
            Ok(Some((DataPlanePacket { partition, type_tag, body: layer }, consumed)))
        },
        Ok(FrameDecode::Incomplete) => Ok(None),
        Err(FrameError::FrameTooLarge { len }) => Err(DataPlaneWireError::Oversized { len }),
        Err(e) => Err(DataPlaneWireError::Frame(e)),
    }
}

/// One end of a data-plane link, without its connection.
#[derive(Debug, Clone)]
pub struct DataPlaneLink {
    pub buffer: LinkBuffer,
}

impl DataPlaneLink {
    /// A link on which nothing has arrived.
    pub fn new() -> (l: DataPlaneLink)
        ensures
            l.buffer@ == Seq::<u8>::empty(),
    {
        DataPlaneLink { buffer: LinkBuffer::new() }
    }

    /// The bytes to write for one outbound frame; see [`encode_dataplane_peer_frame`].
    pub fn send(
        &self,
        protocol: &WireProtocol,
        partition: u64,
        verb: DataPlaneVerb,
        layer_body: &[u8],
    ) -> (r: Result<Vec<u8>, DataPlaneWireError>)
        ensures
            match r {
                Ok(out) => framing_refusal(protocol, layer_body@.len()) is None && out@
                    == dataplane_bytes(protocol, partition, verb, layer_body@),
                Err(e) => framing_refusal(protocol, layer_body@.len()) == Some(e),
            },
    {
        encode_dataplane_peer_frame(protocol, partition, verb, layer_body)
    }

    /// Take one frame off the bytes that have arrived. `Ok(None)` asks for another read. On an
    /// error the buffer is left as it is, and the caller drops the link.
    pub fn recv(&mut self, protocol: &WireProtocol) -> (r: Result<
        Option<DataPlanePacket>,
        DataPlaneWireError,
    >)
        ensures
            match parse_packet(protocol, old(self).buffer@) {
                Ok(None) => r == Ok::<Option<DataPlanePacket>, DataPlaneWireError>(None)
                    && *final(self) == *old(self),
                Ok(Some((p, consumed))) => r is Ok && r->Ok_0 is Some && r->Ok_0->0@ == p
                    && final(self).buffer@ == old(self).buffer@.skip(consumed),
                Err(e) => r == Err::<Option<DataPlanePacket>, DataPlaneWireError>(e)
                    && *final(self) == *old(self),
            },
    {
        match decode_dataplane_peer_frame(protocol, self.buffer.inbuf.as_slice()) {
            Ok(Some((p, consumed))) => {
                self.buffer.consume(consumed);
                Ok(Some(p))
            },
            Ok(None) => Ok(None),
            Err(e) => Err(e),
        }
    }
}

// ---- a stream of data frames ----

/// An outbound data frame.
#[verifier::ext_equal]
pub struct Outbound {
    pub partition: u64,
    pub verb: DataPlaneVerb,
    pub body: Seq<u8>,
}

impl Outbound {
    /// The encoder accepts the frame.
    pub open spec fn accepted(self, protocol: &WireProtocol) -> bool {
        framing_refusal(protocol, self.body.len()) is None
    }

    /// What is written for the frame.
    pub open spec fn bytes(self, protocol: &WireProtocol) -> Seq<u8> {
        dataplane_bytes(protocol, self.partition, self.verb, self.body)
    }

    /// What is read back of it.
    pub open spec fn packet(self, protocol: &WireProtocol) -> PacketView {
        PacketView {
            partition: self.partition,
            type_tag: protocol.spec_tag(spec_frame_type_for(self.verb)),
            body: self.body,
        }
    }
}

/// What [`DataPlaneLink::recv`] finds at the head of its buffer.
pub open spec fn packet_turn(protocol: &WireProtocol) -> spec_fn(Seq<u8>) -> Turn<PacketView> {
    |buf: Seq<u8>|
        match parse_packet(protocol, buf) {
            Ok(Some((item, consumed))) => Turn::Item { item, consumed },
            Ok(None) => Turn::More,
            Err(_) => Turn::Fault,
        }
}

/// Each frame of `out` as it is read back, with its bytes.
pub open spec fn written_frames(protocol: &WireProtocol, out: Seq<Outbound>) -> Seq<
    (PacketView, Seq<u8>),
> {
    out.map_values(|f: Outbound| (f.packet(protocol), f.bytes(protocol)))
}

proof fn lemma_frame_reads(protocol: &WireProtocol, f: Outbound)
    requires
        f.accepted(protocol),
    ensures
        stream::frames(packet_turn(protocol), f.packet(protocol), f.bytes(protocol)),
{
    let turn = packet_turn(protocol);
    let bytes = f.bytes(protocol);
    let body = dataplane_body(f.partition, f.body);
    let tag = protocol.spec_tag(spec_frame_type_for(f.verb));
    wire::lemma_id_widths();
    law_dataplane_frame_round_trips(protocol, f.partition, f.verb, f.body, Seq::empty());
    assert forall|rest: Seq<u8>|
        turn(#[trigger] bytes.add(rest)) == (Turn::Item {
            item: f.packet(protocol),
            consumed: bytes.len() as int,
        }) by {
        law_dataplane_frame_round_trips(protocol, f.partition, f.verb, f.body, rest);
    }
    assert forall|k: int| 0 <= k < bytes.len() implies turn(#[trigger] bytes.take(k)) == Turn::<
        PacketView,
    >::More by {
        frame::law_partial_frame_is_incomplete(tag, body, k, dataplane_cap(protocol));
    }
}

proof fn lemma_written_frames(protocol: &WireProtocol, out: Seq<Outbound>)
    requires
        forall|i: int| 0 <= i < out.len() ==> (#[trigger] out[i]).accepted(protocol),
    ensures
        ({
            let fs = written_frames(protocol, out);
            forall|i: int|
                0 <= i < fs.len() ==> stream::frames(
                    packet_turn(protocol),
                    (#[trigger] fs[i]).0,
                    fs[i].1,
                )
        }),
        stream::items_of(written_frames(protocol, out)) == out.map_values(
            |f: Outbound| f.packet(protocol),
        ),
{
    let fs = written_frames(protocol, out);
    assert forall|i: int| 0 <= i < fs.len() implies stream::frames(
        packet_turn(protocol),
        (#[trigger] fs[i]).0,
        fs[i].1,
    ) by {
        assert(out[i].accepted(protocol));
        lemma_frame_reads(protocol, out[i]);
    }
    assert(stream::items_of(fs) =~= out.map_values(|f: Outbound| f.packet(protocol)));
}

/// A buffer that holds `n` sent frames gives them back in `n` calls of [`DataPlaneLink::recv`], in
/// order, and keeps the rest.
pub proof fn law_buffered_packets_come_out_in_order(
    protocol: &WireProtocol,
    out: Seq<Outbound>,
    rest: Seq<u8>,
)
    requires
        forall|i: int| 0 <= i < out.len() ==> (#[trigger] out[i]).accepted(protocol),
    ensures
        stream::taken(
            packet_turn(protocol),
            stream::joined(written_frames(protocol, out)) + rest,
            out.len(),
        ) == Some((out.map_values(|f: Outbound| f.packet(protocol)), rest)),
{
    lemma_written_frames(protocol, out);
    stream::law_buffered_frames_come_out_in_order(
        packet_turn(protocol),
        written_frames(protocol, out),
        rest,
    );
}

/// A link hands out exactly the frames that the other end sent, in order, however the reads cut
/// them, and then a clean close.
pub proof fn law_sent_packets_are_received(
    protocol: &WireProtocol,
    out: Seq<Outbound>,
    reads: Seq<Seq<u8>>,
)
    requires
        forall|i: int| 0 <= i < out.len() ==> (#[trigger] out[i]).accepted(protocol),
        forall|i: int| 0 <= i < reads.len() ==> (#[trigger] reads[i]).len() > 0,
        reads.flatten() == stream::joined(written_frames(protocol, out)),
    ensures
        stream::received(packet_turn(protocol), Seq::empty(), reads) == (
            out.map_values(|f: Outbound| f.packet(protocol)),
            Some(LinkRead::Closed),
        ),
{
    let fs = written_frames(protocol, out);
    let none = Seq::<u8>::empty();
    lemma_written_frames(protocol, out);
    assert forall|k: int| 0 <= k <= none.len() implies (packet_turn(protocol))(
        #[trigger] none.take(k),
    ) == Turn::<PacketView>::More by {
        assert(none.take(k) =~= none);
    }
    assert(none + reads.flatten() =~= stream::joined(fs) + none);
    stream::law_stream_is_read_back(packet_turn(protocol), fs, none, none, reads);
}

/// A stream that ends inside a frame is no clean close: the frames before it are handed out, and
/// then the end in the middle of a frame.
pub proof fn law_cut_packet_is_no_clean_close(
    protocol: &WireProtocol,
    out: Seq<Outbound>,
    last: Outbound,
    cut: int,
    reads: Seq<Seq<u8>>,
)
    requires
        forall|i: int| 0 <= i < out.len() ==> (#[trigger] out[i]).accepted(protocol),
        last.accepted(protocol),
        0 < cut < last.bytes(protocol).len(),
        forall|i: int| 0 <= i < reads.len() ==> (#[trigger] reads[i]).len() > 0,
        reads.flatten() == stream::joined(written_frames(protocol, out)) + last.bytes(
            protocol,
        ).take(cut),
    ensures
        stream::received(packet_turn(protocol), Seq::empty(), reads) == (
            out.map_values(|f: Outbound| f.packet(protocol)),
            Some(LinkRead::ClosedMidFrame),
        ),
{
    let fs = written_frames(protocol, out);
    let tail = last.bytes(protocol).take(cut);
    let turn = packet_turn(protocol);
    lemma_written_frames(protocol, out);
    lemma_frame_reads(protocol, last);
    assert forall|k: int| 0 <= k <= tail.len() implies turn(#[trigger] tail.take(k)) == Turn::<
        PacketView,
    >::More by {
        assert(tail.take(k) =~= last.bytes(protocol).take(k));
    }
    assert(Seq::<u8>::empty() + reads.flatten() =~= stream::joined(fs) + tail);
    stream::law_stream_is_read_back(turn, fs, tail, Seq::empty(), reads);
}

/// The answer to a committed-high-watermark query, as the link delivered it.
#[derive(Debug, Clone, Copy, PartialEq, Eq, Structural)]
pub enum HwReply {
    /// A committed-high-watermark response for `partition`.
    CommittedHw { partition: u64, committed_hw: u64 },
    /// Any other frame.
    OtherFrame,
    /// The link closed, timed out or failed.
    Failed,
}

/// The high-watermark that a leader confirmed for `partition`. Anything but a response for that
/// very partition confirms nothing, and the caller serves only what it knows to be committed.
pub fn confirmed_hw(partition: u64, reply: HwReply) -> (r: Option<u64>)
    ensures
        r == match reply {
            HwReply::CommittedHw { partition: p, committed_hw } => if p == partition {
                Some(committed_hw)
            } else {
                None
            },
            _ => None,
        },
{
    match reply {
        HwReply::CommittedHw { partition: p, committed_hw } => {
            if p == partition {
                Some(committed_hw)
            } else {
                None
            }
        },
        HwReply::OtherFrame => None,
        HwReply::Failed => None,
    }
}


// ---- laws of the data wire ----

/// The verbs on the wire: each has its own frame type, but that a query and its response share one.
pub proof fn law_verbs_have_their_frame_type(a: DataPlaneVerb, b: DataPlaneVerb)
    ensures
        spec_frame_type_for(DataPlaneVerb::FetchRequest) == FrameType::FetchRecords,
        spec_frame_type_for(DataPlaneVerb::FetchResponse) == FrameType::FetchResponse,
        spec_frame_type_for(DataPlaneVerb::AckReplicated) == FrameType::AckReplicated,
        spec_frame_type_for(DataPlaneVerb::EpochQuery) == FrameType::OffsetForLeaderEpoch,
        spec_frame_type_for(DataPlaneVerb::EpochResponse) == FrameType::OffsetForLeaderEpoch,
        spec_frame_type_for(DataPlaneVerb::CommittedHwQuery) == FrameType::CommittedHwQuery,
        spec_frame_type_for(DataPlaneVerb::CommittedHwResponse) == FrameType::CommittedHwQuery,
{
}

/// A tag is that of a data verb if and only if it is one of the five data tags.
pub proof fn law_data_tags_are_the_protocols(protocol: &WireProtocol, tag: u8)
    ensures
        is_data_tag(protocol, tag) <==> tag == protocol.fetch_records || tag
            == protocol.fetch_response || tag == protocol.ack_replicated || tag
            == protocol.offset_for_leader_epoch || tag == 43,
{
    assert(protocol.spec_tag(spec_frame_type_for(DataPlaneVerb::FetchRequest))
        == protocol.fetch_records);
    assert(protocol.spec_tag(spec_frame_type_for(DataPlaneVerb::FetchResponse))
        == protocol.fetch_response);
    assert(protocol.spec_tag(spec_frame_type_for(DataPlaneVerb::AckReplicated))
        == protocol.ack_replicated);
    assert(protocol.spec_tag(spec_frame_type_for(DataPlaneVerb::EpochQuery))
        == protocol.offset_for_leader_epoch);
    assert(protocol.spec_tag(spec_frame_type_for(DataPlaneVerb::CommittedHwQuery)) == 43);
}

/// A layer body is framed if and only if, with its partition, it is within the data-plane cap, and
/// with the type byte too within the absolute bound; a refusal says the length that was too large.
pub proof fn law_layer_body_is_framed_within_the_bounds(protocol: &WireProtocol, n: nat)
    ensures
        framing_refusal(protocol, n) is None <==> 8 + n <= MAX_DATAPLANE_FRAME_BYTES && 9 + n
            <= protocol.max_frame_len,
        8 + n > MAX_DATAPLANE_FRAME_BYTES && 8 + n <= u64::MAX ==> framing_refusal(protocol, n)
            == Some(DataPlaneWireError::Oversized { len: (8 + n) as u64 }),
        8 + n > u64::MAX ==> framing_refusal(protocol, n) == Some(
            DataPlaneWireError::Oversized { len: u64::MAX },
        ),
        8 + n <= MAX_DATAPLANE_FRAME_BYTES && 9 + n > protocol.max_frame_len ==> framing_refusal(
            protocol,
            n,
        ) == Some(DataPlaneWireError::Oversized { len: (9 + n) as u64 }),
{
}

/// The decoder's cap is the encoder's: the largest frame that either bound allows.
pub proof fn law_decoder_takes_what_the_encoder_makes(protocol: &WireProtocol, n: nat)
    ensures
        dataplane_cap(protocol) <= protocol.max_frame_len,
        dataplane_cap(protocol) <= MAX_DATAPLANE_FRAME_BYTES + 1,
        dataplane_cap(protocol) == protocol.max_frame_len || dataplane_cap(protocol)
            == MAX_DATAPLANE_FRAME_BYTES + 1,
        9 + n <= dataplane_cap(protocol) <==> framing_refusal(protocol, n) is None,
{
}

/// The layout of a data frame: the length of what follows, the verb's tag, the partition in eight
/// little-endian bytes, the layer body.
pub proof fn law_data_frame_layout(
    protocol: &WireProtocol,
    partition: u64,
    verb: DataPlaneVerb,
    layer_body: Seq<u8>,
)
    requires
        9 + layer_body.len() <= u32::MAX,
    ensures
        ({
            let b = dataplane_bytes(protocol, partition, verb, layer_body);
            &&& b.len() == 13 + layer_body.len()
            &&& b.subrange(0, 4) == spec_u32_to_le_bytes((9 + layer_body.len()) as u32)
            &&& b[4] == match verb {
                DataPlaneVerb::FetchRequest => protocol.fetch_records,
                DataPlaneVerb::FetchResponse => protocol.fetch_response,
                DataPlaneVerb::AckReplicated => protocol.ack_replicated,
                DataPlaneVerb::EpochQuery => protocol.offset_for_leader_epoch,
                DataPlaneVerb::EpochResponse => protocol.offset_for_leader_epoch,
                DataPlaneVerb::CommittedHwQuery => 43u8,
                DataPlaneVerb::CommittedHwResponse => 43u8,
            }
            &&& b.subrange(5, 13) == spec_u64_to_le_bytes(partition)
            &&& b.subrange(13, b.len() as int) == layer_body
        }),
{
    wire::lemma_id_widths();
    let b = dataplane_bytes(protocol, partition, verb, layer_body);
    let body = dataplane_body(partition, layer_body);
    frame::law_frame_layout(protocol.spec_tag(spec_frame_type_for(verb)), body);
    assert(b.subrange(5, 13) =~= b.subrange(5, b.len() as int).subrange(0, 8));
    assert(body.subrange(0, 8) =~= spec_u64_to_le_bytes(partition));
    assert(b.subrange(13, b.len() as int) =~= b.subrange(5, b.len() as int).skip(8));
    assert(body.skip(8) =~= layer_body);
}

/// What becomes of the head of a data stream, byte for byte: nothing before its frame is complete;
/// a claim of zero, or over the cap, is refused by its prefix; a body too short for the partition
/// lacks it, whatever its tag; another tag than a data verb's is refused by that tag; and any other
/// frame is read whole.
pub proof fn law_data_stream_is_decided_by_its_bytes(protocol: &WireProtocol, input: Seq<u8>)
    ensures
        input.len() < 4 ==> parse_packet(protocol, input) == Ok::<
            Option<(PacketView, int)>,
            DataPlaneWireError,
        >(None),
        input.len() >= 4 ==> {
            let n = spec_u32_from_le_bytes(input.subrange(0, 4));
            let too_large = n > MAX_DATAPLANE_FRAME_BYTES + 1 || n > protocol.max_frame_len;
            let r = parse_packet(protocol, input);
            let data = input[4] == protocol.fetch_records || input[4] == protocol.fetch_response
                || input[4] == protocol.ack_replicated || input[4]
                == protocol.offset_for_leader_epoch || input[4] == 43;
            let whole = 0 < n && !too_large && input.len() >= 4 + n;
            &&& n == 0 ==> r == Err::<Option<(PacketView, int)>, DataPlaneWireError>(
                DataPlaneWireError::Frame(FrameError::EmptyFrame),
            )
            &&& 0 < n && too_large ==> r == Err::<Option<(PacketView, int)>, DataPlaneWireError>(
                DataPlaneWireError::Oversized { len: n as u64 },
            )
            &&& 0 < n && !too_large && input.len() < 4 + n ==> r == Ok::<
                Option<(PacketView, int)>,
                DataPlaneWireError,
            >(None)
            &&& whole && n < 9 ==> r == Err::<Option<(PacketView, int)>, DataPlaneWireError>(
                DataPlaneWireError::MissingPartitionPrefix,
            )
            &&& whole && n >= 9 && !data ==> r == Err::<
                Option<(PacketView, int)>,
                DataPlaneWireError,
            >(DataPlaneWireError::Decode(LayerError::UnexpectedType { tag: input[4] }))
            &&& whole && n >= 9 && data ==> r == Ok::<
                Option<(PacketView, int)>,
                DataPlaneWireError,
            >(
                Some(
                    (
                        PacketView {
                            partition: spec_u64_from_le_bytes(input.subrange(5, 13)),
                            type_tag: input[4],
                            body: input.subrange(13, 4 + n),
                        },
                        4int + n,
                    ),
                ),
            )
        },
{
    if input.len() >= 4 {
        let n = spec_u32_from_le_bytes(input.subrange(0, 4));
        law_data_tags_are_the_protocols(protocol, input[4]);
        if n >= 9 && input.len() >= 4 + n {
            let body = input.subrange(5, 4 + n);
            assert(body.subrange(0, 8) =~= input.subrange(5, 13));
            assert(body.skip(8) =~= input.subrange(13, 4 + n));
        }
    }
}

/// What an outbound frame is: accepted within the bounds, and read back with its partition, its
/// verb's tag and its body.
pub proof fn law_outbound_frame_keeps_its_parts(protocol: &WireProtocol, f: Outbound)
    ensures
        f.accepted(protocol) <==> 8 + f.body.len() <= MAX_DATAPLANE_FRAME_BYTES && 9 + f.body.len()
            <= protocol.max_frame_len,
        f.packet(protocol).partition == f.partition,
        f.packet(protocol).body == f.body,
        f.accepted(protocol) ==> f.bytes(protocol).len() == 13 + f.body.len() && f.packet(
            protocol,
        ).type_tag == f.bytes(protocol)[4],
{
    if f.accepted(protocol) {
        law_data_frame_layout(protocol, f.partition, f.verb, f.body);
    }
}


/// A high-watermark is confirmed by a response for that very partition, with what the response
/// says, and by nothing else.
pub proof fn law_only_its_own_leader_confirms(partition: u64, reply: HwReply, r: Option<u64>)
    requires
        call_ensures(confirmed_hw, (partition, reply), r),
    ensures
        forall|hw: u64|
            r == Some(hw) <==> reply == (HwReply::CommittedHw { partition, committed_hw: hw }),
        r is None <==> !(reply matches HwReply::CommittedHw { partition: p, .. } && p == partition),
{
}


/// The cap in numbers: a partition id and a layer body of twelve mebibytes together are framed
/// where the absolute bound allows it, and none that are a byte longer.
pub proof fn law_data_cap_in_numbers(protocol: &WireProtocol, n: nat)
    requires
        9 + n <= protocol.max_frame_len,
    ensures
        framing_refusal(protocol, n) is None <==> 8 + n <= 12_582_912,
{
}

}
