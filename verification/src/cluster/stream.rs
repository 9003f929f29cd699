//! What a link makes of a stream of frames that arrives in pieces.
//!
//! A link takes frames off its buffer until none is complete, then reads more. What it hands out
//! depends on the bytes alone and not on how the reads cut them: the frames that were written, in
//! their order, and then the end of the stream, which is a clean close only between two frames.

use vstd::prelude::*;

use crate::cluster::transport::{link_read, LinkRead};

verus! {

/// What a link finds at the head of its buffer.
pub enum Turn<T> {
    /// A complete item, and the bytes that it takes.
    Item { item: T, consumed: int },
    /// Nothing complete yet.
    More,
    /// Something that ends the link.
    Fault,
}

/// What a link hands out of the bytes in its buffer and of the reads that follow, up to the end of
/// the stream, which is an empty read or that there is none any more: the items, and how the stream ended, or `None` where a fault ended the link.
pub open spec fn received<T>(
    turn: spec_fn(Seq<u8>) -> Turn<T>,
    buf: Seq<u8>,
    reads: Seq<Seq<u8>>,
) -> (Seq<T>, Option<LinkRead>)
    decreases reads.len(), buf.len(),
{
    match turn(buf) {
        Turn::Item { item, consumed } => if 0 < consumed <= buf.len() {
            let (items, end) = received(turn, buf.skip(consumed), reads);
            (seq![item] + items, end)
        } else {
            (Seq::empty(), None)
        },
        Turn::Fault => (Seq::empty(), None),
        Turn::More => {
            let chunk = if reads.len() > 0 {
                reads[0]
            } else {
                Seq::empty()
            };
            let outcome = link_read(buf, chunk);
            if outcome == LinkRead::Filled && reads.len() > 0 {
                received(turn, buf + chunk, reads.drop_first())
            } else {
                (Seq::empty(), Some(outcome))
            }
        },
    }
}

/// What `n` turns on a buffer yield, with no read between them: the items and what is left of the
/// buffer, or `None` where fewer than `n` items are there.
pub open spec fn taken<T>(turn: spec_fn(Seq<u8>) -> Turn<T>, buf: Seq<u8>, n: nat) -> Option<
    (Seq<T>, Seq<u8>),
>
    decreases n,
{
    if n == 0 {
        Some((Seq::empty(), buf))
    } else {
        match turn(buf) {
            Turn::Item { item, consumed } => match taken(
                turn,
                buf.skip(consumed),
                (n - 1) as nat,
            ) {
                Some((items, rest)) => Some((seq![item] + items, rest)),
                None => None,
            },
            _ => None,
        }
    }
}

/// The bytes of `frames`, one after the other.
pub open spec fn joined<T>(frames: Seq<(T, Seq<u8>)>) -> Seq<u8>
    decreases frames.len(),
{
    if frames.len() == 0 {
        Seq::empty()
    } else {
        frames[0].1 + joined(frames.drop_first())
    }
}

/// The items of `frames`.
pub open spec fn items_of<T>(frames: Seq<(T, Seq<u8>)>) -> Seq<T> {
    frames.map_values(|f: (T, Seq<u8>)| f.0)
}

/// `bytes` is a frame of `item`: it is read whole from the head of any buffer that starts with it,
/// and nothing is read from a strict prefix of it.
pub open spec fn frames<T>(turn: spec_fn(Seq<u8>) -> Turn<T>, item: T, bytes: Seq<u8>) -> bool {
    &&& bytes.len() > 0
    &&& forall|rest: Seq<u8>|
        turn(#[trigger] bytes.add(rest)) == (Turn::Item { item, consumed: bytes.len() as int })
    &&& forall|k: int| 0 <= k < bytes.len() ==> turn(#[trigger] bytes.take(k)) == Turn::<T>::More
}

/// No prefix of `tail` holds anything complete, so that it is what is left of a stream that was
/// cut between two frames or inside one.
pub open spec fn unfinished<T>(turn: spec_fn(Seq<u8>) -> Turn<T>, tail: Seq<u8>) -> bool {
    forall|k: int| 0 <= k <= tail.len() ==> turn(#[trigger] tail.take(k)) == Turn::<T>::More
}

/// A buffer that holds `n` frames yields them in `n` turns, in order, and keeps the rest.
pub proof fn law_buffered_frames_come_out_in_order<T>(
    turn: spec_fn(Seq<u8>) -> Turn<T>,
    fs: Seq<(T, Seq<u8>)>,
    rest: Seq<u8>,
)
    requires
        forall|i: int| 0 <= i < fs.len() ==> frames(turn, (#[trigger] fs[i]).0, fs[i].1),
    ensures
        taken(turn, joined(fs) + rest, fs.len()) == Some((items_of(fs), rest)),
    decreases fs.len(),
{
    if fs.len() == 0 {
        assert(joined(fs) + rest =~= rest);
        assert(items_of(fs) =~= Seq::empty());
    } else {
        let (item, bytes) = fs[0];
        let tail = fs.drop_first();
        assert(frames(turn, fs[0].0, fs[0].1));
        assert forall|i: int| 0 <= i < tail.len() implies frames(
            turn,
            (#[trigger] tail[i]).0,
            tail[i].1,
        ) by {
            assert(tail[i] == fs[i + 1]);
        }
        law_buffered_frames_come_out_in_order(turn, tail, rest);
        let buf = joined(fs) + rest;
        assert(buf =~= bytes.add(joined(tail) + rest));
        assert(buf.skip(bytes.len() as int) =~= joined(tail) + rest);
        assert(seq![item] + items_of(tail) =~= items_of(fs));
    }
}

/// A link hands out exactly the frames that were written, in order, however the reads cut the
/// stream; and it tells a clean close from an end inside a frame.
pub proof fn law_stream_is_read_back<T>(
    turn: spec_fn(Seq<u8>) -> Turn<T>,
    fs: Seq<(T, Seq<u8>)>,
    tail: Seq<u8>,
    buf: Seq<u8>,
    reads: Seq<Seq<u8>>,
)
    requires
        forall|i: int| 0 <= i < fs.len() ==> frames(turn, (#[trigger] fs[i]).0, fs[i].1),
        unfinished(turn, tail),
        forall|i: int| 0 <= i < reads.len() ==> (#[trigger] reads[i]).len() > 0,
        buf + reads.flatten() == joined(fs) + tail,
    ensures
        received(turn, buf, reads) == (items_of(fs), Some(link_read(tail, Seq::empty()))),
    decreases reads.len(), buf.len(),
{
    let all = joined(fs) + tail;
    let n = buf.len() as int;
    assert(all.take(n) =~= buf);
    if reads.len() > 0 {
        let more = reads.drop_first();
        assert(reads.flatten() == reads[0].add(more.flatten()));
        assert((buf + reads[0]) + more.flatten() =~= buf + reads.flatten());
    } else {
        assert(buf + reads.flatten() =~= buf);
    }
    if fs.len() == 0 {
        assert(all =~= tail);
        assert(turn(tail.take(n)) == Turn::<T>::More);
        assert(items_of(fs) =~= Seq::empty());
        if reads.len() > 0 {
            law_stream_is_read_back(turn, fs, tail, buf + reads[0], reads.drop_first());
        }
    } else {
        let (item, bytes) = fs[0];
        let next = fs.drop_first();
        let len = bytes.len() as int;
        assert(frames(turn, fs[0].0, fs[0].1));
        assert(all =~= bytes.add(joined(next) + tail));
        if n >= len {
            let rest = buf.skip(len);
            assert(buf.take(len) =~= bytes) by {
                assert(all.take(len) =~= bytes);
            }
            assert(buf =~= bytes.add(rest));
            assert(rest + reads.flatten() =~= joined(next) + tail) by {
                assert((buf + reads.flatten()).skip(len) =~= rest + reads.flatten());
                assert(all.skip(len) =~= joined(next) + tail);
            }
            assert forall|i: int| 0 <= i < next.len() implies frames(
                turn,
                (#[trigger] next[i]).0,
                next[i].1,
            ) by {
                assert(next[i] == fs[i + 1]);
            }
            law_stream_is_read_back(turn, next, tail, rest, reads);
            assert(seq![item] + items_of(next) =~= items_of(fs));
        } else {
            assert(buf =~= bytes.take(n));
            law_stream_is_read_back(turn, fs, tail, buf + reads[0], reads.drop_first());
        }
    }
}

}
