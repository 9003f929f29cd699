//! The explicit, length-prefixed, little-endian byte form that metadata commands and snapshots
//! share: what each field looks like on the wire, and a bounds-checked reader for it.

use vstd::bytes::*;
use vstd::prelude::*;
use vstd::utf8::*;

use crate::cluster::error::DecodeError;

verus! {

/// A count as a `u32`, saturating at `u32::MAX`.
pub open spec fn saturated(n: nat) -> u32 {
    if n <= u32::MAX {
        n as u32
    } else {
        u32::MAX
    }
}

/// The four-byte little-endian length prefix of a field with `n` items.
pub open spec fn len_prefix(n: nat) -> Seq<u8> {
    spec_u32_to_le_bytes(saturated(n))
}

/// A string on the wire: its byte length, then its UTF-8 bytes.
pub open spec fn text_bytes(s: Seq<char>) -> Seq<u8> {
    len_prefix(encode_utf8(s).len()) + encode_utf8(s)
}

/// A text whose length prefix is exact.
pub open spec fn fits(s: Seq<char>) -> bool {
    encode_utf8(s).len() <= u32::MAX
}

/// The items of `s` written one after the other.
pub open spec fn written<T>(s: Seq<T>, form: spec_fn(T) -> Seq<u8>) -> Seq<u8>
    decreases s.len(),
{
    if s.len() == 0 {
        Seq::empty()
    } else {
        written(s.drop_last(), form) + form(s.last())
    }
}

/// The eight-byte form of one id.
pub open spec fn id_form() -> spec_fn(u64) -> Seq<u8> {
    |x: u64| spec_u64_to_le_bytes(x)
}

/// The ids of `s`, eight little-endian bytes each.
pub open spec fn ids_bytes(s: Seq<u64>) -> Seq<u8> {
    written(s, id_form())
}

/// `part` stands in `buf` at `pos`.
pub open spec fn stands_at(buf: Seq<u8>, pos: int, part: Seq<u8>) -> bool {
    &&& 0 <= pos
    &&& pos + part.len() <= buf.len()
    &&& buf.subrange(pos, pos + part.len()) == part
}

/// What reading one field yields: its value and the position after it.
pub type Reading<T> = Result<(T, int), DecodeError>;

pub open spec fn read_u8(buf: Seq<u8>, pos: int) -> Reading<u8> {
    if buf.len() - pos < 1 {
        Err(DecodeError::Truncated)
    } else {
        Ok((buf[pos], pos + 1))
    }
}

pub open spec fn read_u32(buf: Seq<u8>, pos: int) -> Reading<u32> {
    if buf.len() - pos < 4 {
        Err(DecodeError::Truncated)
    } else {
        Ok((spec_u32_from_le_bytes(buf.subrange(pos, pos + 4)), pos + 4))
    }
}

pub open spec fn read_u64(buf: Seq<u8>, pos: int) -> Reading<u64> {
    if buf.len() - pos < 8 {
        Err(DecodeError::Truncated)
    } else {
        Ok((spec_u64_from_le_bytes(buf.subrange(pos, pos + 8)), pos + 8))
    }
}

/// A string: a length that overruns the buffer is refused before the bytes are looked at.
pub open spec fn read_text(buf: Seq<u8>, pos: int) -> Reading<Seq<char>> {
    match read_u32(buf, pos) {
        Err(e) => Err(e),
        Ok((len, at)) => {
            if buf.len() - at < len {
                Err(DecodeError::BadLength)
            } else if !valid_utf8(buf.subrange(at, at + len)) {
                Err(DecodeError::BadUtf8)
            } else {
                Ok((decode_utf8(buf.subrange(at, at + len)), at + len))
            }
        },
    }
}

/// `n` ids, appended to `acc`.
pub open spec fn read_ids(buf: Seq<u8>, pos: int, n: nat, acc: Seq<u64>) -> Reading<Seq<u64>>
    decreases n,
{
    if n == 0 {
        Ok((acc, pos))
    } else {
        match read_u64(buf, pos) {
            Err(e) => Err(e),
            Ok((x, at)) => read_ids(buf, at, (n - 1) as nat, acc.push(x)),
        }
    }
}

/// A counted run of ids: a count whose bytes cannot all be present is refused at once.
pub open spec fn read_counted_ids(buf: Seq<u8>, pos: int) -> Reading<Seq<u64>> {
    match read_u32(buf, pos) {
        Err(e) => Err(e),
        Ok((n, at)) => {
            if buf.len() - at < 8 * n {
                Err(DecodeError::BadLength)
            } else {
                read_ids(buf, at, n as nat, Seq::empty())
            }
        },
    }
}

// ---- facts about the parts of a buffer ----

/// Two adjacent parts stand where their concatenation stands.
pub proof fn lemma_stands_split(buf: Seq<u8>, pos: int, a: Seq<u8>, b: Seq<u8>)
    ensures
        stands_at(buf, pos, a + b) <==> stands_at(buf, pos, a) && stands_at(
            buf,
            pos + a.len(),
            b,
        ),
{
    let ab = a + b;
    if stands_at(buf, pos, ab) {
        assert(buf.subrange(pos, pos + a.len()) =~= ab.subrange(0, a.len() as int));
        assert(ab.subrange(0, a.len() as int) =~= a);
        assert(buf.subrange(pos + a.len(), pos + ab.len()) =~= ab.subrange(
            a.len() as int,
            ab.len() as int,
        ));
        assert(ab.subrange(a.len() as int, ab.len() as int) =~= b);
        assert(pos + a.len() + b.len() == pos + ab.len());
    }
    if stands_at(buf, pos, a) && stands_at(buf, pos + a.len(), b) {
        assert(buf.subrange(pos, pos + ab.len()) =~= buf.subrange(pos, pos + a.len())
            + buf.subrange(pos + a.len(), pos + a.len() + b.len()));
    }
}

/// A buffer stands in itself, and only there with its whole length.
pub proof fn lemma_stands_whole(buf: Seq<u8>, part: Seq<u8>)
    ensures
        stands_at(buf, 0, part) && part.len() == buf.len() <==> part == buf,
{
    assert(buf.subrange(0, buf.len() as int) =~= buf);
}

pub proof fn lemma_read_u32(buf: Seq<u8>, pos: int, x: u32)
    requires
        0 <= pos,
    ensures
        read_u32(buf, pos) == Ok::<(u32, int), DecodeError>((x, pos + 4)) <==> stands_at(
            buf,
            pos,
            spec_u32_to_le_bytes(x),
        ),
{
    lemma_auto_spec_u32_to_from_le_bytes();
    if buf.len() - pos >= 4 {
        let s = buf.subrange(pos, pos + 4);
        assert(spec_u32_to_le_bytes(spec_u32_from_le_bytes(s)) == s);
    }
    assert(spec_u32_to_le_bytes(x).len() == 4);
}

pub proof fn lemma_read_u64(buf: Seq<u8>, pos: int, x: u64)
    requires
        0 <= pos,
    ensures
        read_u64(buf, pos) == Ok::<(u64, int), DecodeError>((x, pos + 8)) <==> stands_at(
            buf,
            pos,
            spec_u64_to_le_bytes(x),
        ),
{
    lemma_auto_spec_u64_to_from_le_bytes();
    if buf.len() - pos >= 8 {
        let s = buf.subrange(pos, pos + 8);
        assert(spec_u64_to_le_bytes(spec_u64_from_le_bytes(s)) == s);
    }
    assert(spec_u64_to_le_bytes(x).len() == 8);
}

pub proof fn lemma_read_u8(buf: Seq<u8>, pos: int, x: u8)
    requires
        0 <= pos,
    ensures
        read_u8(buf, pos) == Ok::<(u8, int), DecodeError>((x, pos + 1)) <==> stands_at(
            buf,
            pos,
            seq![x],
        ),
{
    if buf.len() - pos >= 1 {
        assert(buf.subrange(pos, pos + 1) =~= seq![buf[pos]]);
        if stands_at(buf, pos, seq![x]) {
            assert(buf.subrange(pos, pos + 1)[0] == x);
        }
    }
}

pub proof fn lemma_id_widths()
    ensures
        forall|x: u64| #[trigger] spec_u64_to_le_bytes(x).len() == 8,
        forall|x: u32| #[trigger] spec_u32_to_le_bytes(x).len() == 4,
{
    lemma_auto_spec_u64_to_from_le_bytes();
    lemma_auto_spec_u32_to_from_le_bytes();
}

/// A text is read back exactly where it was written with an exact length.
pub proof fn lemma_read_text(buf: Seq<u8>, pos: int, s: Seq<char>)
    requires
        0 <= pos,
    ensures
        fits(s) && stands_at(buf, pos, text_bytes(s)) ==> read_text(buf, pos) == Ok::<
            (Seq<char>, int),
            DecodeError,
        >((s, pos + text_bytes(s).len())),
        read_text(buf, pos) matches Ok((t, at)) ==> (t == s ==> fits(s) && at == pos + text_bytes(
            s,
        ).len() && stands_at(buf, pos, text_bytes(s))),
{
    broadcast use {encode_utf8_decode_utf8, decode_utf8_encode_utf8, encode_utf8_valid_utf8};

    lemma_id_widths();
    let body = encode_utf8(s);
    let n = saturated(body.len());
    lemma_stands_split(buf, pos, len_prefix(body.len()), body);
    lemma_read_u32(buf, pos, n);
    if fits(s) && stands_at(buf, pos, text_bytes(s)) {
        assert(buf.subrange(pos + 4, pos + 4 + n) == body);
    }
    if read_text(buf, pos) is Ok && read_text(buf, pos)->Ok_0.0 == s {
        let len = read_u32(buf, pos)->Ok_0.0;
        let raw = buf.subrange(pos + 4, pos + 4 + len);
        assert(encode_utf8(decode_utf8(raw)) == raw);
        assert(body == raw);
        lemma_read_u32(buf, pos, len);
    }
}

/// Writing a longer run adds the form of its last item.
pub proof fn lemma_written_push<T>(s: Seq<T>, x: T, form: spec_fn(T) -> Seq<u8>)
    ensures
        written(s.push(x), form) == written(s, form) + form(x),
{
    assert(s.push(x).drop_last() =~= s);
}

/// A run is its first item followed by the rest.
pub proof fn lemma_written_first<T>(s: Seq<T>, form: spec_fn(T) -> Seq<u8>)
    requires
        s.len() > 0,
    ensures
        written(s, form) == form(s[0]) + written(s.drop_first(), form),
    decreases s.len(),
{
    if s.len() == 1 {
        assert(s.drop_last() =~= Seq::empty());
        assert(s.drop_first() =~= Seq::empty());
        assert(written(s.drop_last(), form) =~= Seq::empty());
        assert(written(s, form) =~= form(s[0]));
        assert(form(s[0]) + written(s.drop_first(), form) =~= form(s[0]));
    } else {
        let init = s.drop_last();
        lemma_written_first(init, form);
        assert(init.drop_first() =~= s.drop_first().drop_last());
        assert(s.drop_first().last() == s.last());
        assert(written(s, form) =~= form(s[0]) + (written(s.drop_first().drop_last(), form) + form(
            s.last(),
        )));
    }
}

pub proof fn lemma_ids_len(s: Seq<u64>)
    ensures
        ids_bytes(s).len() == 8 * s.len(),
    decreases s.len(),
{
    lemma_id_widths();
    if s.len() > 0 {
        lemma_ids_len(s.drop_last());
    }
}

/// A run of ids is read back exactly where it was written.
pub proof fn lemma_read_ids(buf: Seq<u8>, pos: int, s: Seq<u64>, acc: Seq<u64>)
    requires
        0 <= pos,
        stands_at(buf, pos, ids_bytes(s)),
    ensures
        read_ids(buf, pos, s.len(), acc) == Ok::<(Seq<u64>, int), DecodeError>(
            (acc + s, pos + 8 * s.len()),
        ),
    decreases s.len(),
{
    lemma_id_widths();
    if s.len() == 0 {
        assert(acc + s =~= acc);
    } else {
        lemma_written_first(s, id_form());
        let head = spec_u64_to_le_bytes(s[0]);
        lemma_stands_split(buf, pos, head, ids_bytes(s.drop_first()));
        lemma_read_u64(buf, pos, s[0]);
        lemma_read_ids(buf, pos + 8, s.drop_first(), acc.push(s[0]));
        assert(acc.push(s[0]) + s.drop_first() =~= acc + s);
    }
}

/// What a run of ids was read from is its written form.
pub proof fn lemma_read_ids_back(buf: Seq<u8>, pos: int, n: nat, acc: Seq<u64>)
    requires
        0 <= pos,
        read_ids(buf, pos, n, acc) is Ok,
        pos <= buf.len(),
    ensures
        ({
            let (all, at) = read_ids(buf, pos, n, acc)->Ok_0;
            let s = all.subrange(acc.len() as int, all.len() as int);
            &&& all.len() == acc.len() + n
            &&& all =~= acc + s
            &&& at == pos + 8 * n
            &&& stands_at(buf, pos, ids_bytes(s))
        }),
    decreases n,
{
    lemma_id_widths();
    let (all, at) = read_ids(buf, pos, n, acc)->Ok_0;
    if n == 0 {
        let s = all.subrange(acc.len() as int, all.len() as int);
        assert(s =~= Seq::empty());
        assert(buf.subrange(pos, pos) =~= Seq::empty());
    } else {
        let x = read_u64(buf, pos)->Ok_0.0;
        lemma_read_ids_back(buf, pos + 8, (n - 1) as nat, acc.push(x));
        let t = all.subrange(acc.len() as int + 1, all.len() as int);
        let s = all.subrange(acc.len() as int, all.len() as int);
        assert(all[acc.len() as int] == x) by {
            assert(all =~= acc.push(x) + t);
        }
        assert(s[0] == x);
        assert(s.drop_first() =~= t);
        lemma_read_u64(buf, pos, x);
        lemma_written_first(s, id_form());
        lemma_stands_split(buf, pos, spec_u64_to_le_bytes(x), ids_bytes(t));
        assert(all =~= acc + s);
    }
}

// ---- a longer buffer ----

/// What was read off a buffer is read just so off a longer one that starts with it, and reading
/// moves forward within what there is.
pub proof fn lemma_longer_fields(buf: Seq<u8>, extra: Seq<u8>, pos: int)
    requires
        0 <= pos,
    ensures
        read_u8(buf, pos) matches Ok((_, at)) ==> pos <= at <= buf.len() && read_u8(buf + extra, pos)
            == read_u8(buf, pos),
        read_u32(buf, pos) matches Ok((_, at)) ==> pos <= at <= buf.len() && read_u32(
            buf + extra,
            pos,
        ) == read_u32(buf, pos),
        read_u64(buf, pos) matches Ok((_, at)) ==> pos <= at <= buf.len() && read_u64(
            buf + extra,
            pos,
        ) == read_u64(buf, pos),
{
    if buf.len() - pos >= 4 {
        assert((buf + extra).subrange(pos, pos + 4) =~= buf.subrange(pos, pos + 4));
    }
    if buf.len() - pos >= 8 {
        assert((buf + extra).subrange(pos, pos + 8) =~= buf.subrange(pos, pos + 8));
    }
}

/// See [`lemma_longer_fields`].
pub proof fn lemma_longer_text(buf: Seq<u8>, extra: Seq<u8>, pos: int)
    requires
        0 <= pos,
    ensures
        read_text(buf, pos) matches Ok((_, at)) ==> pos <= at <= buf.len() && read_text(
            buf + extra,
            pos,
        ) == read_text(buf, pos),
{
    lemma_longer_fields(buf, extra, pos);
    if read_text(buf, pos) is Ok {
        let (len, at) = read_u32(buf, pos)->Ok_0;
        assert((buf + extra).subrange(at, at + len) =~= buf.subrange(at, at + len));
    }
}

/// See [`lemma_longer_fields`].
pub proof fn lemma_longer_ids(buf: Seq<u8>, extra: Seq<u8>, pos: int, n: nat, acc: Seq<u64>)
    requires
        0 <= pos,
    ensures
        read_ids(buf, pos, n, acc) matches Ok((_, at)) ==> pos <= at && (pos <= buf.len() ==> at
            <= buf.len()) && read_ids(buf + extra, pos, n, acc) == read_ids(buf, pos, n, acc),
    decreases n,
{
    if n > 0 {
        lemma_longer_fields(buf, extra, pos);
        if read_u64(buf, pos) is Ok {
            let (x, at) = read_u64(buf, pos)->Ok_0;
            lemma_longer_ids(buf, extra, at, (n - 1) as nat, acc.push(x));
        }
    }
}

/// See [`lemma_longer_fields`].
pub proof fn lemma_longer_counted_ids(buf: Seq<u8>, extra: Seq<u8>, pos: int)
    requires
        0 <= pos,
    ensures
        read_counted_ids(buf, pos) matches Ok((_, at)) ==> pos <= at <= buf.len()
            && read_counted_ids(buf + extra, pos) == read_counted_ids(buf, pos),
{
    lemma_longer_fields(buf, extra, pos);
    if read_u32(buf, pos) is Ok {
        let (n, at) = read_u32(buf, pos)->Ok_0;
        lemma_longer_ids(buf, extra, at, n as nat, Seq::empty());
    }
}

// ---- laws of the byte form ----

/// A count has four bytes, and they say the count, or the largest that four bytes can say.
pub proof fn law_counts_saturate(n: nat)
    ensures
        len_prefix(n).len() == 4,
        n <= u32::MAX ==> spec_u32_from_le_bytes(len_prefix(n)) == n,
        n > u32::MAX ==> spec_u32_from_le_bytes(len_prefix(n)) == u32::MAX,
{
    lemma_auto_spec_u32_to_from_le_bytes();
    assert(spec_u32_to_le_bytes(saturated(n)).len() == 4);
}

/// A text is its byte count, in little-endian order, followed by its UTF-8 bytes.
pub proof fn law_text_layout(s: Seq<char>)
    requires
        encode_utf8(s).len() <= u32::MAX,
    ensures
        text_bytes(s).len() == 4 + encode_utf8(s).len(),
        text_bytes(s).subrange(0, 4) == spec_u32_to_le_bytes(encode_utf8(s).len() as u32),
        text_bytes(s).subrange(4, text_bytes(s).len() as int) == encode_utf8(s),
        fits(s),
{
    lemma_id_widths();
    assert(text_bytes(s).subrange(0, 4) =~= spec_u32_to_le_bytes(encode_utf8(s).len() as u32));
    assert(text_bytes(s).subrange(4, text_bytes(s).len() as int) =~= encode_utf8(s));
}

/// The ids of a run stand one after the other in eight little-endian bytes each.
pub proof fn law_ids_layout(s: Seq<u64>, i: int)
    requires
        0 <= i < s.len(),
    ensures
        ids_bytes(s).len() == 8 * s.len(),
        ids_bytes(s).subrange(8 * i, 8 * i + 8) == spec_u64_to_le_bytes(s[i]),
    decreases s.len(),
{
    lemma_id_widths();
    lemma_ids_len(s);
    let init = s.drop_last();
    lemma_ids_len(init);
    if i < init.len() {
        law_ids_layout(init, i);
        assert(ids_bytes(s).subrange(8 * i, 8 * i + 8) =~= ids_bytes(init).subrange(
            8 * i,
            8 * i + 8,
        ));
    } else {
        assert(ids_bytes(s).subrange(8 * i, 8 * i + 8) =~= spec_u64_to_le_bytes(s[i]));
    }
}

/// A field that is cut short is refused, and how: a number as truncated, a text or a run of ids
/// whose count overruns the buffer as a bad length, before anything of it is looked at, and a text
/// that is no UTF-8 as such.
pub proof fn law_cut_fields_are_refused(buf: Seq<u8>, pos: int)
    requires
        0 <= pos <= buf.len(),
    ensures
        read_u8(buf, pos) == Err::<(u8, int), DecodeError>(DecodeError::Truncated) <==> buf.len()
            - pos < 1,
        read_u32(buf, pos) == Err::<(u32, int), DecodeError>(DecodeError::Truncated) <==> buf.len()
            - pos < 4,
        read_u64(buf, pos) == Err::<(u64, int), DecodeError>(DecodeError::Truncated) <==> buf.len()
            - pos < 8,
        buf.len() - pos < 4 ==> read_text(buf, pos) == Err::<(Seq<char>, int), DecodeError>(
            DecodeError::Truncated,
        ) && read_counted_ids(buf, pos) == Err::<(Seq<u64>, int), DecodeError>(
            DecodeError::Truncated,
        ),
        buf.len() - pos >= 4 ==> {
            let n = spec_u32_from_le_bytes(buf.subrange(pos, pos + 4));
            &&& buf.len() - pos - 4 < n <==> read_text(buf, pos) == Err::<
                (Seq<char>, int),
                DecodeError,
            >(DecodeError::BadLength)
            &&& buf.len() - pos - 4 < 8 * n <==> read_counted_ids(buf, pos) == Err::<
                (Seq<u64>, int),
                DecodeError,
            >(DecodeError::BadLength)
            &&& buf.len() - pos - 4 >= n && !valid_utf8(buf.subrange(pos + 4, pos + 4 + n))
                <==> read_text(buf, pos) == Err::<(Seq<char>, int), DecodeError>(
                DecodeError::BadUtf8,
            )
            &&& buf.len() - pos - 4 >= 8 * n ==> read_counted_ids(buf, pos) is Ok
        },
{
    if buf.len() - pos >= 4 {
        let n = spec_u32_from_le_bytes(buf.subrange(pos, pos + 4));
        if buf.len() - pos - 4 >= 8 * n {
            lemma_ids_are_there(buf, pos + 4, n as nat, Seq::empty());
        }
    }
}

proof fn lemma_ids_are_there(buf: Seq<u8>, pos: int, n: nat, acc: Seq<u64>)
    requires
        0 <= pos,
        buf.len() - pos >= 8 * n,
    ensures
        read_ids(buf, pos, n, acc) is Ok,
    decreases n,
{
    if n > 0 {
        let x = read_u64(buf, pos)->Ok_0.0;
        lemma_ids_are_there(buf, pos + 8, (n - 1) as nat, acc.push(x));
    }
}

/// Reading gives back what writing wrote, at any place of any buffer: a number, a text and a run of
/// ids.
pub proof fn law_written_fields_are_read_back(
    head: Seq<u8>,
    tail: Seq<u8>,
    number: u64,
    text: Seq<char>,
    ids: Seq<u64>,
)
    requires
        encode_utf8(text).len() <= u32::MAX,
        ids.len() <= u32::MAX,
    ensures
        read_u64(head + spec_u64_to_le_bytes(number) + tail, head.len() as int) == Ok::<
            (u64, int),
            DecodeError,
        >((number, head.len() + 8int)),
        read_text(head + text_bytes(text) + tail, head.len() as int) == Ok::<
            (Seq<char>, int),
            DecodeError,
        >((text, head.len() + 4int + encode_utf8(text).len())),
        read_counted_ids(
            head + (spec_u32_to_le_bytes(ids.len() as u32) + ids_bytes(ids)) + tail,
            head.len() as int,
        ) == Ok::<(Seq<u64>, int), DecodeError>((ids, head.len() + 4int + 8 * ids.len())),
{
    lemma_id_widths();
    let at = head.len() as int;
    let n = spec_u64_to_le_bytes(number);
    let b1 = head + n + tail;
    assert(b1.subrange(at, at + 8) =~= n);
    lemma_read_u64(b1, at, number);
    let t = text_bytes(text);
    let b2 = head + t + tail;
    assert(b2.subrange(at, at + t.len()) =~= t);
    lemma_read_text(b2, at, text);
    let c = spec_u32_to_le_bytes(ids.len() as u32);
    let i = c + ids_bytes(ids);
    let b3 = head + i + tail;
    lemma_ids_len(ids);
    assert(b3.subrange(at, at + i.len()) =~= i);
    lemma_stands_split(b3, at, c, ids_bytes(ids));
    lemma_read_u32(b3, at, ids.len() as u32);
    lemma_read_ids(b3, at + 4, ids, Seq::empty());
    assert(Seq::<u64>::empty() + ids =~= ids);
}

// ---- writing and reading ----


/// The error of [`core::str::from_utf8`]; only its presence matters here.
#[verifier::external_type_specification]
#[verifier::external_body]
pub struct ExUtf8Error(core::str::Utf8Error);

/// [`core::str::from_utf8`]: succeeds exactly on valid UTF-8, and the text is the bytes decoded.
pub assume_specification[ core::str::from_utf8 ](v: &[u8]) -> (r: Result<
    &str,
    core::str::Utf8Error,
>)
    ensures
        r is Ok <==> valid_utf8(v@),
        r matches Ok(s) ==> s@ == decode_utf8(v@),
;

/// Append `bytes` to `out`.
pub fn put_bytes(out: &mut Vec<u8>, bytes: &[u8])
    ensures
        final(out)@ == old(out)@ + bytes@,
{
    out.extend_from_slice(bytes);
    assert(out@ =~= old(out)@ + bytes@);
}

/// Append `x` as eight little-endian bytes.
pub fn put_u64(out: &mut Vec<u8>, x: u64)
    ensures
        final(out)@ == old(out)@ + spec_u64_to_le_bytes(x),
{
    let b = u64_to_le_bytes(x);
    put_bytes(out, b.as_slice());
}

/// Append a count as a `u32` length prefix, saturating at `u32::MAX` so that writing is total.
pub fn push_u32_len(out: &mut Vec<u8>, n: usize)
    ensures
        final(out)@ == old(out)@ + len_prefix(n as nat),
{
    let len: u32 = if n <= u32::MAX as usize {
        n as u32
    } else {
        u32::MAX
    };
    let b = u32_to_le_bytes(len);
    put_bytes(out, b.as_slice());
}

/// Append a string: its byte length, then its UTF-8 bytes.
pub fn push_str(out: &mut Vec<u8>, s: &str)
    ensures
        final(out)@ == old(out)@ + text_bytes(s@),
{
    let bytes = s.as_bytes();
    push_u32_len(out, bytes.len());
    put_bytes(out, bytes);
    assert(out@ =~= old(out)@ + text_bytes(s@));
}

/// Append each id of `ids` as eight little-endian bytes.
pub fn put_ids(out: &mut Vec<u8>, ids: &Vec<u64>)
    ensures
        final(out)@ == old(out)@ + ids_bytes(ids@),
{
    let mut i: usize = 0;
    assert(out@ =~= old(out)@ + ids_bytes(ids@.take(0)));
    while i < ids.len()
        invariant
            i <= ids.len(),
            out@ == old(out)@ + ids_bytes(ids@.take(i as int)),
        decreases ids.len() - i,
    {
        put_u64(out, ids[i]);
        proof {
            lemma_written_push(ids@.take(i as int), ids@[i as int], id_form());
            assert(ids@.take(i as int).push(ids@[i as int]) =~= ids@.take(i + 1));
            assert(out@ =~= old(out)@ + ids_bytes(ids@.take(i + 1)));
        }
        i = i + 1;
    }
    assert(ids@.take(ids@.len() as int) =~= ids@);
}

/// A bounds-checked little-endian reader.
pub struct Cursor<'a> {
    pub buf: &'a [u8],
    pub pos: usize,
}

impl<'a> Cursor<'a> {
    /// The position stands inside the buffer or at its end.
    pub open spec fn wf(&self) -> bool {
        self.pos <= self.buf@.len()
    }

    /// `r` is what `reading` says of a read from `before`, and `self` stands after it.
    pub open spec fn follows<T>(
        &self,
        before: &Cursor<'a>,
        r: Result<T, DecodeError>,
        reading: Reading<T>,
    ) -> bool {
        &&& self.wf()
        &&& self.buf == before.buf
        &&& match r {
            Ok(v) => reading == Ok::<(T, int), DecodeError>((v, self.pos as int)),
            Err(e) => reading == Err::<(T, int), DecodeError>(e),
        }
    }

    pub fn new(buf: &'a [u8]) -> (c: Cursor<'a>)
        ensures
            c.wf(),
            c.buf == buf,
            c.pos == 0,
    {
        Cursor { buf, pos: 0 }
    }

    /// How many bytes are left.
    pub fn remaining(&self) -> (n: usize)
        requires
            self.wf(),
        ensures
            n == self.buf@.len() - self.pos,
    {
        self.buf.len() - self.pos
    }

    /// Take the next `n` bytes.
    pub fn take(&mut self, n: usize) -> (r: Result<&'a [u8], DecodeError>)
        requires
            old(self).wf(),
        ensures
            final(self).wf(),
            final(self).buf == old(self).buf,
            r is Err <==> old(self).buf@.len() - old(self).pos < n,
            match r {
                Ok(s) => {
                    &&& final(self).pos == old(self).pos + n
                    &&& s@ == old(self).buf@.subrange(old(self).pos as int, old(self).pos + n)
                },
                Err(e) => e == DecodeError::Truncated && final(self).pos == old(self).pos,
            },
    {
        let total: usize = self.buf.len();
        if total - self.pos < n {
            return Err(DecodeError::Truncated);
        }
        let s = vstd::slice::slice_subrange(self.buf, self.pos, self.pos + n);
        self.pos = self.pos + n;
        Ok(s)
    }

    pub fn u8(&mut self) -> (r: Result<u8, DecodeError>)
        requires
            old(self).wf(),
        ensures
            final(self).follows(old(self), r, read_u8(old(self).buf@, old(self).pos as int)),
    {
        let s = self.take(1)?;
        Ok(s[0])
    }

    pub fn u64(&mut self) -> (r: Result<u64, DecodeError>)
        requires
            old(self).wf(),
        ensures
            final(self).follows(old(self), r, read_u64(old(self).buf@, old(self).pos as int)),
    {
        let s = self.take(8)?;
        Ok(u64_from_le_bytes(s))
    }

    pub fn u32(&mut self) -> (r: Result<u32, DecodeError>)
        requires
            old(self).wf(),
        ensures
            final(self).follows(old(self), r, read_u32(old(self).buf@, old(self).pos as int)),
    {
        let s = self.take(4)?;
        Ok(u32_from_le_bytes(s))
    }

    pub fn string(&mut self) -> (r: Result<String, DecodeError>)
        requires
            old(self).wf(),
        ensures
            final(self).wf(),
            final(self).buf == old(self).buf,
            match r {
                Ok(s) => read_text(old(self).buf@, old(self).pos as int) == Ok::<
                    (Seq<char>, int),
                    DecodeError,
                >((s@, final(self).pos as int)),
                Err(e) => read_text(old(self).buf@, old(self).pos as int) == Err::<
                    (Seq<char>, int),
                    DecodeError,
                >(e),
            },
    {
        let len = self.u32()? as usize;
        if self.remaining() < len {
            return Err(DecodeError::BadLength);
        }
        let bytes = self.take(len)?;
        match core::str::from_utf8(bytes) {
            Ok(s) => Ok(s.to_owned()),
            Err(_) => Err(DecodeError::BadUtf8),
        }
    }

    /// A counted run of ids.
    pub fn counted_ids(&mut self) -> (r: Result<Vec<u64>, DecodeError>)
        requires
            old(self).wf(),
        ensures
            final(self).wf(),
            final(self).buf == old(self).buf,
            match r {
                Ok(v) => read_counted_ids(old(self).buf@, old(self).pos as int) == Ok::<
                    (Seq<u64>, int),
                    DecodeError,
                >((v@, final(self).pos as int)),
                Err(e) => read_counted_ids(old(self).buf@, old(self).pos as int) == Err::<
                    (Seq<u64>, int),
                    DecodeError,
                >(e),
            },
    {
        let count = self.u32()? as usize;
        // Each id is eight bytes: refuse a count whose bytes cannot all be present before
        // anything is allocated for it.
        if self.remaining() / 8 < count {
            return Err(DecodeError::BadLength);
        }
        let ghost start = self.pos as int;
        let mut ids: Vec<u64> = Vec::with_capacity(count);
        let mut i: usize = 0;
        while i < count
            invariant
                i <= count,
                self.wf(),
                self.buf == old(self).buf,
                read_ids(self.buf@, start, count as nat, Seq::empty()) == read_ids(
                    self.buf@,
                    self.pos as int,
                    (count - i) as nat,
                    ids@,
                ),
                read_counted_ids(old(self).buf@, old(self).pos as int) == read_ids(
                    self.buf@,
                    start,
                    count as nat,
                    Seq::empty(),
                ),
            decreases count - i,
        {
            let x = self.u64()?;
            ids.push(x);
            i = i + 1;
        }
        Ok(ids)
    }
}

}
