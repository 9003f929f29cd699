//! Strictly ordered sequences: the order in which a map is written out.

use vstd::prelude::*;

verus! {

/// `lt` is a strict total order.
pub open spec fn strict_total<T>(lt: spec_fn(T, T) -> bool) -> bool {
    &&& forall|a: T| !#[trigger] lt(a, a)
    &&& forall|a: T, b: T, c: T| #[trigger] lt(a, b) && #[trigger] lt(b, c) ==> lt(a, c)
    &&& forall|a: T, b: T| a == b || #[trigger] lt(a, b) || lt(b, a)
}

/// `s` is strictly increasing under `lt`.
pub open spec fn increasing<T>(s: Seq<T>, lt: spec_fn(T, T) -> bool) -> bool {
    forall|i: int, j: int| 0 <= i < j < s.len() ==> lt(#[trigger] s[i], #[trigger] s[j])
}

/// `s` lists the elements of `set` in increasing order.
pub open spec fn lists<T>(s: Seq<T>, set: Set<T>, lt: spec_fn(T, T) -> bool) -> bool {
    &&& increasing(s, lt)
    &&& forall|x: T| #[trigger] s.contains(x) <==> set.contains(x)
}

/// The elements of `set` in increasing order.
pub open spec fn sorted<T>(set: Set<T>, lt: spec_fn(T, T) -> bool) -> Seq<T> {
    choose|s: Seq<T>| lists(s, set, lt)
}

/// The numeric order of ids.
pub open spec fn id_order() -> spec_fn(u64, u64) -> bool {
    |a: u64, b: u64| a < b
}

/// Byte strings in lexicographic order.
pub open spec fn bytes_before(a: Seq<u8>, b: Seq<u8>) -> bool
    decreases a.len(),
{
    if b.len() == 0 {
        false
    } else if a.len() == 0 {
        true
    } else if a[0] != b[0] {
        a[0] < b[0]
    } else {
        bytes_before(a.drop_first(), b.drop_first())
    }
}

/// Texts in the lexicographic order of their UTF-8 bytes.
pub open spec fn text_order() -> spec_fn(Seq<char>, Seq<char>) -> bool {
    |a: Seq<char>, b: Seq<char>|
        bytes_before(vstd::utf8::encode_utf8(a), vstd::utf8::encode_utf8(b))
}

pub proof fn lemma_id_order()
    ensures
        strict_total(id_order()),
{
}

proof fn lemma_bytes_irreflexive(a: Seq<u8>)
    ensures
        !bytes_before(a, a),
    decreases a.len(),
{
    if a.len() > 0 {
        lemma_bytes_irreflexive(a.drop_first());
    }
}

proof fn lemma_bytes_transitive(a: Seq<u8>, b: Seq<u8>, c: Seq<u8>)
    requires
        bytes_before(a, b),
        bytes_before(b, c),
    ensures
        bytes_before(a, c),
    decreases a.len(),
{
    if a.len() > 0 && a[0] == b[0] && b[0] == c[0] {
        lemma_bytes_transitive(a.drop_first(), b.drop_first(), c.drop_first());
    }
}

proof fn lemma_bytes_total(a: Seq<u8>, b: Seq<u8>)
    ensures
        a == b || bytes_before(a, b) || bytes_before(b, a),
    decreases a.len(),
{
    if a.len() > 0 && b.len() > 0 && a[0] == b[0] {
        lemma_bytes_total(a.drop_first(), b.drop_first());
        if a.drop_first() == b.drop_first() {
            assert(a =~= seq![a[0]] + a.drop_first());
            assert(b =~= seq![b[0]] + b.drop_first());
        }
    } else if a.len() == 0 && b.len() == 0 {
        assert(a =~= b);
    }
}

pub proof fn lemma_text_order()
    ensures
        strict_total(text_order()),
{
    broadcast use vstd::utf8::encode_utf8_decode_utf8;

    let lt = text_order();
    assert forall|a: Seq<char>| !#[trigger] lt(a, a) by {
        lemma_bytes_irreflexive(vstd::utf8::encode_utf8(a));
    }
    assert forall|a: Seq<char>, b: Seq<char>, c: Seq<char>| #[trigger]
        lt(a, b) && #[trigger] lt(b, c) implies lt(a, c) by {
        lemma_bytes_transitive(
            vstd::utf8::encode_utf8(a),
            vstd::utf8::encode_utf8(b),
            vstd::utf8::encode_utf8(c),
        );
    }
    assert forall|a: Seq<char>, b: Seq<char>| a == b || #[trigger] lt(a, b) || lt(b, a) by {
        lemma_bytes_total(vstd::utf8::encode_utf8(a), vstd::utf8::encode_utf8(b));
        assert(vstd::utf8::decode_utf8(vstd::utf8::encode_utf8(a)) == a);
        assert(vstd::utf8::decode_utf8(vstd::utf8::encode_utf8(b)) == b);
    }
}

/// A set has at most one increasing listing.
pub proof fn lemma_listing_unique<T>(
    a: Seq<T>,
    b: Seq<T>,
    set: Set<T>,
    lt: spec_fn(T, T) -> bool,
)
    requires
        strict_total(lt),
        lists(a, set, lt),
        lists(b, set, lt),
    ensures
        a == b,
    decreases a.len(),
{
    if a.len() == 0 {
        if b.len() > 0 {
            assert(b.contains(b[0]));
            assert(a.contains(b[0]));
        }
        assert(a =~= b);
    } else {
        assert(a.contains(a[0]));
        assert(b.contains(a[0]));
        let j = choose|j: int| 0 <= j < b.len() && b[j] == a[0];
        assert(b.contains(b[0]));
        assert(a.contains(b[0]));
        let i = choose|i: int| 0 <= i < a.len() && a[i] == b[0];
        assert(a[0] == b[0]) by {
            if j > 0 && i > 0 {
                assert(lt(b[0], b[j]));
                assert(lt(a[0], a[i]));
                assert(lt(a[0], a[0]));
            }
        }
        let rest = set.remove(a[0]);
        lemma_listing_tail(a, set, lt);
        lemma_listing_tail(b, set, lt);
        lemma_listing_unique(a.drop_first(), b.drop_first(), rest, lt);
        assert(a =~= seq![a[0]] + a.drop_first());
        assert(b =~= seq![b[0]] + b.drop_first());
    }
}

/// Dropping the least element of a listing lists the rest.
pub proof fn lemma_listing_tail<T>(s: Seq<T>, set: Set<T>, lt: spec_fn(T, T) -> bool)
    requires
        strict_total(lt),
        lists(s, set, lt),
        s.len() > 0,
    ensures
        lists(s.drop_first(), set.remove(s[0]), lt),
{
    let t = s.drop_first();
    let rest = set.remove(s[0]);
    assert forall|x: T| #[trigger] t.contains(x) <==> rest.contains(x) by {
        if t.contains(x) {
            let i = choose|i: int| 0 <= i < t.len() && t[i] == x;
            assert(s[i + 1] == x);
            assert(s.contains(x));
            assert(lt(s[0], s[i + 1]));
        }
        if rest.contains(x) {
            assert(s.contains(x));
            let i = choose|i: int| 0 <= i < s.len() && s[i] == x;
            assert(t[i - 1] == x);
        }
    }
    assert forall|i: int, j: int| 0 <= i < j < t.len() implies lt(
        #[trigger] t[i],
        #[trigger] t[j],
    ) by {
        assert(lt(s[i + 1], s[j + 1]));
    }
}

spec fn placed<T>(s: Seq<T>, x: T, lt: spec_fn(T, T) -> bool) -> Seq<T>
    decreases s.len(),
{
    if s.len() == 0 {
        seq![x]
    } else if lt(x, s[0]) {
        seq![x] + s
    } else {
        seq![s[0]] + placed(s.drop_first(), x, lt)
    }
}

proof fn lemma_placed<T>(s: Seq<T>, set: Set<T>, x: T, lt: spec_fn(T, T) -> bool)
    requires
        strict_total(lt),
        lists(s, set, lt),
        !set.contains(x),
    ensures
        lists(placed(s, x, lt), set.insert(x), lt),
    decreases s.len(),
{
    let p = placed(s, x, lt);
    if s.len() == 0 {
        assert forall|y: T| #[trigger] p.contains(y) <==> set.insert(x).contains(y) by {
            if set.contains(y) {
                assert(s.contains(y));
            }
            assert(p[0] == x);
        }
    } else if lt(x, s[0]) {
        assert forall|y: T| #[trigger] p.contains(y) <==> set.insert(x).contains(y) by {
            if p.contains(y) {
                let i = choose|i: int| 0 <= i < p.len() && p[i] == y;
                if i > 0 {
                    assert(s[i - 1] == y);
                    assert(s.contains(y));
                }
            }
            if set.contains(y) {
                assert(s.contains(y));
                let i = choose|i: int| 0 <= i < s.len() && s[i] == y;
                assert(p[i + 1] == y);
            }
            assert(p[0] == x);
        }
        assert forall|i: int, j: int| 0 <= i < j < p.len() implies lt(
            #[trigger] p[i],
            #[trigger] p[j],
        ) by {
            if i == 0 {
                assert(p[j] == s[j - 1]);
                if j > 1 {
                    assert(lt(s[0], s[j - 1]));
                }
            } else {
                assert(lt(s[i - 1], s[j - 1]));
            }
        }
    } else {
        let t = s.drop_first();
        let rest = set.remove(s[0]);
        lemma_listing_tail(s, set, lt);
        lemma_placed(t, rest, x, lt);
        let q = placed(t, x, lt);
        assert(s.contains(s[0]));
        assert(set.contains(s[0]));
        assert(lt(s[0], x));
        assert forall|y: T| #[trigger] p.contains(y) <==> set.insert(x).contains(y) by {
            if p.contains(y) {
                let i = choose|i: int| 0 <= i < p.len() && p[i] == y;
                if i > 0 {
                    assert(q[i - 1] == y);
                    assert(q.contains(y));
                }
            }
            if set.insert(x).contains(y) {
                if y == s[0] {
                    assert(p[0] == y);
                } else {
                    assert(rest.insert(x).contains(y));
                    assert(q.contains(y));
                    let i = choose|i: int| 0 <= i < q.len() && q[i] == y;
                    assert(p[i + 1] == y);
                }
            }
        }
        assert forall|i: int, j: int| 0 <= i < j < p.len() implies lt(
            #[trigger] p[i],
            #[trigger] p[j],
        ) by {
            if i == 0 {
                assert(p[j] == q[j - 1]);
                assert(q.contains(q[j - 1]));
                if p[j] != x {
                    assert(rest.contains(p[j]));
                    assert(t.contains(p[j]));
                    let k = choose|k: int| 0 <= k < t.len() && t[k] == p[j];
                    assert(lt(s[0], s[k + 1]));
                }
            } else {
                assert(lt(q[i - 1], q[j - 1]));
            }
        }
    }
}

/// Every finite set has an increasing listing.
pub proof fn lemma_listing_exists<T>(set: Set<T>, lt: spec_fn(T, T) -> bool) -> (s: Seq<T>)
    requires
        strict_total(lt),
        set.finite(),
    ensures
        lists(s, set, lt),
    decreases set.len(),
{
    if set.len() == 0 {
        let s = Seq::<T>::empty();
        assert(set =~= Set::empty());
        s
    } else {
        let x = set.choose();
        let rest = set.remove(x);
        let s = lemma_listing_exists(rest, lt);
        lemma_placed(s, rest, x, lt);
        assert(rest.insert(x) =~= set);
        placed(s, x, lt)
    }
}

/// `sorted` lists a finite set.
pub proof fn lemma_sorted<T>(set: Set<T>, lt: spec_fn(T, T) -> bool)
    requires
        strict_total(lt),
        set.finite(),
    ensures
        lists(sorted(set, lt), set, lt),
{
    let s = lemma_listing_exists(set, lt);
    assert(lists(s, set, lt));
}

/// A listing of a set is its `sorted` sequence.
pub proof fn lemma_listing_is_sorted<T>(s: Seq<T>, set: Set<T>, lt: spec_fn(T, T) -> bool)
    requires
        strict_total(lt),
        lists(s, set, lt),
    ensures
        s == sorted(set, lt),
{
    lemma_listing_unique(s, sorted(set, lt), set, lt);
}

/// A listing has as many elements as the set that it lists.
pub proof fn lemma_listing_len<T>(s: Seq<T>, set: Set<T>, lt: spec_fn(T, T) -> bool)
    requires
        strict_total(lt),
        lists(s, set, lt),
    ensures
        set.finite(),
        s.len() == set.len(),
{
    assert(s.no_duplicates()) by {
        assert forall|i: int, j: int| 0 <= i < s.len() && 0 <= j < s.len() && i != j implies s[i]
            != s[j] by {
            if i < j {
                assert(lt(s[i], s[j]));
            } else {
                assert(lt(s[j], s[i]));
            }
        }
    }
    s.unique_seq_to_set();
    assert(s.to_set() =~= set);
    vstd::seq_lib::seq_to_set_is_finite(s);
}

/// Pushing an element puts it into the set of elements.
pub proof fn lemma_push_to_set<T>(s: Seq<T>, x: T)
    ensures
        s.push(x).to_set() == s.to_set().insert(x),
{
    let t = s.push(x);
    assert forall|y: T| t.contains(y) == (s.contains(y) || y == x) by {
        assert(t[s.len() as int] == x);
        if s.contains(y) {
            let k = choose|k: int| 0 <= k < s.len() && s[k] == y;
            assert(t[k] == y);
        }
        if t.contains(y) && y != x {
            let k = choose|k: int| 0 <= k < t.len() && t[k] == y;
            assert(s[k] == y);
        }
    }
    assert(t.to_set() =~= s.to_set().insert(x));
}

/// What filtering does at the end of a sequence.
pub proof fn lemma_filter_push<T>(s: Seq<T>, x: T, keep: spec_fn(T) -> bool)
    ensures
        s.push(x).filter(keep) == if keep(x) {
            s.filter(keep).push(x)
        } else {
            s.filter(keep)
        },
{
    reveal(Seq::filter);
    assert(s.push(x).drop_last() =~= s);
}

/// The listed elements that pass a test list the elements of the set that pass it.
pub proof fn lemma_filter_listing<T>(
    s: Seq<T>,
    set: Set<T>,
    lt: spec_fn(T, T) -> bool,
    keep: spec_fn(T) -> bool,
)
    requires
        lists(s, set, lt),
    ensures
        lists(s.filter(keep), set.filter(keep), lt),
{
    lemma_filter_increasing(s, lt, keep);
    let f = s.filter(keep);
    assert forall|x: T| #[trigger] f.contains(x) <==> set.filter(keep).contains(x) by {
        if set.filter(keep).contains(x) {
            assert(s.contains(x));
        }
    }
}

proof fn lemma_filter_increasing<T>(s: Seq<T>, lt: spec_fn(T, T) -> bool, keep: spec_fn(T) -> bool)
    requires
        increasing(s, lt),
    ensures
        increasing(s.filter(keep), lt),
        forall|x: T| #[trigger] s.filter(keep).contains(x) <==> s.contains(x) && keep(x),
    decreases s.len(),
{
    if s.len() == 0 {
        reveal(Seq::filter);
        assert forall|x: T| #[trigger] s.filter(keep).contains(x) <==> s.contains(x) && keep(
            x,
        ) by {}
    } else {
        let t = s.drop_last();
        let x = s.last();
        assert(s =~= t.push(x));
        lemma_filter_push(t, x, keep);
        lemma_filter_increasing(t, lt, keep);
        let f = t.filter(keep);
        let g = s.filter(keep);
        lemma_push_to_set(t, x);
        lemma_push_to_set(f, x);
        assert forall|y: T| #[trigger] g.contains(y) <==> s.contains(y) && keep(y) by {
            assert(s.to_set().contains(y) <==> t.to_set().contains(y) || y == x);
            assert(f.push(x).to_set().contains(y) <==> f.to_set().contains(y) || y == x);
            assert(f.contains(y) <==> t.contains(y) && keep(y));
        }
        if keep(x) {
            assert forall|i: int, j: int| 0 <= i < j < g.len() implies lt(
                #[trigger] g[i],
                #[trigger] g[j],
            ) by {
                if j == g.len() - 1 {
                    assert(f[i] == g[i]);
                    assert(f.contains(f[i]));
                    assert(t.contains(f[i]));
                    let k = choose|k: int| 0 <= k < t.len() && t[k] == f[i];
                    assert(lt(s[k], s[s.len() - 1]));
                } else {
                    assert(lt(f[i], f[j]));
                }
            }
        }
    }
}


// ---- laws of the listings ----

/// Ids are listed by their size, each once, and every one of them.
pub proof fn law_ids_are_listed_by_size(set: Set<u64>)
    requires
        set.finite(),
    ensures
        sorted(set, id_order()).len() == set.len(),
        forall|i: int, j: int|
            0 <= i < j < sorted(set, id_order()).len() ==> #[trigger] sorted(set, id_order())[i]
                < #[trigger] sorted(set, id_order())[j],
        forall|x: u64| #[trigger] sorted(set, id_order()).contains(x) <==> set.contains(x),
{
    lemma_id_order();
    lemma_sorted(set, id_order());
    let s = sorted(set, id_order());
    lemma_listing_len(s, set, id_order());
    assert forall|i: int, j: int| 0 <= i < j < s.len() implies #[trigger] s[i] < #[trigger] s[j] by {
        assert((id_order())(s[i], s[j]));
    }
}

/// Byte strings are ordered by the first byte in which they differ, and a string comes before every
/// longer one that starts with it.
pub proof fn law_bytes_are_ordered_by_the_first_difference(
    head: Seq<u8>,
    a: u8,
    b: u8,
    x: Seq<u8>,
    y: Seq<u8>,
)
    ensures
        a < b ==> bytes_before(head + seq![a] + x, head + seq![b] + y),
        a > b ==> !bytes_before(head + seq![a] + x, head + seq![b] + y),
        bytes_before(head, head + seq![b] + y),
        !bytes_before(head + seq![b] + y, head),
    decreases head.len(),
{
    let p = head + seq![a] + x;
    let q = head + seq![b] + y;
    if head.len() == 0 {
        assert(p[0] == a);
        assert(q[0] == b);
    } else {
        let rest = head.drop_first();
        law_bytes_are_ordered_by_the_first_difference(rest, a, b, x, y);
        assert(p.drop_first() =~= rest + seq![a] + x);
        assert(q.drop_first() =~= rest + seq![b] + y);
        assert(p[0] == head[0]);
        assert(q[0] == head[0]);
    }
}

/// Texts are ordered by their UTF-8 bytes.
pub proof fn law_texts_are_ordered_by_their_bytes(a: Seq<char>, b: Seq<char>)
    ensures
        (text_order())(a, b) <==> bytes_before(
            vstd::utf8::encode_utf8(a),
            vstd::utf8::encode_utf8(b),
        ),
{
}

}
