//! Ordered collections of ids.

use std::collections::{BTreeMap, BTreeSet};
use vstd::prelude::*;
use vstd::std_specs::btree::*;

use crate::cluster::order;

verus! {

broadcast use {vstd::laws_cmp::group_laws_cmp, group_btree_axioms};

/// The keys of the entries of a map.
pub open spec fn entry_keys<V>(entries: Seq<(u64, &V)>) -> Seq<u64> {
    entries.map_values(|e: (u64, &V)| e.0)
}

/// The entries of `m` in increasing order of their keys.
pub fn sorted_entries<V>(m: &BTreeMap<u64, V>) -> (entries: Vec<(u64, &V)>)
    ensures
        order::lists(entry_keys(entries@), m@.dom(), order::id_order()),
        forall|i: int|
            0 <= i < entries@.len() ==> m@.contains_key(entries@[i].0) && *(#[trigger]
            entries@[i]).1 == m@[entries@[i].0],
{
    let mut entries: Vec<(u64, &V)> = Vec::new();
    let iter = m.iter();
    let ghost pairs = vstd::std_specs::iter::IteratorSpec::remaining(&iter);
    for kv in it: iter
        invariant
            it.seq() == pairs,
            entries@.len() == it.index(),
            forall|i: int|
                0 <= i < entries@.len() ==> (#[trigger] entries@[i]).0 == *pairs[i].0
                    && entries@[i].1 == pairs[i].1,
    {
        entries.push((*kv.0, kv.1));
    }
    proof {
        let ks = pairs.map_values(|kv: (&u64, &V)| *kv.0);
        let keys = entry_keys(entries@);
        assert(keys =~= ks);
        assert(increasing_seq(ks));
        assert forall|i: int, j: int| 0 <= i < j < keys.len() implies (order::id_order())(
            #[trigger] keys[i],
            #[trigger] keys[j],
        ) by {
            assert(vstd::std_specs::cmp::OrdSpec::cmp_spec(&ks[i], &ks[j]) is Less);
        }
        assert forall|x: u64| #[trigger] keys.contains(x) <==> m@.dom().contains(x) by {
            if keys.contains(x) {
                let i = choose|i: int| 0 <= i < keys.len() && keys[i] == x;
                assert(m@.contains_key(*pairs[i].0));
            }
            if m@.contains_key(x) {
                assert(pairs.contains((&x, &m@[x])));
                let i = choose|i: int| 0 <= i < pairs.len() && pairs[i] == (&x, &m@[x]);
                assert(keys[i] == x);
            }
        }
        assert forall|i: int| 0 <= i < entries@.len() implies m@.contains_key(entries@[i].0)
            && *(#[trigger] entries@[i]).1 == m@[entries@[i].0] by {
            assert(m@.contains_key(*pairs[i].0));
        }
    }
    entries
}

/// The keys of `m` in increasing order.
pub fn sorted_keys<V>(m: &BTreeMap<u64, V>) -> (keys: Vec<u64>)
    ensures
        order::lists(keys@, m@.dom(), order::id_order()),
{
    let entries = sorted_entries(m);
    let mut keys: Vec<u64> = Vec::new();
    let mut i: usize = 0;
    while i < entries.len()
        invariant
            i <= entries@.len(),
            keys@ == entry_keys(entries@).take(i as int),
        decreases entries@.len() - i,
    {
        keys.push(entries[i].0);
        i = i + 1;
        assert(keys@ =~= entry_keys(entries@).take(i as int));
    }
    assert(keys@ =~= entry_keys(entries@));
    keys
}

/// The elements of `s` in increasing order.
pub fn sorted_ids(s: &BTreeSet<u64>) -> (ids: Vec<u64>)
    ensures
        order::lists(ids@, s@, order::id_order()),
{
    let mut ids: Vec<u64> = Vec::new();
    let iter = s.iter();
    let ghost all = vstd::std_specs::iter::IteratorSpec::remaining(&iter);
    for x in it: iter
        invariant
            it.seq() == all,
            ids@.len() == it.index(),
            forall|i: int| 0 <= i < ids@.len() ==> ids@[i] == *all[i],
    {
        ids.push(*x);
    }
    proof {
        assert(ids@ =~= all.unref());
        assert forall|i: int, j: int| 0 <= i < j < ids@.len() implies (order::id_order())(
            #[trigger] ids@[i],
            #[trigger] ids@[j],
        ) by {
            assert(vstd::std_specs::cmp::OrdSpec::cmp_spec(&all[i], &all[j]) is Less);
        }
        assert forall|x: u64| #[trigger] ids@.contains(x) <==> s@.contains(x) by {
            assert(all.unref().to_set().contains(x) <==> s@.contains(x));
        }
    }
    ids
}

/// The set of the ids in `ids`.
pub fn id_set(ids: &[u64]) -> (r: BTreeSet<u64>)
    ensures
        r@ == ids@.to_set(),
{
    let mut r: BTreeSet<u64> = BTreeSet::new();
    insert_all(&mut r, ids);
    assert(r@ =~= ids@.to_set());
    r
}

/// Put every id of `ids` into `set`.
pub fn insert_all(set: &mut BTreeSet<u64>, ids: &[u64])
    ensures
        final(set)@ == old(set)@.union(ids@.to_set()),
{
    let mut i: usize = 0;
    assert(set@ =~= old(set)@.union(ids@.take(0).to_set()));
    while i < ids.len()
        invariant
            i <= ids@.len(),
            set@ == old(set)@.union(ids@.take(i as int).to_set()),
        decreases ids@.len() - i,
    {
        set.insert(ids[i]);
        proof {
            order::lemma_push_to_set(ids@.take(i as int), ids@[i as int]);
            assert(ids@.take(i as int).push(ids@[i as int]) =~= ids@.take(i + 1));
            assert(set@ =~= old(set)@.union(ids@.take(i + 1).to_set()));
        }
        i = i + 1;
    }
    assert(ids@.take(ids@.len() as int) =~= ids@);
}

/// The ids of `a` that `b` holds, or those that it does not hold.
fn select(a: &BTreeSet<u64>, b: &BTreeSet<u64>, held: bool) -> (r: BTreeSet<u64>)
    ensures
        r@ == a@.filter(|x: u64| b@.contains(x) == held),
{
    let ids = sorted_ids(a);
    let ghost keep = |x: u64| b@.contains(x) == held;
    let mut r: BTreeSet<u64> = BTreeSet::new();
    let mut i: usize = 0;
    assert(r@ =~= ids@.take(0).to_set().filter(keep));
    while i < ids.len()
        invariant
            i <= ids@.len(),
            keep == (|x: u64| b@.contains(x) == held),
            r@ == ids@.take(i as int).to_set().filter(keep),
        decreases ids@.len() - i,
    {
        if b.contains(&ids[i]) == held {
            r.insert(ids[i]);
        }
        proof {
            order::lemma_push_to_set(ids@.take(i as int), ids@[i as int]);
            assert(ids@.take(i as int).push(ids@[i as int]) =~= ids@.take(i + 1));
            assert(r@ =~= ids@.take(i + 1).to_set().filter(keep));
        }
        i = i + 1;
    }
    proof {
        assert(ids@.take(ids@.len() as int) =~= ids@);
        assert(ids@.to_set() =~= a@);
    }
    r
}

/// The ids that both sets hold.
pub fn intersection(a: &BTreeSet<u64>, b: &BTreeSet<u64>) -> (r: BTreeSet<u64>)
    ensures
        r@ == a@.intersect(b@),
{
    let r = select(a, b, true);
    assert(r@ =~= a@.intersect(b@));
    r
}

/// The ids that `a` holds and `b` does not.
pub fn difference(a: &BTreeSet<u64>, b: &BTreeSet<u64>) -> (r: BTreeSet<u64>)
    ensures
        r@ == a@.difference(b@),
{
    let r = select(a, b, false);
    assert(r@ =~= a@.difference(b@));
    r
}

/// Whether two sets hold the same ids.
pub fn same_ids(a: &BTreeSet<u64>, b: &BTreeSet<u64>) -> (r: bool)
    ensures
        r == (a@ == b@),
{
    let x = sorted_ids(a);
    let y = sorted_ids(b);
    proof {
        order::lemma_id_order();
        order::lemma_listing_is_sorted(x@, a@, order::id_order());
        order::lemma_listing_is_sorted(y@, b@, order::id_order());
        if x@ == y@ {
            assert(x@.to_set() =~= a@);
            assert(y@.to_set() =~= b@);
        }
    }
    if x.len() != y.len() {
        return false;
    }
    let mut i: usize = 0;
    while i < x.len()
        invariant
            i <= x@.len(),
            x@.len() == y@.len(),
            x@ != y@ ==> a@ != b@,
            x@ == y@ ==> a@ == b@,
            forall|j: int| 0 <= j < i ==> x@[j] == y@[j],
        decreases x@.len() - i,
    {
        if x[i] != y[i] {
            assert(x@[i as int] != y@[i as int]);
            return false;
        }
        i = i + 1;
    }
    assert(x@ =~= y@);
    true
}

}
