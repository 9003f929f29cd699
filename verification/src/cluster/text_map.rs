//! A map from text to text that keeps its entries in the byte order of their keys.

use vstd::prelude::*;
use vstd::utf8::*;

use crate::cluster::order;

verus! {

broadcast use {encode_utf8_decode_utf8};

/// `a` comes before `b` in the lexicographic order of their UTF-8 bytes.
pub fn text_before(a: &str, b: &str) -> (r: bool)
    ensures
        r == (order::text_order())(a@, b@),
{
    let x = a.as_bytes();
    let y = b.as_bytes();
    let mut i: usize = 0;
    assert(x@.skip(0) =~= x@);
    assert(y@.skip(0) =~= y@);
    while i < x.len() && i < y.len()
        invariant
            x@ == encode_utf8(a@),
            y@ == encode_utf8(b@),
            i <= x@.len(),
            i <= y@.len(),
            order::bytes_before(x@, y@) == order::bytes_before(
                x@.skip(i as int),
                y@.skip(i as int),
            ),
        ensures
            i <= x@.len(),
            i <= y@.len(),
            i == x@.len() || i == y@.len(),
            order::bytes_before(x@, y@) == order::bytes_before(
                x@.skip(i as int),
                y@.skip(i as int),
            ),
        decreases x@.len() - i,
    {
        if x[i] != y[i] {
            assert(x@.skip(i as int)[0] == x@[i as int]);
            assert(y@.skip(i as int)[0] == y@[i as int]);
            return x[i] < y[i];
        }
        assert(x@.skip(i as int).drop_first() =~= x@.skip(i + 1));
        assert(y@.skip(i as int).drop_first() =~= y@.skip(i + 1));
        i = i + 1;
    }
    i < y.len()
}

/// A text-keyed map whose entries are kept sorted by key, each key once.
#[derive(Debug, Clone, PartialEq, Eq)]
pub struct TextMap {
    entries: Vec<(String, String)>,
}

impl View for TextMap {
    type V = Map<Seq<char>, Seq<char>>;

    closed spec fn view(&self) -> Map<Seq<char>, Seq<char>> {
        Map::new(
            |k: Seq<char>| self.keys().contains(k),
            |k: Seq<char>| self.value_at(self.keys().index_of(k)),
        )
    }
}

impl TextMap {
    /// The keys in the order in which they are kept.
    pub closed spec fn keys(&self) -> Seq<Seq<char>> {
        Seq::new(self.entries@.len(), |i: int| self.entries@[i].0@)
    }

    /// The value of the entry at `i`.
    pub closed spec fn value_at(&self, i: int) -> Seq<char> {
        self.entries@[i].1@
    }

    /// The keys are strictly increasing, so that no key occurs twice.
    pub open spec fn wf(&self) -> bool {
        order::increasing(self.keys(), order::text_order())
    }

    /// The entry at `i` is the one that the map holds for its key.
    pub proof fn lemma_entry(&self, i: int)
        requires
            self.wf(),
            0 <= i < self.keys().len(),
        ensures
            self@.contains_key(self.keys()[i]),
            self@[self.keys()[i]] == self.value_at(i),
    {
        order::lemma_text_order();
        let k = self.keys()[i];
        let lt = order::text_order();
        assert(self.keys().contains(k));
        let j = self.keys().index_of(k);
        assert(0 <= j < self.keys().len() && self.keys()[j] == k);
        if i < j {
            assert(lt(self.keys()[i], self.keys()[j]));
        }
        if j < i {
            assert(lt(self.keys()[j], self.keys()[i]));
        }
    }

    /// The keys list the map's domain.
    pub proof fn lemma_keys(&self)
        requires
            self.wf(),
        ensures
            order::lists(self.keys(), self@.dom(), order::text_order()),
            self@.dom().finite(),
    {
        assert(self.keys().to_set() =~= self@.dom());
        vstd::seq_lib::seq_to_set_is_finite(self.keys());
    }

    /// An empty map.
    pub fn new() -> (m: TextMap)
        ensures
            m.wf(),
            m@ == Map::<Seq<char>, Seq<char>>::empty(),
    {
        let m = TextMap { entries: Vec::new() };
        assert(m@ =~= Map::empty());
        m
    }

    /// The number of entries.
    pub fn len(&self) -> (n: usize)
        ensures
            n == self.keys().len(),
    {
        self.entries.len()
    }

    /// The key of the entry at `i`.
    pub fn key(&self, i: usize) -> (k: &str)
        requires
            i < self.keys().len(),
        ensures
            k@ == self.keys()[i as int],
    {
        self.entries[i].0.as_str()
    }

    /// The value of the entry at `i`.
    pub fn value(&self, i: usize) -> (v: &str)
        requires
            i < self.keys().len(),
        ensures
            v@ == self.value_at(i as int),
    {
        self.entries[i].1.as_str()
    }

    /// The first position whose key is not before `key`.
    fn position(&self, key: &str) -> (n: usize)
        requires
            self.wf(),
        ensures
            n <= self.keys().len(),
            forall|j: int| 0 <= j < n ==> (order::text_order())(#[trigger] self.keys()[j], key@),
            n < self.keys().len() ==> !(order::text_order())(self.keys()[n as int], key@),
    {
        let mut i: usize = 0;
        while i < self.entries.len()
            invariant
                i <= self.keys().len(),
                self.keys().len() == self.entries@.len(),
                forall|j: int|
                    0 <= j < i ==> (order::text_order())(#[trigger] self.keys()[j], key@),
            decreases self.keys().len() - i,
        {
            if !text_before(self.key(i), key) {
                return i;
            }
            i = i + 1;
        }
        i
    }

    /// The value held for `key`.
    pub fn get(&self, key: &str) -> (r: Option<&str>)
        requires
            self.wf(),
        ensures
            match r {
                Some(v) => self@.contains_key(key@) && v@ == self@[key@],
                None => !self@.contains_key(key@),
            },
    {
        let i = self.position(key);
        proof {
            order::lemma_text_order();
        }
        if i < self.entries.len() && !text_before(key, self.key(i)) {
            proof {
                let lt = order::text_order();
                assert(!lt(self.keys()[i as int], key@) && !lt(key@, self.keys()[i as int]));
                assert(self.keys()[i as int] == key@);
                self.lemma_entry(i as int);
            }
            Some(self.value(i))
        } else {
            proof {
                let lt = order::text_order();
                if self.keys().contains(key@) {
                    let j = self.keys().index_of(key@);
                    assert(self.keys()[j] == key@);
                    if j < i {
                        assert(lt(self.keys()[j], key@));
                    } else {
                        assert(lt(key@, self.keys()[i as int]));
                        if j > i {
                            assert(lt(self.keys()[i as int], self.keys()[j]));
                        }
                    }
                }
            }
            None
        }
    }

    /// Hold `value` for `key`, in place of what was held before.
    pub fn insert(&mut self, key: String, value: String)
        requires
            old(self).wf(),
        ensures
            final(self).wf(),
            final(self)@ == old(self)@.insert(key@, value@),
    {
        let ghost before = *self;
        let ghost lt = order::text_order();
        let ghost k = key@;
        let ghost v = value@;
        let i = self.position(key.as_str());
        proof {
            order::lemma_text_order();
        }
        if i < self.entries.len() && !text_before(key.as_str(), self.key(i)) {
            proof {
                assert(!lt(self.keys()[i as int], k) && !lt(k, self.keys()[i as int]));
                assert(self.keys()[i as int] == k);
            }
            self.entries.set(i, (key, value));
            proof {
                assert(self.keys() =~= before.keys());
                assert forall|x: Seq<char>| self.keys().contains(x) implies self@[x]
                    == before@.insert(k, v)[x] by {
                    let j = self.keys().index_of(x);
                    assert(self.keys()[j] == x);
                    self.lemma_entry(j);
                    before.lemma_entry(j);
                    if j != i {
                        if j < i {
                            assert(lt(self.keys()[j], self.keys()[i as int]));
                        } else {
                            assert(lt(self.keys()[i as int], self.keys()[j]));
                        }
                    }
                }
                before.lemma_entry(i as int);
                assert(self@ =~= before@.insert(k, v));
            }
        } else {
            self.entries.insert(i, (key, value));
            proof {
                let n = i as int;
                let ks = self.keys();
                assert(ks =~= before.keys().insert(n, k));
                assert forall|a: int, b: int| 0 <= a < b < ks.len() implies lt(
                    #[trigger] ks[a],
                    #[trigger] ks[b],
                ) by {
                    let pa = if a < n { a } else { a - 1 };
                    let pb = if b < n { b } else { b - 1 };
                    if a == n {
                        assert(ks[b] == before.keys()[b - 1]);
                        assert(lt(k, before.keys()[n]));
                        if b - 1 > n {
                            assert(lt(before.keys()[n], before.keys()[b - 1]));
                        }
                    } else if b == n {
                        assert(lt(before.keys()[a], k));
                    } else {
                        assert(lt(before.keys()[pa], before.keys()[pb]));
                    }
                }
                assert(self.wf());
                assert forall|x: Seq<char>|
                    self@.contains_key(x) == before@.insert(k, v).contains_key(x) by {
                    if self.keys().contains(x) {
                        let j = self.keys().index_of(x);
                        if j < n {
                            assert(before.keys()[j] == x);
                        } else if j > n {
                            assert(before.keys()[j - 1] == x);
                        }
                    }
                    if before.keys().contains(x) {
                        let j = before.keys().index_of(x);
                        if j < n {
                            assert(ks[j] == x);
                        } else {
                            assert(ks[j + 1] == x);
                        }
                    }
                    assert(ks[n] == k);
                }
                assert forall|x: Seq<char>| self.keys().contains(x) implies self@[x]
                    == before@.insert(k, v)[x] by {
                    let j = self.keys().index_of(x);
                    assert(self.keys()[j] == x);
                    self.lemma_entry(j);
                    if j < n {
                        before.lemma_entry(j);
                        assert(lt(self.keys()[j], self.keys()[n]));
                    } else if j > n {
                        before.lemma_entry(j - 1);
                        assert(lt(self.keys()[n], self.keys()[j]));
                    }
                }
                assert(self@ =~= before@.insert(k, v));
            }
        }
    }
}

}
