//! `StrMap`: a map keyed by strings, kept as a vector of entries in insertion
//! order. Its view is a `Map` from the keys' character sequences.
use vstd::prelude::*;

use crate::text::str_eq;

verus! {

/// A string-keyed map; no key occurs twice and entries keep insertion order.
pub struct StrMap<V> {
    entries: Vec<(String, V)>,
}

impl<V> StrMap<V> {
    /// The keys, in the map's iteration order.
    pub closed spec fn key_seq(&self) -> Seq<Seq<char>> {
        Seq::new(self.entries@.len(), |i: int| self.entries@[i].0@)
    }

    /// The value stored under the `i`-th key.
    pub closed spec fn value_at(&self, i: int) -> V {
        self.entries@[i].1
    }

    /// No key occurs twice.
    pub closed spec fn wf(&self) -> bool {
        forall|i: int, j: int|
            0 <= i < self.entries@.len() && 0 <= j < self.entries@.len() && i != j
                ==> self.entries@[i].0@ != self.entries@[j].0@
    }

    /// Position of key `k` in `key_seq`.
    pub closed spec fn index_of(&self, k: Seq<char>) -> int {
        choose|i: int| 0 <= i < self.entries@.len() && self.entries@[i].0@ == k
    }

    /// The map the entries stand for.
    pub closed spec fn view(&self) -> Map<Seq<char>, V> {
        Map::new(
            |k: Seq<char>| exists|i: int| 0 <= i < self.entries@.len() && self.entries@[i].0@ == k,
            |k: Seq<char>| self.entries@[self.index_of(k)].1,
        )
    }

    pub broadcast proof fn lemma_view_facts(&self)
        requires
            self.wf(),
        ensures
            forall|k: Seq<char>| #[trigger]
                self.view().dom().contains(k) <==> self.key_seq().contains(k),
            forall|i: int|
                0 <= i < self.key_seq().len() ==> #[trigger] self.view()[self.key_seq()[i]]
                    == self.value_at(i),
            forall|i: int|
                0 <= i < self.key_seq().len() ==> self.index_of(#[trigger] self.key_seq()[i])
                    == i,
            #[trigger] self.view().dom().finite(),
            self.view().dom().len() == self.key_seq().len(),
    {
        assert forall|k: Seq<char>| #[trigger]
            self.view().dom().contains(k) <==> self.key_seq().contains(k) by {
            if self.view().dom().contains(k) {
                let i = choose|i: int| 0 <= i < self.entries@.len() && self.entries@[i].0@ == k;
                assert(self.key_seq()[i] == k);
            }
            if self.key_seq().contains(k) {
                let i = choose|i: int| 0 <= i < self.key_seq().len() && self.key_seq()[i] == k;
                assert(self.entries@[i].0@ == k);
            }
        }
        assert forall|i: int| 0 <= i < self.key_seq().len() implies self.index_of(
            #[trigger] self.key_seq()[i],
        ) == i by {
            let k = self.key_seq()[i];
            assert(self.entries@[i].0@ == k);
            let j = self.index_of(k);
            assert(0 <= j < self.entries@.len() && self.entries@[j].0@ == k);
        }
        assert forall|i: int| 0 <= i < self.key_seq().len() implies #[trigger] self.view()[
            self.key_seq()[i]] == self.value_at(i) by {
            let k = self.key_seq()[i];
            assert(self.entries@[i].0@ == k);
            assert(self.index_of(k) == i);
        }
        self.key_seq().unique_seq_to_set();
        assert(self.view().dom() =~= self.key_seq().to_set());
    }

    pub proof fn lemma_key_seq_unique(&self, i: int, j: int)
        requires
            self.wf(),
            0 <= i < self.key_seq().len(),
            0 <= j < self.key_seq().len(),
            i != j,
        ensures
            self.key_seq()[i] != self.key_seq()[j],
    {
    }

    /// Appends a key that is not yet present.
    pub fn push_new(&mut self, k: String, v: V)
        requires
            old(self).wf(),
            !old(self).key_seq().contains(k@),
        ensures
            final(self).wf(),
            final(self).key_seq() == old(self).key_seq().push(k@),
            final(self).value_at(old(self).key_seq().len() as int) == v,
            forall|j: int|
                0 <= j < old(self).key_seq().len() ==> #[trigger] final(self).value_at(j)
                    == old(self).value_at(j),
            final(self)@ == old(self)@.insert(k@, v),
    {
        let ghost kv = k@;
        proof {
            old(self).lemma_view_facts();
        }
        self.entries.push((k, v));
        proof {
            assert(self.key_seq() =~= old(self).key_seq().push(kv));
            assert(self.wf()) by {
                assert forall|a: int, b: int|
                    0 <= a < self.entries@.len() && 0 <= b < self.entries@.len() && a
                        != b implies self.entries@[a].0@ != self.entries@[b].0@ by {
                    assert(self.key_seq()[a] == self.entries@[a].0@);
                    assert(self.key_seq()[b] == self.entries@[b].0@);
                    if a == old(self).entries@.len() {
                        assert(old(self).key_seq()[b] == self.key_seq()[b]);
                    } else if b == old(self).entries@.len() {
                        assert(old(self).key_seq()[a] == self.key_seq()[a]);
                    }
                }
            }
            self.lemma_view_facts();
            assert forall|kk: Seq<char>|
                #[trigger] self@.dom().contains(kk) <==> old(self)@.insert(kv, v).dom().contains(
                    kk,
                ) by {
                if kk == kv {
                    assert(self.key_seq()[old(self).key_seq().len() as int] == kk);
                } else if old(self)@.dom().contains(kk) {
                    let j = choose|j: int|
                        0 <= j < old(self).key_seq().len() && old(self).key_seq()[j] == kk;
                    assert(self.key_seq()[j] == kk);
                } else if self@.dom().contains(kk) {
                    let j = choose|j: int| 0 <= j < self.key_seq().len() && self.key_seq()[j] == kk;
                    assert(j < old(self).key_seq().len());
                    assert(old(self).key_seq()[j] == kk);
                }
            }
            assert forall|kk: Seq<char>| #[trigger]
                self@.dom().contains(kk) implies self@[kk] == old(self)@.insert(kv, v)[kk] by {
                let j = self.index_of(kk);
                assert(self.key_seq()[j] == kk);
                if j < old(self).key_seq().len() {
                    assert(old(self).key_seq()[j] == kk);
                }
            }
            assert(self@ =~= old(self)@.insert(kv, v));
        }
    }

    /// Replaces the value stored at position `i`.
    pub fn set_at(&mut self, i: usize, v: V)
        requires
            old(self).wf(),
            i < old(self).key_seq().len(),
        ensures
            final(self).wf(),
            final(self).key_seq() == old(self).key_seq(),
            final(self).value_at(i as int) == v,
            forall|j: int|
                0 <= j < old(self).key_seq().len() && j != i ==> #[trigger] final(self).value_at(j)
                    == old(self).value_at(j),
            final(self)@ == old(self)@.insert(old(self).key_seq()[i as int], v),
    {
        let (k, _old_v) = self.entries.remove(i);
        self.entries.insert(i, (k, v));
        proof {
            assert(self.key_seq() =~= old(self).key_seq());
            assert(self.wf());
            self.lemma_view_facts();
            old(self).lemma_view_facts();
            let kv = old(self).key_seq()[i as int];
            assert forall|kk: Seq<char>|
                #[trigger] self@.dom().contains(kk) <==> old(self)@.insert(kv, v).dom().contains(
                    kk,
                ) by {}
            assert forall|kk: Seq<char>| #[trigger]
                self@.dom().contains(kk) implies self@[kk] == old(self)@.insert(kv, v)[kk] by {
                let j = self.index_of(kk);
                assert(self.key_seq()[j] == kk);
            }
            assert(self@ =~= old(self)@.insert(kv, v));
        }
    }

    /// An empty map.
    pub fn new() -> (m: Self)
        ensures
            m.wf(),
            m@ == Map::<Seq<char>, V>::empty(),
            m.key_seq() == Seq::<Seq<char>>::empty(),
    {
        let m = StrMap { entries: Vec::new() };
        assert(m@ =~= Map::<Seq<char>, V>::empty());
        assert(m.key_seq() =~= Seq::<Seq<char>>::empty());
        m
    }

    /// Number of keys.
    pub fn len(&self) -> (r: usize)
        ensures
            r == self.key_seq().len(),
    {
        self.entries.len()
    }

    /// Whether the map has no key.
    pub fn is_empty(&self) -> (r: bool)
        ensures
            r == (self.key_seq().len() == 0),
    {
        self.entries.len() == 0
    }

    /// Position of `k` among the keys, if present.
    pub fn find(&self, k: &str) -> (r: Option<usize>)
        requires
            self.wf(),
        ensures
            match r {
                Some(i) => i < self.key_seq().len() && self.key_seq()[i as int] == k@,
                None => !self.key_seq().contains(k@),
            },
            r is Some <==> self@.dom().contains(k@),
    {
        proof {
            self.lemma_view_facts();
        }
        let mut i: usize = 0;
        while i < self.entries.len()
            invariant
                i <= self.entries@.len(),
                forall|j: int| 0 <= j < i ==> self.entries@[j].0@ != k@,
            decreases self.entries@.len() - i,
        {
            if str_eq(self.entries[i].0.as_str(), k) {
                assert(self.key_seq()[i as int] == k@);
                return Some(i);
            }
            i += 1;
        }
        assert(!self.key_seq().contains(k@)) by {
            if self.key_seq().contains(k@) {
                let j = choose|j: int| 0 <= j < self.key_seq().len() && self.key_seq()[j] == k@;
                assert(self.entries@[j].0@ == k@);
            }
        }
        None
    }

    /// Whether `k` is a key.
    pub fn contains_key(&self, k: &str) -> (r: bool)
        requires
            self.wf(),
        ensures
            r == self@.dom().contains(k@),
    {
        self.find(k).is_some()
    }

    /// The value stored under `k`.
    pub fn get(&self, k: &str) -> (r: Option<&V>)
        requires
            self.wf(),
        ensures
            match r {
                Some(v) => self@.dom().contains(k@) && *v == self@[k@],
                None => !self@.dom().contains(k@),
            },
    {
        proof {
            self.lemma_view_facts();
        }
        match self.find(k) {
            Some(i) => {
                assert(self@[k@] == self.value_at(i as int));
                Some(&self.entries[i].1)
            },
            None => None,
        }
    }

    /// The `i`-th key and its value.
    pub fn entry_at(&self, i: usize) -> (r: (&String, &V))
        requires
            i < self.key_seq().len(),
        ensures
            r.0@ == self.key_seq()[i as int],
            *r.1 == self.value_at(i as int),
    {
        let e = &self.entries[i];
        (&e.0, &e.1)
    }

    /// Stores `v` under `k`; an existing key keeps its position.
    pub fn insert(&mut self, k: String, v: V)
        requires
            old(self).wf(),
        ensures
            final(self).wf(),
            final(self)@ == old(self)@.insert(k@, v),
            old(self)@.dom().contains(k@) ==> final(self).key_seq() == old(self).key_seq(),
            !old(self)@.dom().contains(k@) ==> final(self).key_seq() == old(self).key_seq().push(
                k@,
            ),
    {
        proof {
            self.lemma_view_facts();
        }
        match self.find(k.as_str()) {
            Some(i) => {
                let ghost kv = k@;
                self.entries.set(i, (k, v));
                proof {
                    assert(self.key_seq() =~= old(self).key_seq());
                    self.lemma_view_facts();
                    assert forall|kk: Seq<char>| #[trigger]
                        self@.dom().contains(kk) implies self@[kk] == old(self)@.insert(
                        kv,
                        v,
                    )[kk] by {
                        let j = self.index_of(kk);
                        assert(self.key_seq()[j] == kk);
                        old(self).lemma_view_facts();
                    }
                    assert(self@ =~= old(self)@.insert(kv, v));
                }
            },
            None => {
                let ghost kv = k@;
                self.entries.push((k, v));
                proof {
                    assert(self.key_seq() =~= old(self).key_seq().push(kv));
                    assert(self.wf());
                    self.lemma_view_facts();
                    old(self).lemma_view_facts();
                    assert forall|kk: Seq<char>| #[trigger]
                        self@.dom().contains(kk) implies self@[kk] == old(self)@.insert(
                        kv,
                        v,
                    )[kk] by {
                        let j = self.index_of(kk);
                        assert(self.key_seq()[j] == kk);
                        if j < old(self).key_seq().len() {
                            assert(old(self).key_seq()[j] == kk);
                        }
                    }
                    assert forall|kk: Seq<char>|
                        #[trigger] self@.dom().contains(kk) <==> old(self)@.insert(
                            kv,
                            v,
                        ).dom().contains(kk) by {
                        if kk == kv {
                            assert(self.key_seq()[old(self).key_seq().len() as int] == kk);
                        } else if old(self)@.dom().contains(kk) {
                            let j = choose|j: int|
                                0 <= j < old(self).key_seq().len() && old(self).key_seq()[j]
                                    == kk;
                            assert(self.key_seq()[j] == kk);
                        } else if self@.dom().contains(kk) {
                            let j = choose|j: int|
                                0 <= j < self.key_seq().len() && self.key_seq()[j] == kk;
                            assert(j < old(self).key_seq().len());
                            assert(old(self).key_seq()[j] == kk);
                        }
                    }
                    assert(self@ =~= old(self)@.insert(kv, v));
                }
            },
        }
    }

    /// Removes `k` and returns its value; the other keys keep their order.
    pub fn remove(&mut self, k: &str) -> (r: Option<V>)
        requires
            old(self).wf(),
        ensures
            final(self).wf(),
            final(self)@ == old(self)@.remove(k@),
            match r {
                Some(v) => old(self)@.dom().contains(k@) && v == old(self)@[k@],
                None => !old(self)@.dom().contains(k@) && *final(self) == *old(self),
            },
    {
        proof {
            self.lemma_view_facts();
        }
        match self.find(k) {
            Some(i) => {
                let e = self.entries.remove(i);
                proof {
                    assert(self.wf()) by {
                        assert forall|a: int, b: int|
                            0 <= a < self.entries@.len() && 0 <= b < self.entries@.len() && a
                                != b implies self.entries@[a].0@ != self.entries@[b].0@ by {
                            let oa = if a < i {
                                a
                            } else {
                                a + 1
                            };
                            let ob = if b < i {
                                b
                            } else {
                                b + 1
                            };
                            assert(self.entries@[a] == old(self).entries@[oa]);
                            assert(self.entries@[b] == old(self).entries@[ob]);
                        }
                    }
                    self.lemma_view_facts();
                    old(self).lemma_view_facts();
                    assert forall|kk: Seq<char>|
                        #[trigger] self@.dom().contains(kk) <==> old(self)@.remove(
                            k@,
                        ).dom().contains(kk) by {
                        if self@.dom().contains(kk) {
                            let j = self.index_of(kk);
                            let oj = if j < i {
                                j
                            } else {
                                j + 1
                            };
                            assert(self.entries@[j] == old(self).entries@[oj]);
                            assert(old(self).key_seq()[oj] == kk);
                            assert(oj != i);
                        }
                        if old(self)@.remove(k@).dom().contains(kk) {
                            let oj = old(self).index_of(kk);
                            assert(old(self).key_seq()[oj] == kk);
                            assert(oj != i);
                            let j = if oj < i {
                                oj
                            } else {
                                oj - 1
                            };
                            assert(self.entries@[j] == old(self).entries@[oj]);
                            assert(self.key_seq()[j] == kk);
                        }
                    }
                    assert forall|kk: Seq<char>| #[trigger]
                        self@.dom().contains(kk) implies self@[kk] == old(self)@[kk] by {
                        let j = self.index_of(kk);
                        let oj = if j < i {
                            j
                        } else {
                            j + 1
                        };
                        assert(self.entries@[j] == old(self).entries@[oj]);
                        assert(old(self).key_seq()[oj] == kk);
                    }
                    assert(self@ =~= old(self)@.remove(k@));
                    assert(old(self)@[k@] == old(self).value_at(i as int));
                }
                Some(e.1)
            },
            None => {
                assert(old(self)@.remove(k@) =~= old(self)@);
                None
            },
        }
    }

    /// The keys, in iteration order.
    pub fn keys(&self) -> (r: Vec<String>)
        ensures
            r@.len() == self.key_seq().len(),
            forall|i: int| 0 <= i < r@.len() ==> #[trigger] r@[i]@ == self.key_seq()[i],
    {
        let mut r: Vec<String> = Vec::new();
        let mut i: usize = 0;
        while i < self.entries.len()
            invariant
                i <= self.entries@.len(),
                r@.len() == i,
                forall|j: int| 0 <= j < i ==> #[trigger] r@[j]@ == self.key_seq()[j],
            decreases self.entries@.len() - i,
        {
            r.push(self.entries[i].0.clone());
            i += 1;
        }
        r
    }
}

} // verus!
