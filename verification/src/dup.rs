//! `Dup`: copying a value so that the copy has the same deep view.
use vstd::prelude::*;

use crate::strmap::StrMap;

verus! {

/// A copy whose deep view equals the original's.
pub trait Dup: DeepView + Sized {
    fn dup(&self) -> (r: Self)
        ensures
            r.deep_view() == self.deep_view(),
    ;
}

impl Dup for String {
    fn dup(&self) -> (r: Self) {
        self.clone()
    }
}

impl Dup for u64 {
    fn dup(&self) -> (r: Self) {
        *self
    }
}

impl<T: Dup> Dup for Vec<T> {
    fn dup(&self) -> (r: Self) {
        let mut r: Vec<T> = Vec::new();
        let mut i: usize = 0;
        while i < self.len()
            invariant
                i <= self@.len(),
                r@.len() == i,
                forall|j: int| 0 <= j < i ==> #[trigger] r@[j].deep_view() == self@[j].deep_view(),
            decreases self@.len() - i,
        {
            let x = self[i].dup();
            r.push(x);
            i += 1;
        }
        assert(r.deep_view() =~= self.deep_view());
        r
    }
}

impl<T: Dup> Dup for Option<T> {
    fn dup(&self) -> (r: Self) {
        match self {
            Some(x) => Some(x.dup()),
            None => None,
        }
    }
}

impl<A: Dup, B: Dup> Dup for (A, B) {
    fn dup(&self) -> (r: Self) {
        (self.0.dup(), self.1.dup())
    }
}

impl<V: DeepView> DeepView for StrMap<V> {
    type V = Map<Seq<char>, V::V>;

    open spec fn deep_view(&self) -> Map<Seq<char>, V::V> {
        self@.map_values(|v: V| v.deep_view())
    }
}

impl<V: Dup> StrMap<V> {
    /// A copy with the same keys, in the same order, and the same deep view.
    pub fn dup_map(&self) -> (r: Self)
        requires
            self.wf(),
        ensures
            r.wf(),
            r.deep_view() == self.deep_view(),
            r.key_seq() == self.key_seq(),
    {
        proof {
            self.lemma_view_facts();
        }
        let mut r: StrMap<V> = StrMap::new();
        let mut i: usize = 0;
        while i < self.len()
            invariant
                self.wf(),
                i <= self.key_seq().len(),
                r.wf(),
                r.key_seq() == self.key_seq().take(i as int),
                forall|j: int|
                    0 <= j < i ==> #[trigger] r.value_at(j).deep_view() == self.value_at(
                        j,
                    ).deep_view(),
            decreases self.key_seq().len() - i,
        {
            let (k, v) = self.entry_at(i);
            let k2 = k.clone();
            let v2 = v.dup();
            proof {
                r.lemma_view_facts();
                assert(!r.key_seq().contains(k2@)) by {
                    if r.key_seq().contains(k2@) {
                        let j = choose|j: int| 0 <= j < r.key_seq().len() && r.key_seq()[j] == k2@;
                        self.lemma_key_seq_unique(j, i as int);
                    }
                }
            }
            r.push_new(k2, v2);
            i += 1;
            proof {
                assert(r.key_seq() =~= self.key_seq().take(i as int));
            }
        }
        proof {
            assert(r.key_seq() =~= self.key_seq());
            r.lemma_view_facts();
            self.lemma_view_facts();
            assert forall|k: Seq<char>| #[trigger] r@.dom().contains(k) implies r.deep_view()[k]
                == self.deep_view()[k] by {
                let j = r.index_of(k);
                assert(r.key_seq()[j] == k);
            }
            assert(r.deep_view() =~= self.deep_view());
        }
        r
    }
}

} // verus!
