//! Equality by deep view, and the "push if absent" edge helpers built on it.
use vstd::prelude::*;

use crate::dup::Dup;
use crate::graph_types::{AgentId, LinkedChunk};
use crate::strmap::StrMap;
use crate::text::str_eq;

verus! {

/// Equality of deep views.
pub trait DeepEq: DeepView + Sized {
    fn deep_eq(&self, other: &Self) -> (r: bool)
        ensures
            r == (self.deep_view() == other.deep_view()),
    ;
}

impl DeepEq for String {
    fn deep_eq(&self, other: &Self) -> (r: bool) {
        str_eq(self.as_str(), other.as_str())
    }
}

impl DeepEq for AgentId {
    fn deep_eq(&self, other: &Self) -> (r: bool) {
        *self == *other
    }
}

impl DeepEq for LinkedChunk {
    fn deep_eq(&self, other: &Self) -> (r: bool) {
        self.chunk_id.deep_eq(&other.chunk_id) && self.reason.deep_eq(&other.reason)
    }
}

impl<A: DeepEq, B: DeepEq> DeepEq for (A, B) {
    fn deep_eq(&self, other: &Self) -> (r: bool) {
        self.0.deep_eq(&other.0) && self.1.deep_eq(&other.1)
    }
}

/// Whether some element of `v` has the deep view of `x`.
pub fn contains_deep<T: DeepEq>(v: &Vec<T>, x: &T) -> (r: bool)
    ensures
        r == v.deep_view().contains(x.deep_view()),
{
    let mut i: usize = 0;
    while i < v.len()
        invariant
            i <= v@.len(),
            forall|j: int| 0 <= j < i ==> v@[j].deep_view() != x.deep_view(),
        decreases v@.len() - i,
    {
        if v[i].deep_eq(x) {
            assert(v.deep_view()[i as int] == x.deep_view());
            return true;
        }
        i += 1;
    }
    assert(!v.deep_view().contains(x.deep_view())) by {
        if v.deep_view().contains(x.deep_view()) {
            let j = choose|j: int|
                0 <= j < v.deep_view().len() && v.deep_view()[j] == x.deep_view();
            assert(v@[j].deep_view() == x.deep_view());
        }
    }
    false
}

/// The list after a "push if absent" of `x`.
pub open spec fn pushed_unique<V>(s: Seq<V>, x: V) -> Seq<V> {
    if s.contains(x) {
        s
    } else {
        s.push(x)
    }
}

/// Appends `x` unless an element with the same deep view is present;
/// returns whether it appended.
pub fn push_unique<T: DeepEq>(v: &mut Vec<T>, x: T) -> (r: bool)
    ensures
        r == !old(v).deep_view().contains(x.deep_view()),
        final(v).deep_view() == pushed_unique(old(v).deep_view(), x.deep_view()),
{
    if contains_deep(v, &x) {
        false
    } else {
        let ghost xv = x.deep_view();
        v.push(x);
        assert(v.deep_view() =~= old(v).deep_view().push(xv));
        true
    }
}

/// The list stored under `k` after a "push if absent" of `x` into the
/// entry (a missing entry counts as empty).
pub open spec fn entry_pushed<V>(m: Map<Seq<char>, Seq<V>>, k: Seq<char>, x: V) -> Seq<V> {
    if m.dom().contains(k) {
        pushed_unique(m[k], x)
    } else {
        seq![x]
    }
}

/// Whether the entry `k` of `m` lacks `x` (a missing entry lacks everything).
pub open spec fn entry_lacks<V>(m: Map<Seq<char>, Seq<V>>, k: Seq<char>, x: V) -> bool {
    !m.dom().contains(k) || !m[k].contains(x)
}

/// `map.entry(k).or_default()` followed by a "push if absent" of `x`;
/// returns whether `x` was appended.
pub fn entry_push_unique<T: DeepEq + Dup>(m: &mut StrMap<Vec<T>>, k: &str, x: T) -> (r: bool)
    requires
        old(m).wf(),
    ensures
        final(m).wf(),
        r == entry_lacks(old(m).deep_view(), k@, x.deep_view()),
        final(m).deep_view() == old(m).deep_view().insert(
            k@,
            entry_pushed(old(m).deep_view(), k@, x.deep_view()),
        ),
{
    proof {
        m.lemma_view_facts();
    }
    let ghost xv = x.deep_view();
    match m.find(k) {
        Some(i) => {
            let (_key, cur) = m.entry_at(i);
            let mut list = cur.dup();
            proof {
                assert(m@[k@] == m.value_at(i as int));
            }
            let changed = push_unique(&mut list, x);
            let ghost lv = list.deep_view();
            m.set_at(i, list);
            proof {
                assert(m.deep_view() =~= old(m).deep_view().insert(
                    k@,
                    entry_pushed(old(m).deep_view(), k@, xv),
                ));
            }
            changed
        },
        None => {
            let mut list: Vec<T> = Vec::new();
            list.push(x);
            proof {
                assert(list.deep_view() =~= seq![xv]);
            }
            m.insert(crate::text::to_owned_string(k), list);
            proof {
                assert(m.deep_view() =~= old(m).deep_view().insert(
                    k@,
                    entry_pushed(old(m).deep_view(), k@, xv),
                ));
            }
            true
        },
    }
}

} // verus!
