//! Rebuilding the risk-derived indexes (`has_risk`, `cites`, `cited_by`,
//! `same_law` and the law placeholders) from the stored risk nodes alone.
use vstd::prelude::*;

use crate::deep_eq::entry_push_unique;
use crate::dup::Dup;
use crate::graph_types::{FindingRole, LawNode, RiskNode, RiskNodeView};
use crate::session_graph::{
    lemma_concat_contains, lemma_entry_pushed_has, lemma_pushed_nonempty, list_has, no_empty_lists,
    placeholder_law, push_each_into, push_into_each,
};
use crate::strmap::StrMap;
use crate::text::{char_count, distinct_seq, sorted_seq, sorted_unique, str_eq, to_owned_string};

verus! {

/// An index in canonical form: every list non-empty, sorted and without
/// repeats.
pub open spec fn canonical(m: Map<Seq<char>, Seq<Seq<char>>>) -> bool {
    forall|k: Seq<char>| #[trigger] m.dom().contains(k) ==> m[k].len() > 0 && sorted_seq(m[k]) && distinct_seq(m[k])
}

/// Risk `r` is stored and names clause `c`.
pub open spec fn clause_of(rv: Map<Seq<char>, RiskNodeView>, r: Seq<char>, c: Seq<char>) -> bool {
    rv.dom().contains(r) && rv[r].finding.clause_ids.contains(c)
}

/// Risk `r` is stored and cites `law`.
pub open spec fn cites_law(rv: Map<Seq<char>, RiskNodeView>, r: Seq<char>, law: Seq<char>) -> bool {
    rv.dom().contains(r) && rv[r].law_refs.contains(law)
}

/// Risk `r` is stored, is no hypothesis and cites `law`.
pub open spec fn backs_law(rv: Map<Seq<char>, RiskNodeView>, law: Seq<char>, r: Seq<char>) -> bool {
    cites_law(rv, r, law) && rv[r].finding.finding_role != FindingRole::Hypothesis
}

/// Some risk listed under `law` in `cb` names clause `c`.
pub open spec fn law_covers(rv: Map<Seq<char>, RiskNodeView>, cb: Map<Seq<char>, Seq<Seq<char>>>, law: Seq<char>, c: Seq<char>) -> bool {
    exists|r: Seq<char>| #[trigger] list_has(cb, law, r) && clause_of(rv, r, c)
}

/// Two different clauses named by risks listed under one law of `cb`.
pub open spec fn same_law_pair(rv: Map<Seq<char>, RiskNodeView>, cb: Map<Seq<char>, Seq<Seq<char>>>, c: Seq<char>, d: Seq<char>) -> bool {
    c != d && exists|law: Seq<char>| #[trigger] law_covers(rv, cb, law, c) && law_covers(rv, cb, law, d)
}

/// `r` is one of the first `n` keys of `ks`.
pub open spec fn in_prefix(ks: Seq<Seq<char>>, n: int, r: Seq<char>) -> bool {
    exists|j: int| 0 <= j < n && #[trigger] ks[j] == r
}

/// `laws` without the placeholder nodes of `keys`.
pub open spec fn drops_placeholder(laws: Map<Seq<char>, (Seq<char>, Seq<char>, Seq<char>)>, keys: Seq<Seq<char>>, k: Seq<char>) -> bool {
    keys.contains(k) && laws.dom().contains(k) && laws[k] == placeholder_law(k)
}

/// Builds `has_risk`, `cites` and `cited_by` from the stored risks.
pub fn index_risks(risks: &StrMap<RiskNode>) -> (r: (StrMap<Vec<String>>, StrMap<Vec<String>>, StrMap<Vec<String>>))
    requires
        risks.wf(),
    ensures
        r.0.wf(),
        r.1.wf(),
        r.2.wf(),
        no_empty_lists(r.0.deep_view()),
        no_empty_lists(r.1.deep_view()),
        no_empty_lists(r.2.deep_view()),
        forall|c: Seq<char>, x: Seq<char>| #[trigger] list_has(r.0.deep_view(), c, x) <==> clause_of(risks.deep_view(), x, c),
        forall|x: Seq<char>, law: Seq<char>| #[trigger] list_has(r.1.deep_view(), x, law) <==> cites_law(risks.deep_view(), x, law),
        forall|law: Seq<char>, x: Seq<char>| #[trigger] list_has(r.2.deep_view(), law, x) <==> backs_law(risks.deep_view(), law, x),
{
    let ghost rv = risks.deep_view();
    let ghost ks = risks.key_seq();
    proof {
        risks.lemma_view_facts();
    }
    let mut hr: StrMap<Vec<String>> = StrMap::new();
    let mut ci: StrMap<Vec<String>> = StrMap::new();
    let mut cb: StrMap<Vec<String>> = StrMap::new();
    let n = risks.len();
    let mut i: usize = 0;
    while i < n
        invariant
            risks.wf(),
            rv == risks.deep_view(),
            ks == risks.key_seq(),
            n == ks.len(),
            i <= n,
            hr.wf(),
            ci.wf(),
            cb.wf(),
            no_empty_lists(hr.deep_view()),
            no_empty_lists(ci.deep_view()),
            no_empty_lists(cb.deep_view()),
            forall|c: Seq<char>, x: Seq<char>| #[trigger] list_has(hr.deep_view(), c, x) <==> in_prefix(ks, i as int, x) && clause_of(rv, x, c),
            forall|x: Seq<char>, law: Seq<char>| #[trigger] list_has(ci.deep_view(), x, law) <==> in_prefix(ks, i as int, x) && cites_law(rv, x, law),
            forall|law: Seq<char>, x: Seq<char>| #[trigger] list_has(cb.deep_view(), law, x) <==> in_prefix(ks, i as int, x) && backs_law(rv, law, x),
        decreases n - i,
    {
        proof {
            risks.lemma_view_facts();
        }
        let (id, node) = risks.entry_at(i);
        let ghost idv = id@;
        proof {
            assert(ks.contains(idv));
            assert(risks@[idv] == risks.value_at(i as int));
            assert(rv[idv] == node.deep_view());
            assert forall|x: Seq<char>| #[trigger] in_prefix(ks, i + 1, x) <==> in_prefix(ks, i as int, x) || x == idv by {
                if in_prefix(ks, i + 1, x) {
                    let j = choose|j: int| 0 <= j < i + 1 && #[trigger] ks[j] == x;
                    if j < i {
                        assert(in_prefix(ks, i as int, x));
                    }
                }
                if in_prefix(ks, i as int, x) {
                    let j = choose|j: int| 0 <= j < i && #[trigger] ks[j] == x;
                    assert(0 <= j < i + 1);
                }
                if x == idv {
                    assert(ks[i as int] == x);
                }
            }
            assert(!in_prefix(ks, i as int, idv)) by {
                if in_prefix(ks, i as int, idv) {
                    let j = choose|j: int| 0 <= j < i && #[trigger] ks[j] == idv;
                    risks.lemma_key_seq_unique(j, i as int);
                }
            }
        }
        let ghost h0 = hr.deep_view();
        let ghost c0 = ci.deep_view();
        let ghost b0 = cb.deep_view();
        push_into_each(&mut hr, &node.finding.clause_ids, id.as_str());
        push_each_into(&mut ci, id.as_str(), &node.law_refs);
        let hyp = matches!(node.finding.finding_role, FindingRole::Hypothesis);
        if !hyp {
            push_into_each(&mut cb, &node.law_refs, id.as_str());
        }
        proof {
            assert forall|c: Seq<char>, x: Seq<char>| #[trigger] list_has(hr.deep_view(), c, x) <==> in_prefix(ks, i + 1, x) && clause_of(rv, x, c) by {
                if x == idv && clause_of(rv, x, c) {
                    let q = choose|q: int| 0 <= q < node.finding.clause_ids.deep_view().len() && node.finding.clause_ids.deep_view()[q] == c;
                    assert(list_has(hr.deep_view(), node.finding.clause_ids.deep_view()[q], idv));
                }
                if list_has(h0, c, x) {
                    assert(in_prefix(ks, i as int, x));
                }
            }
            assert forall|x: Seq<char>, law: Seq<char>| #[trigger] list_has(ci.deep_view(), x, law) <==> in_prefix(ks, i + 1, x) && cites_law(rv, x, law) by {
                if x == idv && cites_law(rv, x, law) {
                    let q = choose|q: int| 0 <= q < node.law_refs.deep_view().len() && node.law_refs.deep_view()[q] == law;
                    assert(list_has(ci.deep_view(), idv, node.law_refs.deep_view()[q]));
                }
                if list_has(c0, x, law) {
                    assert(in_prefix(ks, i as int, x));
                }
            }
            assert forall|law: Seq<char>, x: Seq<char>| #[trigger] list_has(cb.deep_view(), law, x) <==> in_prefix(ks, i + 1, x) && backs_law(rv, law, x) by {
                if x == idv && backs_law(rv, law, x) {
                    let q = choose|q: int| 0 <= q < node.law_refs.deep_view().len() && node.law_refs.deep_view()[q] == law;
                    assert(list_has(cb.deep_view(), node.law_refs.deep_view()[q], idv));
                }
                if list_has(b0, law, x) {
                    assert(in_prefix(ks, i as int, x));
                }
                if hyp {
                    assert(cb.deep_view() == b0);
                }
            }
        }
        i += 1;
    }
    proof {
        risks.lemma_view_facts();
        assert forall|x: Seq<char>| rv.dom().contains(x) implies #[trigger] in_prefix(ks, n as int, x) by {
            assert(ks.contains(x));
            let j = choose|j: int| 0 <= j < ks.len() && ks[j] == x;
            assert(ks[j] == x);
        }
    }
    (hr, ci, cb)
}

/// Sorts every list of `m` and drops repeats; the members stay.
pub fn sort_lists(m: &mut StrMap<Vec<String>>)
    requires
        old(m).wf(),
        no_empty_lists(old(m).deep_view()),
    ensures
        final(m).wf(),
        canonical(final(m).deep_view()),
        final(m).deep_view().dom() == old(m).deep_view().dom(),
        forall|k: Seq<char>, x: Seq<char>| #[trigger] list_has(final(m).deep_view(), k, x) <==> list_has(old(m).deep_view(), k, x),
{
    let ghost ks = old(m).key_seq();
    proof {
        old(m).lemma_view_facts();
        assert forall|j: int| 0 <= j < ks.len() implies #[trigger] old(m).value_at(j).deep_view().len() > 0 by {
            assert(ks.contains(ks[j]));
            assert(old(m)@.dom().contains(ks[j]));
            assert(old(m).deep_view().dom().contains(ks[j]));
            assert(old(m)@[ks[j]] == old(m).value_at(j));
            assert(old(m).deep_view()[ks[j]] == old(m).value_at(j).deep_view());
        }
    }
    let n = m.len();
    let mut i: usize = 0;
    while i < n
        invariant
            m.wf(),
            ks == old(m).key_seq(),
            m.key_seq() == ks,
            n == ks.len(),
            i <= n,
            forall|j: int| 0 <= j < n ==> #[trigger] m.value_at(j).deep_view().len() > 0,
            forall|j: int| 0 <= j < i ==> sorted_seq(#[trigger] m.value_at(j).deep_view()) && distinct_seq(m.value_at(j).deep_view()),
            forall|j: int, x: Seq<char>| 0 <= j < n ==> (#[trigger] m.value_at(j).deep_view().contains(x) <==> old(m).value_at(j).deep_view().contains(x)),
        decreases n - i,
    {
        let (_k, list) = m.entry_at(i);
        let ghost lv = list.deep_view();
        let sorted = sorted_unique(list.dup());
        proof {
            assert(lv.len() > 0);
            assert(lv.contains(lv[0]));
            assert(sorted.deep_view().contains(lv[0]));
        }
        m.set_at(i, sorted);
        i += 1;
    }
    proof {
        m.lemma_view_facts();
        old(m).lemma_view_facts();
        assert(m.deep_view().dom() =~= old(m).deep_view().dom());
        assert forall|k: Seq<char>| #[trigger] m.deep_view().dom().contains(k) implies m.deep_view()[k].len() > 0 && sorted_seq(m.deep_view()[k]) && distinct_seq(m.deep_view()[k]) by {
            let j = choose|j: int| 0 <= j < ks.len() && ks[j] == k;
            assert(m@[k] == m.value_at(j));
        }
        assert forall|k: Seq<char>, x: Seq<char>| #[trigger] list_has(m.deep_view(), k, x) <==> list_has(old(m).deep_view(), k, x) by {
            if m.deep_view().dom().contains(k) {
                let j = choose|j: int| 0 <= j < ks.len() && ks[j] == k;
                assert(m@[k] == m.value_at(j));
                assert(old(m)@[k] == old(m).value_at(j));
                assert(m.value_at(j).deep_view().contains(x) <==> old(m).value_at(j).deep_view().contains(x));
            }
        }
    }
}

/// The strings of `v` other than `x`.
pub fn strings_without(v: &Vec<String>, x: &str) -> (r: Vec<String>)
    ensures
        forall|y: Seq<char>| #[trigger] r.deep_view().contains(y) <==> v.deep_view().contains(y) && y != x@,
{
    let mut out: Vec<String> = Vec::new();
    let mut i: usize = 0;
    while i < v.len()
        invariant
            i <= v@.len(),
            forall|y: Seq<char>| #[trigger] out.deep_view().contains(y) <==> v.deep_view().take(i as int).contains(y) && y != x@,
        decreases v@.len() - i,
    {
        let ghost o0 = out.deep_view();
        let ghost e = v.deep_view()[i as int];
        proof {
            assert(e == v@[i as int]@);
            assert(v.deep_view().take(i + 1) =~= v.deep_view().take(i as int) + seq![e]);
            lemma_concat_contains(v.deep_view().take(i as int), seq![e]);
            assert(seq![e][0] == e);
        }
        if !str_eq(v[i].as_str(), x) {
            out.push(v[i].clone());
            proof {
                assert(out.deep_view() =~= o0 + seq![e]);
                lemma_concat_contains(o0, seq![e]);
            }
        }
        i += 1;
    }
    proof {
        assert(v.deep_view().take(v@.len() as int) =~= v.deep_view());
    }
    out
}

/// The clauses named by the stored risks of `rs`, without repeats.
pub fn clauses_of(risks: &StrMap<RiskNode>, rs: &Vec<String>) -> (r: Vec<String>)
    requires
        risks.wf(),
    ensures
        forall|c: Seq<char>| #[trigger] r.deep_view().contains(c) <==> exists|x: Seq<char>| #[trigger] rs.deep_view().contains(x) && clause_of(risks.deep_view(), x, c),
{
    let ghost rv = risks.deep_view();
    let mut out: Vec<String> = Vec::new();
    let mut i: usize = 0;
    while i < rs.len()
        invariant
            risks.wf(),
            rv == risks.deep_view(),
            i <= rs@.len(),
            forall|c: Seq<char>| #[trigger] out.deep_view().contains(c) <==> exists|x: Seq<char>| #[trigger] rs.deep_view().take(i as int).contains(x) && clause_of(rv, x, c),
        decreases rs@.len() - i,
    {
        let ghost o0 = out.deep_view();
        let ghost e = rs.deep_view()[i as int];
        proof {
            assert(e == rs@[i as int]@);
            assert(rs.deep_view().take(i + 1) =~= rs.deep_view().take(i as int) + seq![e]);
            lemma_concat_contains(rs.deep_view().take(i as int), seq![e]);
            assert(seq![e][0] == e);
        }
        match risks.get(rs[i].as_str()) {
            Some(node) => {
                proof {
                    assert(rv[e] == node.deep_view());
                }
                let ids = &node.finding.clause_ids;
                let mut k: usize = 0;
                while k < ids.len()
                    invariant
                        k <= ids@.len(),
                        forall|c: Seq<char>| #[trigger] out.deep_view().contains(c) <==> o0.contains(c) || ids.deep_view().take(k as int).contains(c),
                    decreases ids@.len() - k,
                {
                    let ghost o1 = out.deep_view();
                    let ghost cid = ids.deep_view()[k as int];
                    proof {
                        assert(cid == ids@[k as int]@);
                        assert(ids.deep_view().take(k + 1) =~= ids.deep_view().take(k as int) + seq![cid]);
                        lemma_concat_contains(ids.deep_view().take(k as int), seq![cid]);
                        assert(seq![cid][0] == cid);
                    }
                    out.push(ids[k].clone());
                    proof {
                        assert(out.deep_view() =~= o1 + seq![cid]);
                        lemma_concat_contains(o1, seq![cid]);
                    }
                    k += 1;
                }
                proof {
                    assert(ids.deep_view().take(ids@.len() as int) =~= ids.deep_view());
                    assert forall|c: Seq<char>| #[trigger] out.deep_view().contains(c) <==> exists|x: Seq<char>| #[trigger] rs.deep_view().take(i + 1).contains(x) && clause_of(rv, x, c) by {
                        if out.deep_view().contains(c) && !o0.contains(c) {
                            assert(ids.deep_view().contains(c));
                            assert(rs.deep_view().take(i + 1)[i as int] == e);
                            assert(rs.deep_view().take(i + 1).contains(e) && clause_of(rv, e, c));
                        }
                        if o0.contains(c) {
                            let x = choose|x: Seq<char>| #[trigger] rs.deep_view().take(i as int).contains(x) && clause_of(rv, x, c);
                            let q = choose|q: int| 0 <= q < i && rs.deep_view().take(i as int)[q] == x;
                            assert(rs.deep_view().take(i + 1)[q] == x);
                            assert(rs.deep_view().take(i + 1).contains(x));
                        }
                        if exists|x: Seq<char>| #[trigger] rs.deep_view().take(i + 1).contains(x) && clause_of(rv, x, c) {
                            let x = choose|x: Seq<char>| #[trigger] rs.deep_view().take(i + 1).contains(x) && clause_of(rv, x, c);
                            if !rs.deep_view().take(i as int).contains(x) {
                                assert((rs.deep_view().take(i as int) + seq![e]).contains(x));
                                assert(seq![e].contains(x));
                                let q = choose|q: int| 0 <= q < 1 && seq![e][q] == x;
                                assert(x == e);
                                assert(ids.deep_view().contains(c));
                            } else {
                                assert(o0.contains(c));
                            }
                        }
                    }
                }
            },
            None => {
                proof {
                    assert forall|c: Seq<char>| #[trigger] out.deep_view().contains(c) <==> exists|x: Seq<char>| #[trigger] rs.deep_view().take(i + 1).contains(x) && clause_of(rv, x, c) by {
                        if exists|x: Seq<char>| #[trigger] rs.deep_view().take(i + 1).contains(x) && clause_of(rv, x, c) {
                            let x = choose|x: Seq<char>| #[trigger] rs.deep_view().take(i + 1).contains(x) && clause_of(rv, x, c);
                            if !rs.deep_view().take(i as int).contains(x) {
                                assert((rs.deep_view().take(i as int) + seq![e]).contains(x));
                                assert(seq![e].contains(x));
                                let q = choose|q: int| 0 <= q < 1 && seq![e][q] == x;
                                assert(x == e);
                            }
                        }
                        if out.deep_view().contains(c) {
                            let x = choose|x: Seq<char>| #[trigger] rs.deep_view().take(i as int).contains(x) && clause_of(rv, x, c);
                            let q = choose|q: int| 0 <= q < i && rs.deep_view().take(i as int)[q] == x;
                            assert(rs.deep_view().take(i + 1)[q] == x);
                            assert(rs.deep_view().take(i + 1).contains(x));
                        }
                    }
                }
            },
        }
        i += 1;
    }
    proof {
        assert(rs.deep_view().take(rs@.len() as int) =~= rs.deep_view());
    }
    out
}

/// Links every two different clauses named by risks listed under one law of
/// `cb`, in both directions.
pub fn same_law_index(risks: &StrMap<RiskNode>, cb: &StrMap<Vec<String>>) -> (r: StrMap<Vec<String>>)
    requires
        risks.wf(),
        cb.wf(),
    ensures
        r.wf(),
        no_empty_lists(r.deep_view()),
        forall|c: Seq<char>, d: Seq<char>| #[trigger] list_has(r.deep_view(), c, d) <==> same_law_pair(risks.deep_view(), cb.deep_view(), c, d),
{
    let ghost rv = risks.deep_view();
    let ghost cbv = cb.deep_view();
    let ghost ks = cb.key_seq();
    proof {
        cb.lemma_view_facts();
    }
    let mut sl: StrMap<Vec<String>> = StrMap::new();
    let n = cb.len();
    let mut i: usize = 0;
    while i < n
        invariant
            risks.wf(),
            cb.wf(),
            rv == risks.deep_view(),
            cbv == cb.deep_view(),
            ks == cb.key_seq(),
            n == ks.len(),
            i <= n,
            sl.wf(),
            no_empty_lists(sl.deep_view()),
            forall|c: Seq<char>, d: Seq<char>| #[trigger] list_has(sl.deep_view(), c, d) <==> c != d && exists|j: int|
                0 <= j < i && #[trigger] law_covers(rv, cbv, ks[j], c) && law_covers(rv, cbv, ks[j], d),
        decreases n - i,
    {
        proof {
            cb.lemma_view_facts();
        }
        let (law, rids) = cb.entry_at(i);
        let ghost lw = law@;
        proof {
            assert(ks.contains(lw));
            assert(cb@[lw] == cb.value_at(i as int));
            assert(cbv[lw] == rids.deep_view());
        }
        let chunks = clauses_of(risks, rids);
        proof {
            assert forall|c: Seq<char>| #[trigger] chunks.deep_view().contains(c) <==> law_covers(rv, cbv, lw, c) by {
                if chunks.deep_view().contains(c) {
                    let x = choose|x: Seq<char>| #[trigger] rids.deep_view().contains(x) && clause_of(rv, x, c);
                    assert(list_has(cbv, lw, x));
                }
                if law_covers(rv, cbv, lw, c) {
                    let x = choose|x: Seq<char>| #[trigger] list_has(cbv, lw, x) && clause_of(rv, x, c);
                    assert(rids.deep_view().contains(x));
                }
            }
        }
        let ghost sl0 = sl.deep_view();
        let mut p: usize = 0;
        while p < chunks.len()
            invariant
                p <= chunks@.len(),
                sl.wf(),
                no_empty_lists(sl.deep_view()),
                forall|c: Seq<char>, d: Seq<char>| #[trigger] list_has(sl.deep_view(), c, d) <==> list_has(sl0, c, d)
                    || (chunks.deep_view().take(p as int).contains(c) && chunks.deep_view().contains(d) && c != d),
            decreases chunks@.len() - p,
        {
            let ghost cp = chunks.deep_view()[p as int];
            proof {
                assert(cp == chunks@[p as int]@);
                assert(chunks.deep_view().take(p + 1) =~= chunks.deep_view().take(p as int) + seq![cp]);
                lemma_concat_contains(chunks.deep_view().take(p as int), seq![cp]);
                assert(seq![cp][0] == cp);
            }
            let others = strings_without(&chunks, chunks[p].as_str());
            let ghost s1 = sl.deep_view();
            push_each_into(&mut sl, chunks[p].as_str(), &others);
            proof {
                assert forall|c: Seq<char>, d: Seq<char>| #[trigger] list_has(sl.deep_view(), c, d) <==> list_has(sl0, c, d)
                    || (chunks.deep_view().take(p + 1).contains(c) && chunks.deep_view().contains(d) && c != d) by {
                    assert(chunks.deep_view().take(p + 1).contains(c) <==> chunks.deep_view().take(p as int).contains(c) || seq![cp].contains(c));
                    if list_has(s1, c, d) {
                        assert(list_has(sl.deep_view(), c, d));
                    }
                    if list_has(sl0, c, d) || (chunks.deep_view().take(p as int).contains(c) && chunks.deep_view().contains(d) && c != d) {
                        assert(list_has(s1, c, d));
                    }
                    if c == cp && chunks.deep_view().contains(d) && c != d {
                        assert(others.deep_view().contains(d));
                        let q = choose|q: int| 0 <= q < others.deep_view().len() && others.deep_view()[q] == d;
                        assert(list_has(sl.deep_view(), cp, others.deep_view()[q]));
                    }
                    if (seq![cp]).contains(c) {
                        let q = choose|q: int| 0 <= q < 1 && seq![cp][q] == c;
                    }
                    if c == cp {
                        assert(seq![cp][0] == c);
                    }
                    if list_has(sl.deep_view(), c, d) && !list_has(s1, c, d) {
                        assert(c == cp && others.deep_view().contains(d));
                    }
                }
            }
            p += 1;
        }
        proof {
            assert(chunks.deep_view().take(chunks@.len() as int) =~= chunks.deep_view());
            assert forall|c: Seq<char>, d: Seq<char>| #[trigger] list_has(sl.deep_view(), c, d) <==> c != d && exists|j: int|
                0 <= j < i + 1 && #[trigger] law_covers(rv, cbv, ks[j], c) && law_covers(rv, cbv, ks[j], d) by {
                if c != d && law_covers(rv, cbv, ks[i as int], c) && law_covers(rv, cbv, ks[i as int], d) {
                    assert(chunks.deep_view().contains(c));
                }
                if exists|j: int| 0 <= j < i + 1 && #[trigger] law_covers(rv, cbv, ks[j], c) && law_covers(rv, cbv, ks[j], d) {
                    let j = choose|j: int| 0 <= j < i + 1 && #[trigger] law_covers(rv, cbv, ks[j], c) && law_covers(rv, cbv, ks[j], d);
                    if j == i {
                        assert(chunks.deep_view().contains(c));
                        assert(chunks.deep_view().contains(d));
                    }
                }
            }
        }
        i += 1;
    }
    proof {
        cb.lemma_view_facts();
        assert forall|c: Seq<char>, d: Seq<char>| #[trigger] list_has(sl.deep_view(), c, d) <==> same_law_pair(rv, cbv, c, d) by {
            if same_law_pair(rv, cbv, c, d) {
                let law = choose|law: Seq<char>| #[trigger] law_covers(rv, cbv, law, c) && law_covers(rv, cbv, law, d);
                let x = choose|x: Seq<char>| #[trigger] list_has(cbv, law, x) && clause_of(rv, x, c);
                assert(cbv.dom().contains(law));
                assert(ks.contains(law));
                let j = choose|j: int| 0 <= j < ks.len() && ks[j] == law;
                assert(law_covers(rv, cbv, ks[j], c) && law_covers(rv, cbv, ks[j], d));
            }
        }
    }
    sl
}

/// Removes the placeholder node of every law of `keys` that has one.
pub fn remove_placeholder_laws(laws: &mut StrMap<LawNode>, keys: &Vec<String>)
    requires
        old(laws).wf(),
    ensures
        final(laws).wf(),
        forall|k: Seq<char>| #[trigger] final(laws).deep_view().dom().contains(k) <==> old(laws).deep_view().dom().contains(k)
            && !drops_placeholder(old(laws).deep_view(), keys.deep_view(), k),
        forall|k: Seq<char>| #[trigger] final(laws).deep_view().dom().contains(k) ==> final(laws).deep_view()[k] == old(laws).deep_view()[k],
{
    let ghost lv = old(laws).deep_view();
    let mut i: usize = 0;
    while i < keys.len()
        invariant
            laws.wf(),
            lv == old(laws).deep_view(),
            i <= keys@.len(),
            forall|k: Seq<char>| #[trigger] laws.deep_view().dom().contains(k) <==> lv.dom().contains(k)
                && !drops_placeholder(lv, keys.deep_view().take(i as int), k),
            forall|k: Seq<char>| #[trigger] laws.deep_view().dom().contains(k) ==> laws.deep_view()[k] == lv[k],
        decreases keys@.len() - i,
    {
        let ghost e = keys.deep_view()[i as int];
        let ghost l0 = laws.deep_view();
        proof {
            assert(e == keys@[i as int]@);
            assert(keys.deep_view().take(i + 1) =~= keys.deep_view().take(i as int) + seq![e]);
            lemma_concat_contains(keys.deep_view().take(i as int), seq![e]);
            assert(seq![e][0] == e);
        }
        let is_placeholder = match laws.get(keys[i].as_str()) {
            Some(node) => {
                proof {
                    assert(laws.deep_view()[e] == node.deep_view());
                }
                str_eq(node.law_id.as_str(), keys[i].as_str()) && str_eq(node.article_no.as_str(), keys[i].as_str())
                    && char_count(node.title.as_str()) == 0
            },
            None => false,
        };
        if is_placeholder {
            laws.remove(keys[i].as_str());
            proof {
                assert(laws.deep_view() =~= l0.remove(e));
            }
        }
        proof {
            assert forall|k: Seq<char>| #[trigger] laws.deep_view().dom().contains(k) <==> lv.dom().contains(k)
                && !drops_placeholder(lv, keys.deep_view().take(i + 1), k) by {
                if (seq![e]).contains(k) {
                    let q = choose|q: int| 0 <= q < 1 && seq![e][q] == k;
                }
                if k != e {
                    assert(keys.deep_view().take(i + 1).contains(k) <==> keys.deep_view().take(i as int).contains(k));
                    if is_placeholder {
                        assert(laws.deep_view().dom().contains(k) <==> l0.dom().contains(k));
                    }
                } else {
                    assert(keys.deep_view().take(i + 1).contains(e));
                    if l0.dom().contains(e) {
                        assert(l0[e] == lv[e]);
                        if is_placeholder {
                            assert(l0[e].2 =~= Seq::<char>::empty());
                            assert(l0[e] == placeholder_law(e));
                            assert(!laws.deep_view().dom().contains(e));
                        } else {
                            if lv[e] == placeholder_law(e) {
                                assert(l0[e].2.len() == 0);
                            }
                            assert(!drops_placeholder(lv, keys.deep_view().take(i + 1), e));
                        }
                    } else {
                        if lv.dom().contains(e) {
                            assert(drops_placeholder(lv, keys.deep_view().take(i as int), e));
                        }
                    }
                }
            }
        }
        i += 1;
    }
    proof {
        assert(keys.deep_view().take(keys@.len() as int) =~= keys.deep_view());
    }
}

/// Writes the placeholder node of every law of `keys` that has no node.
pub fn add_placeholder_laws(laws: &mut StrMap<LawNode>, keys: &Vec<String>)
    requires
        old(laws).wf(),
    ensures
        final(laws).wf(),
        forall|k: Seq<char>| #[trigger] final(laws).deep_view().dom().contains(k) <==> old(laws).deep_view().dom().contains(k)
            || keys.deep_view().contains(k),
        forall|k: Seq<char>| #[trigger] final(laws).deep_view().dom().contains(k) ==> final(laws).deep_view()[k] == if old(laws).deep_view().dom().contains(k) {
            old(laws).deep_view()[k]
        } else {
            placeholder_law(k)
        },
{
    let ghost lv = old(laws).deep_view();
    let mut i: usize = 0;
    while i < keys.len()
        invariant
            laws.wf(),
            lv == old(laws).deep_view(),
            i <= keys@.len(),
            forall|k: Seq<char>| #[trigger] laws.deep_view().dom().contains(k) <==> lv.dom().contains(k)
                || keys.deep_view().take(i as int).contains(k),
            forall|k: Seq<char>| #[trigger] laws.deep_view().dom().contains(k) ==> laws.deep_view()[k] == if lv.dom().contains(k) {
                lv[k]
            } else {
                placeholder_law(k)
            },
        decreases keys@.len() - i,
    {
        let ghost e = keys.deep_view()[i as int];
        let ghost l0 = laws.deep_view();
        proof {
            assert(e == keys@[i as int]@);
            assert(keys.deep_view().take(i + 1) =~= keys.deep_view().take(i as int) + seq![e]);
            lemma_concat_contains(keys.deep_view().take(i as int), seq![e]);
            assert(seq![e][0] == e);
        }
        if !laws.contains_key(keys[i].as_str()) {
            proof {
                assert(!l0.dom().contains(e));
            }
            let node = LawNode { law_id: keys[i].clone(), article_no: keys[i].clone(), title: String::new() };
            let ghost nv = node.deep_view();
            laws.insert(keys[i].clone(), node);
            proof {
                assert(nv == placeholder_law(e));
                assert(laws.deep_view() =~= l0.insert(e, nv));
                assert(!lv.dom().contains(e));
            }
        }
        proof {
            assert forall|k: Seq<char>| #[trigger] laws.deep_view().dom().contains(k) <==> lv.dom().contains(k)
                || keys.deep_view().take(i + 1).contains(k) by {
                if (seq![e]).contains(k) {
                    let q = choose|q: int| 0 <= q < 1 && seq![e][q] == k;
                }
            }
        }
        i += 1;
    }
    proof {
        assert(keys.deep_view().take(keys@.len() as int) =~= keys.deep_view());
    }
}

/// The keys of `m`, by view: exactly the keys of its map.
pub fn key_list<V>(m: &StrMap<V>) -> (r: Vec<String>)
    requires
        m.wf(),
    ensures
        forall|k: Seq<char>| #[trigger] r.deep_view().contains(k) <==> m@.dom().contains(k),
{
    let r = m.keys();
    proof {
        m.lemma_view_facts();
        assert(r.deep_view() =~= m.key_seq());
    }
    r
}

/// Rebuilds every risk-derived index from `risks`: `has_risk`, `cites`,
/// `cited_by` and `same_law` are recomputed (sorted, without repeats), the
/// placeholder law nodes of the laws cited before are dropped and those of
/// the laws cited now are written; enriched law nodes stay.
pub fn rebuild_risk_indexes_parts(
    risks: &StrMap<RiskNode>,
    has_risk: &mut StrMap<Vec<String>>,
    cites: &mut StrMap<Vec<String>>,
    cited_by: &mut StrMap<Vec<String>>,
    same_law: &mut StrMap<Vec<String>>,
    laws: &mut StrMap<LawNode>,
)
    requires
        risks.wf(),
        old(cited_by).wf(),
        old(laws).wf(),
    ensures
        final(has_risk).wf(),
        final(cites).wf(),
        final(cited_by).wf(),
        final(same_law).wf(),
        final(laws).wf(),
        canonical(final(has_risk).deep_view()),
        canonical(final(cites).deep_view()),
        canonical(final(cited_by).deep_view()),
        canonical(final(same_law).deep_view()),
        forall|c: Seq<char>, x: Seq<char>| #[trigger] list_has(final(has_risk).deep_view(), c, x) <==> clause_of(risks.deep_view(), x, c),
        forall|x: Seq<char>, law: Seq<char>| #[trigger] list_has(final(cites).deep_view(), x, law) <==> cites_law(risks.deep_view(), x, law),
        forall|law: Seq<char>, x: Seq<char>| #[trigger] list_has(final(cited_by).deep_view(), law, x) <==> backs_law(risks.deep_view(), law, x),
        forall|c: Seq<char>, d: Seq<char>| #[trigger] list_has(final(same_law).deep_view(), c, d) <==> same_law_pair(risks.deep_view(), final(cited_by).deep_view(), c, d),
        forall|k: Seq<char>| #[trigger] final(laws).deep_view().dom().contains(k) <==> (old(laws).deep_view().dom().contains(k)
            && !(old(cited_by).deep_view().dom().contains(k) && old(laws).deep_view()[k] == placeholder_law(k)))
            || final(cited_by).deep_view().dom().contains(k),
        forall|k: Seq<char>| #[trigger] final(laws).deep_view().dom().contains(k) ==> final(laws).deep_view()[k] == if old(laws).deep_view().dom().contains(k)
            && !(old(cited_by).deep_view().dom().contains(k) && old(laws).deep_view()[k] == placeholder_law(k)) {
            old(laws).deep_view()[k]
        } else {
            placeholder_law(k)
        },
{
    let prev = key_list(cited_by);
    remove_placeholder_laws(laws, &prev);
    let ghost l1 = laws.deep_view();
    let (mut h, mut c, mut b) = index_risks(risks);
    sort_lists(&mut h);
    sort_lists(&mut c);
    sort_lists(&mut b);
    let mut sl = same_law_index(risks, &b);
    sort_lists(&mut sl);
    let ghost slv = sl.deep_view();
    let now = key_list(&b);
    add_placeholder_laws(laws, &now);
    proof {
        assert forall|k: Seq<char>| #[trigger] prev.deep_view().contains(k) <==> old(cited_by).deep_view().dom().contains(k) by {}
        assert forall|k: Seq<char>| #[trigger] now.deep_view().contains(k) <==> b.deep_view().dom().contains(k) by {}
    }
    *has_risk = h;
    *cites = c;
    *cited_by = b;
    *same_law = sl;
    proof {
        assert forall|c2: Seq<char>, d: Seq<char>| #[trigger] list_has(same_law.deep_view(), c2, d) <==> same_law_pair(risks.deep_view(), cited_by.deep_view(), c2, d) by {
            assert(list_has(slv, c2, d) <==> same_law_pair(risks.deep_view(), cited_by.deep_view(), c2, d)) by {
                assert forall|law: Seq<char>, e: Seq<char>| #[trigger] law_covers(risks.deep_view(), cited_by.deep_view(), law, e) == law_covers(risks.deep_view(), b.deep_view(), law, e) by {}
            }
        }
    }
}

} // verus!
