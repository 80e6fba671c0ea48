//! The session knowledge graph: the blackboard that every review agent reads
//! and writes during one review session.
//!
//! All graph data (nodes, edges, review attempts and versions) lives in one
//! `GraphSnapshot`; every write goes through `&mut self`, so a reader always
//! sees one consistent state. The pre-search cache and the scout flag are
//! run-time data outside the graph transaction.
use vstd::prelude::*;

use crate::deep_eq::{
    contains_deep, entry_lacks, entry_push_unique, entry_pushed, push_unique, pushed_unique, DeepEq,
};
use crate::dup::Dup;
use crate::graph_types::{
    AgentId, AgentNode, CaseNode, ChunkNode, ClauseContext, FindingRole, FindingState,
    FindingTransition, GraphCommit, LawNode, LinkedChunk, ReviewAttempt, ReviewAttemptErrorCode,
    ReviewAttemptOutcome, ReviewAttemptStatus, RiskFinding, RiskNode, SearchCacheEntry,
    VersionedClauseContext,
};
use crate::risk_index::{in_prefix, rebuild_risk_indexes_parts};
use crate::strmap::StrMap;
use crate::text::{
    all_white, char_count, decimal, decimal_string, distinct_seq, is_blank, lex_le, push_char, push_str, sorted_seq,
    sorted_unique, str_eq, to_owned_string,
};

verus! {

/// `x + 1`, saturating at `u64::MAX`.
pub open spec fn sat_inc(x: u64) -> u64 {
    if x == u64::MAX {
        x
    } else {
        (x + 1) as u64
    }
}

/// The version recorded for chunk `k` (0 when none is).
pub open spec fn version_of(cv: Map<Seq<char>, u64>, k: Seq<char>) -> u64 {
    if cv.dom().contains(k) {
        cv[k]
    } else {
        0
    }
}

/// Chunk versions after bumping every chunk in `affected` once.
pub open spec fn bumped(cv: Map<Seq<char>, u64>, affected: Seq<Seq<char>>) -> Map<Seq<char>, u64> {
    Map::new(
        |k: Seq<char>| cv.dom().contains(k) || affected.contains(k),
        |k: Seq<char>|
            if affected.contains(k) {
                sat_inc(version_of(cv, k))
            } else {
                cv[k]
            },
    )
}

/// No chunk version and not the graph version went down from `a` to `b`.
pub open spec fn versions_monotone(a: &GraphSnapshot, b: &GraphSnapshot) -> bool {
    &&& a.graph_version <= b.graph_version
    &&& forall|k: Seq<char>|
        #[trigger] a.chunk_versions.deep_view().dom().contains(k) ==> version_of(
            a.chunk_versions.deep_view(),
            k,
        ) <= version_of(b.chunk_versions.deep_view(), k)
}

/// The whole graph: nodes, edges, review attempts and versions.
pub struct GraphSnapshot {
    pub chunks: StrMap<ChunkNode>,
    pub risks: StrMap<RiskNode>,
    /// chunk_id → risk_ids
    pub has_risk: StrMap<Vec<String>>,
    /// chunk_id → agents that completed a review of it
    pub reviewed_by: StrMap<Vec<AgentId>>,
    /// chunk_id → linked chunks
    pub linked_to: StrMap<Vec<LinkedChunk>>,
    /// risk_id → law references
    pub cites: StrMap<Vec<String>>,
    /// law reference → risk_ids
    pub cited_by: StrMap<Vec<String>>,
    /// chunk_id → (other chunk_id, reason)
    pub contradicts: StrMap<Vec<(String, String)>>,
    /// chunk_id → chunks whose risks cite a common law (audit view)
    pub same_law: StrMap<Vec<String>>,
    pub agents: Vec<AgentNode>,
    pub laws: StrMap<LawNode>,
    pub cases: StrMap<CaseNode>,
    pub review_attempts: StrMap<ReviewAttempt>,
    pub finding_transitions: Vec<FindingTransition>,
    pub graph_version: u64,
    pub chunk_versions: StrMap<u64>,
}

impl GraphSnapshot {
    /// Every map is well formed and no agent occurs twice.
    pub open spec fn wf(&self) -> bool {
        &&& self.chunks.wf()
        &&& self.risks.wf()
        &&& self.has_risk.wf()
        &&& self.reviewed_by.wf()
        &&& self.linked_to.wf()
        &&& self.cites.wf()
        &&& self.cited_by.wf()
        &&& self.contradicts.wf()
        &&& self.same_law.wf()
        &&& self.laws.wf()
        &&& self.cases.wf()
        &&& self.review_attempts.wf()
        &&& self.chunk_versions.wf()
        &&& forall|i: int, j: int|
            0 <= i < self.agents@.len() && 0 <= j < self.agents@.len() && i != j
                ==> self.agents@[i].agent_id != self.agents@[j].agent_id
    }

    /// An empty graph at version 0.
    pub fn empty() -> (g: Self)
        ensures
            g.wf(),
            g.graph_version == 0,
            g.chunks@ == Map::<Seq<char>, ChunkNode>::empty(),
            g.risks@ == Map::<Seq<char>, RiskNode>::empty(),
            g.has_risk@ == Map::<Seq<char>, Vec<String>>::empty(),
            g.reviewed_by@ == Map::<Seq<char>, Vec<AgentId>>::empty(),
            g.linked_to@ == Map::<Seq<char>, Vec<LinkedChunk>>::empty(),
            g.cites@ == Map::<Seq<char>, Vec<String>>::empty(),
            g.cited_by@ == Map::<Seq<char>, Vec<String>>::empty(),
            g.contradicts@ == Map::<Seq<char>, Vec<(String, String)>>::empty(),
            g.same_law@ == Map::<Seq<char>, Vec<String>>::empty(),
            g.agents@ == Seq::<AgentNode>::empty(),
            g.laws@ == Map::<Seq<char>, LawNode>::empty(),
            g.cases@ == Map::<Seq<char>, CaseNode>::empty(),
            g.review_attempts@ == Map::<Seq<char>, ReviewAttempt>::empty(),
            g.finding_transitions@ == Seq::<FindingTransition>::empty(),
            g.chunk_versions@ == Map::<Seq<char>, u64>::empty(),
    {
        GraphSnapshot {
            chunks: StrMap::new(),
            risks: StrMap::new(),
            has_risk: StrMap::new(),
            reviewed_by: StrMap::new(),
            linked_to: StrMap::new(),
            cites: StrMap::new(),
            cited_by: StrMap::new(),
            contradicts: StrMap::new(),
            same_law: StrMap::new(),
            agents: Vec::new(),
            laws: StrMap::new(),
            cases: StrMap::new(),
            review_attempts: StrMap::new(),
            finding_transitions: Vec::new(),
            graph_version: 0,
            chunk_versions: StrMap::new(),
        }
    }

    /// A copy with the same deep view of every part.
    pub fn dup_graph(&self) -> (r: Self)
        requires
            self.wf(),
        ensures
            r.wf(),
            same_graph(&r, self),
    {
        let r = GraphSnapshot {
            chunks: self.chunks.dup_map(),
            risks: self.risks.dup_map(),
            has_risk: self.has_risk.dup_map(),
            reviewed_by: self.reviewed_by.dup_map(),
            linked_to: self.linked_to.dup_map(),
            cites: self.cites.dup_map(),
            cited_by: self.cited_by.dup_map(),
            contradicts: self.contradicts.dup_map(),
            same_law: self.same_law.dup_map(),
            agents: self.agents.dup(),
            laws: self.laws.dup_map(),
            cases: self.cases.dup_map(),
            review_attempts: self.review_attempts.dup_map(),
            finding_transitions: self.finding_transitions.dup(),
            graph_version: self.graph_version,
            chunk_versions: self.chunk_versions.dup_map(),
        };
        proof {
            assert forall|i: int, j: int|
                0 <= i < r.agents@.len() && 0 <= j < r.agents@.len() && i != j implies r.agents@[i].agent_id
                    != r.agents@[j].agent_id by {
                assert(r.agents.deep_view().len() == self.agents.deep_view().len());
                assert(r.agents.deep_view()[i] == self.agents.deep_view()[i]);
                assert(r.agents.deep_view()[j] == self.agents.deep_view()[j]);
                assert(r.agents.deep_view()[i] == r.agents@[i].deep_view());
                assert(r.agents.deep_view()[j] == r.agents@[j].deep_view());
                assert(self.agents.deep_view()[i] == self.agents@[i].deep_view());
                assert(self.agents.deep_view()[j] == self.agents@[j].deep_view());
            }
        }
        r
    }

    /// The agent node of `id`, if one was written.
    pub fn agent(&self, id: AgentId) -> (r: Option<&AgentNode>)
        ensures
            match r {
                Some(a) => a.agent_id == id && self.agents@.contains(*a),
                None => forall|i: int|
                    0 <= i < self.agents@.len() ==> self.agents@[i].agent_id != id,
            },
    {
        let mut i: usize = 0;
        while i < self.agents.len()
            invariant
                i <= self.agents@.len(),
                forall|j: int| 0 <= j < i ==> self.agents@[j].agent_id != id,
            decreases self.agents@.len() - i,
        {
            if self.agents[i].agent_id == id {
                assert(self.agents@[i as int] == self.agents@[i as int]);
                return Some(&self.agents[i]);
            }
            i += 1;
        }
        None
    }
}

/// Two graphs with equal deep views of every part.
pub open spec fn same_graph(a: &GraphSnapshot, b: &GraphSnapshot) -> bool {
    &&& a.chunks.deep_view() == b.chunks.deep_view()
    &&& a.risks.deep_view() == b.risks.deep_view()
    &&& a.has_risk.deep_view() == b.has_risk.deep_view()
    &&& a.reviewed_by.deep_view() == b.reviewed_by.deep_view()
    &&& a.linked_to.deep_view() == b.linked_to.deep_view()
    &&& a.cites.deep_view() == b.cites.deep_view()
    &&& a.cited_by.deep_view() == b.cited_by.deep_view()
    &&& a.contradicts.deep_view() == b.contradicts.deep_view()
    &&& a.same_law.deep_view() == b.same_law.deep_view()
    &&& a.agents.deep_view() == b.agents.deep_view()
    &&& a.laws.deep_view() == b.laws.deep_view()
    &&& a.cases.deep_view() == b.cases.deep_view()
    &&& a.review_attempts.deep_view() == b.review_attempts.deep_view()
    &&& a.finding_transitions.deep_view() == b.finding_transitions.deep_view()
    &&& a.graph_version == b.graph_version
    &&& a.chunk_versions.deep_view() == b.chunk_versions.deep_view()
}

/// Bumps the graph version once and the version of every chunk named in
/// `affected` once (repeated names count once); returns the graph version.
pub fn bump_versions(state: &mut GraphSnapshot, affected: &Vec<String>) -> (r: u64)
    requires
        old(state).wf(),
    ensures
        final(state).wf(),
        r == final(state).graph_version,
        final(state).graph_version == sat_inc(old(state).graph_version),
        final(state).chunk_versions.deep_view() == bumped(
            old(state).chunk_versions.deep_view(),
            affected.deep_view(),
        ),
        versions_monotone(old(state), final(state)),
        same_except_versions(old(state), final(state)),
{
    state.graph_version = if state.graph_version == u64::MAX {
        u64::MAX
    } else {
        state.graph_version + 1
    };
    let ghost old_cv = old(state).chunk_versions.deep_view();
    let mut seen: Vec<String> = Vec::new();
    let mut i: usize = 0;
    while i < affected.len()
        invariant
            i <= affected@.len(),
            state.wf(),
            old_cv == old(state).chunk_versions.deep_view(),
            state.graph_version == sat_inc(old(state).graph_version),
            same_except_versions(old(state), state),
            forall|x: Seq<char>|
                #[trigger] seen.deep_view().contains(x) <==> affected.deep_view().take(
                    i as int,
                ).contains(x),
            state.chunk_versions.deep_view() == bumped(old_cv, affected.deep_view().take(i as int)),
        decreases affected@.len() - i,
    {
        let a = &affected[i];
        let ghost av = a@;
        let ghost pre = affected.deep_view().take(i as int);
        let ghost post = affected.deep_view().take(i + 1);
        proof {
            assert(post =~= pre.push(av));
            assert(affected.deep_view()[i as int] == av);
        }
        let ghost seen_before = seen.deep_view();
        let ghost cv0 = state.chunk_versions.deep_view();
        proof {
            assert(forall|x: Seq<char>| seen_before.contains(x) <==> pre.contains(x));
            assert forall|x: Seq<char>| #[trigger] post.contains(x) <==> (pre.contains(x) || x == av) by {
                if post.contains(x) {
                    let k = choose|k: int| 0 <= k < post.len() && post[k] == x;
                    if k < pre.len() {
                        assert(pre[k] == x);
                    }
                }
                if pre.contains(x) {
                    let k = choose|k: int| 0 <= k < pre.len() && pre[k] == x;
                    assert(post[k] == x);
                }
                if x == av {
                    assert(post[i as int] == av);
                }
            }
        }
        if !contains_deep(&seen, a) {
            let cur: u64 = match state.chunk_versions.get(a.as_str()) {
                Some(v) => *v,
                None => 0,
            };
            proof {
                assert(!pre.contains(av));
                assert(cur == version_of(cv0, av));
                assert(version_of(cv0, av) == version_of(old_cv, av));
            }
            let next: u64 = if cur == u64::MAX {
                u64::MAX
            } else {
                cur + 1
            };
            state.chunk_versions.insert(a.clone(), next);
            seen.push(a.clone());
            proof {
                assert(seen.deep_view() =~= seen_before.push(av));
                assert(state.chunk_versions.deep_view() =~= cv0.insert(av, next));
                assert(state.chunk_versions.deep_view() =~= bumped(old_cv, post));
                assert forall|x: Seq<char>| #[trigger]
                    seen.deep_view().contains(x) <==> post.contains(x) by {
                    if x == av {
                        assert(post[i as int] == av);
                        assert(seen.deep_view()[seen_before.len() as int] == av);
                    } else {
                        if seen.deep_view().contains(x) {
                            let j = choose|j: int|
                                0 <= j < seen.deep_view().len() && seen.deep_view()[j] == x;
                            assert(seen_before[j] == x);
                            assert(seen_before.contains(x));
                            let k = choose|k: int| 0 <= k < pre.len() && pre[k] == x;
                            assert(post[k] == x);
                        }
                        if post.contains(x) {
                            let k = choose|k: int| 0 <= k < post.len() && post[k] == x;
                            assert(k < pre.len());
                            assert(pre[k] == x);
                            assert(pre.contains(x));
                            let j = choose|j: int|
                                0 <= j < seen_before.len() && seen_before[j] == x;
                            assert(seen.deep_view()[j] == x);
                        }
                    }
                }
            }
        } else {
            proof {
                assert(pre.contains(av));
                assert(bumped(old_cv, post) =~= bumped(old_cv, pre));
                assert forall|x: Seq<char>| #[trigger]
                    pre.contains(x) <==> post.contains(x) by {
                    if pre.contains(x) {
                        let k = choose|k: int| 0 <= k < pre.len() && pre[k] == x;
                        assert(post[k] == x);
                    }
                    if post.contains(x) {
                        let k = choose|k: int| 0 <= k < post.len() && post[k] == x;
                        if k < pre.len() {
                            assert(pre[k] == x);
                        }
                    }
                }
            }
        }
        i += 1;
    }
    proof {
        assert(affected.deep_view().take(affected@.len() as int) =~= affected.deep_view());
    }
    state.graph_version
}

/// Everything but the versions is the same in `a` and `b`.
pub open spec fn same_except_versions(a: &GraphSnapshot, b: &GraphSnapshot) -> bool {
    &&& a.chunks.deep_view() == b.chunks.deep_view()
    &&& a.risks.deep_view() == b.risks.deep_view()
    &&& a.has_risk.deep_view() == b.has_risk.deep_view()
    &&& a.reviewed_by.deep_view() == b.reviewed_by.deep_view()
    &&& a.linked_to.deep_view() == b.linked_to.deep_view()
    &&& a.cites.deep_view() == b.cites.deep_view()
    &&& a.cited_by.deep_view() == b.cited_by.deep_view()
    &&& a.contradicts.deep_view() == b.contradicts.deep_view()
    &&& a.same_law.deep_view() == b.same_law.deep_view()
    &&& a.agents.deep_view() == b.agents.deep_view()
    &&& a.laws.deep_view() == b.laws.deep_view()
    &&& a.cases.deep_view() == b.cases.deep_view()
    &&& a.review_attempts.deep_view() == b.review_attempts.deep_view()
    &&& a.finding_transitions.deep_view() == b.finding_transitions.deep_view()
}

/// Part `f` of the graph (fields in declaration order, versions excluded) is
/// the same in `a` and `b`.
pub open spec fn keeps(a: &GraphSnapshot, b: &GraphSnapshot, f: int) -> bool {
    if f == 0 {
        a.chunks.deep_view() == b.chunks.deep_view()
    } else if f == 1 {
        a.risks.deep_view() == b.risks.deep_view()
    } else if f == 2 {
        a.has_risk.deep_view() == b.has_risk.deep_view()
    } else if f == 3 {
        a.reviewed_by.deep_view() == b.reviewed_by.deep_view()
    } else if f == 4 {
        a.linked_to.deep_view() == b.linked_to.deep_view()
    } else if f == 5 {
        a.cites.deep_view() == b.cites.deep_view()
    } else if f == 6 {
        a.cited_by.deep_view() == b.cited_by.deep_view()
    } else if f == 7 {
        a.contradicts.deep_view() == b.contradicts.deep_view()
    } else if f == 8 {
        a.same_law.deep_view() == b.same_law.deep_view()
    } else if f == 9 {
        a.agents.deep_view() == b.agents.deep_view()
    } else if f == 10 {
        a.laws.deep_view() == b.laws.deep_view()
    } else if f == 11 {
        a.cases.deep_view() == b.cases.deep_view()
    } else if f == 12 {
        a.review_attempts.deep_view() == b.review_attempts.deep_view()
    } else {
        a.finding_transitions.deep_view() == b.finding_transitions.deep_view()
    }
}

/// Field numbers of `GraphSnapshot` parts, for `unchanged_except`.
pub open spec fn f_chunks() -> int { 0 }
pub open spec fn f_risks() -> int { 1 }
pub open spec fn f_has_risk() -> int { 2 }
pub open spec fn f_reviewed_by() -> int { 3 }
pub open spec fn f_linked_to() -> int { 4 }
pub open spec fn f_cites() -> int { 5 }
pub open spec fn f_cited_by() -> int { 6 }
pub open spec fn f_contradicts() -> int { 7 }
pub open spec fn f_same_law() -> int { 8 }
pub open spec fn f_agents() -> int { 9 }
pub open spec fn f_laws() -> int { 10 }
pub open spec fn f_cases() -> int { 11 }
pub open spec fn f_review_attempts() -> int { 12 }
pub open spec fn f_transitions() -> int { 13 }

/// Every part of the graph outside `changed` (and apart from the versions)
/// is the same in `a` and `b`.
pub open spec fn unchanged_except(a: &GraphSnapshot, b: &GraphSnapshot, changed: Set<int>) -> bool {
    forall|f: int| 0 <= f < 14 && !changed.contains(f) ==> #[trigger] keeps(a, b, f)
}

/// The agent table after writing `node` (an earlier node of the same agent
/// is replaced in place).
pub open spec fn agents_after(agents: Seq<AgentNode>, node: AgentNode) -> Seq<(AgentId, Seq<char>, Seq<char>)> {
    let dv = Seq::new(agents.len(), |i: int| agents[i].deep_view());
    if exists|i: int| 0 <= i < agents.len() && agents[i].agent_id == node.agent_id {
        dv.update(
            choose|i: int| 0 <= i < agents.len() && agents[i].agent_id == node.agent_id,
            node.deep_view(),
        )
    } else {
        dv.push(node.deep_view())
    }
}

/// "R_" followed by `n` in decimal, zero-padded to three digits.
pub open spec fn risk_id_text(n: nat) -> Seq<char> {
    let d = decimal(n);
    let pad = if d.len() >= 3 {
        Seq::<char>::empty()
    } else {
        Seq::new((3 - d.len()) as nat, |i: int| '0')
    };
    seq!['R', '_'] + pad + d
}

/// Versions after a write that changed the graph (`changed`) on `direct`
/// chunks: the graph version and those chunks' versions go up by one; a
/// write that changed nothing leaves every version as it was.
pub open spec fn version_step(a: &GraphSnapshot, b: &GraphSnapshot, changed: bool, direct: Seq<Seq<char>>) -> bool {
    if changed {
        &&& b.graph_version == sat_inc(a.graph_version)
        &&& b.chunk_versions.deep_view() == bumped(a.chunk_versions.deep_view(), direct)
    } else {
        &&& b.graph_version == a.graph_version
        &&& b.chunk_versions.deep_view() == a.chunk_versions.deep_view()
    }
}

/// Clause map after inserting `cs` in order.
pub open spec fn chunks_inserted(m: Map<Seq<char>, <ChunkNode as DeepView>::V>, cs: Seq<ChunkNode>) -> Map<Seq<char>, <ChunkNode as DeepView>::V>
    decreases cs.len(),
{
    if cs.len() == 0 {
        m
    } else {
        chunks_inserted(m, cs.drop_last()).insert(cs.last().chunk_id@, cs.last().deep_view())
    }
}

/// The ids of `cs`, in order.
pub open spec fn chunk_ids(cs: Seq<ChunkNode>) -> Seq<Seq<char>> {
    Seq::new(cs.len(), |i: int| cs[i].chunk_id@)
}

/// Contradiction edges after writing `a → b` and `b → a` with `reason`.
pub open spec fn contradicts_after(m: Map<Seq<char>, Seq<(Seq<char>, Seq<char>)>>, a: Seq<char>, b: Seq<char>, reason: Seq<char>) -> Map<Seq<char>, Seq<(Seq<char>, Seq<char>)>> {
    let m1 = m.insert(a, entry_pushed(m, a, (b, reason)));
    m1.insert(b, entry_pushed(m1, b, (a, reason)))
}

/// Whether writing the contradiction edges `a → b`, `b → a` adds an edge.
pub open spec fn contradicts_changed(m: Map<Seq<char>, Seq<(Seq<char>, Seq<char>)>>, a: Seq<char>, b: Seq<char>, reason: Seq<char>) -> bool {
    let m1 = m.insert(a, entry_pushed(m, a, (b, reason)));
    entry_lacks(m, a, (b, reason)) || entry_lacks(m1, b, (a, reason))
}

/// The list stored under `k`, or the empty list.
pub open spec fn list_or_empty<V>(m: Map<Seq<char>, Seq<V>>, k: Seq<char>) -> Seq<V> {
    if m.dom().contains(k) {
        m[k]
    } else {
        Seq::empty()
    }
}

/// `x` is in the list stored under `k`.
pub open spec fn list_has<V>(m: Map<Seq<char>, Seq<V>>, k: Seq<char>, x: V) -> bool {
    m.dom().contains(k) && m[k].contains(x)
}

/// Risk `r` exists and is still in play (provisional or confirmed), so
/// agents see it.
pub open spec fn visible_risk(g: &GraphSnapshot, r: Seq<char>) -> bool {
    &&& g.risks.deep_view().dom().contains(r)
    &&& (g.risks.deep_view()[r].state == FindingState::Provisional || g.risks.deep_view()[r].state
        == FindingState::Confirmed)
}

/// Risk `r` is a visible reviewed finding (no hypothesis) that cites `law`
/// through both transactional indexes (`cites` and `cited_by`).
pub open spec fn law_link(g: &GraphSnapshot, r: Seq<char>, law: Seq<char>) -> bool {
    &&& visible_risk(g, r)
    &&& g.risks.deep_view()[r].finding.finding_role != FindingRole::Hypothesis
    &&& list_has(g.cites.deep_view(), r, law)
    &&& list_has(g.cited_by.deep_view(), law, r)
}

/// Clause `d` is a working same-law neighbour of clause `c`: some visible
/// finding indexed on `c` and some visible finding indexed on `d` cite the
/// same law.
pub open spec fn shares_law(g: &GraphSnapshot, c: Seq<char>, d: Seq<char>) -> bool {
    &&& c != d
    &&& exists|r1: Seq<char>, r2: Seq<char>, law: Seq<char>|
        #![trigger list_has(g.has_risk.deep_view(), c, r1), list_has(g.has_risk.deep_view(), d, r2), law_link(g, r1, law)]
        list_has(g.has_risk.deep_view(), c, r1) && list_has(g.has_risk.deep_view(), d, r2)
            && law_link(g, r1, law) && law_link(g, r2, law)
}

/// Clause `d` holds (in `has_risk`) a visible finding that cites `law`.
pub open spec fn holds_law(g: &GraphSnapshot, law: Seq<char>, d: Seq<char>) -> bool {
    exists|r: Seq<char>| #[trigger] list_has(g.has_risk.deep_view(), d, r) && law_link(g, r, law)
}

/// Findings of the risks listed in `rs` that agents see, in list order.
pub open spec fn visible_findings(g: &GraphSnapshot, rs: Seq<Seq<char>>) -> Seq<crate::graph_types::FindingView>
    decreases rs.len(),
{
    if rs.len() == 0 {
        Seq::empty()
    } else {
        let prev = visible_findings(g, rs.drop_last());
        if visible_risk(g, rs.last()) {
            prev.push(g.risks.deep_view()[rs.last()].finding)
        } else {
            prev
        }
    }
}

/// `ctx` is what an agent reads of clause `c` in graph `g`.
pub open spec fn context_of(g: &GraphSnapshot, c: Seq<char>, ctx: &ClauseContext) -> bool {
    &&& ctx.chunk_id@ == c
    &&& ctx.reviewed_by.deep_view() == list_or_empty(g.reviewed_by.deep_view(), c)
    &&& ctx.risks.deep_view() == visible_findings(g, list_or_empty(g.has_risk.deep_view(), c))
    &&& ctx.linked_chunks.deep_view() == list_or_empty(g.linked_to.deep_view(), c)
    &&& sorted_seq(ctx.same_law_chunks.deep_view())
    &&& distinct_seq(ctx.same_law_chunks.deep_view())
    &&& (forall|d: Seq<char>| #[trigger] ctx.same_law_chunks.deep_view().contains(d) <==> shares_law(g, c, d))
    &&& ctx.contradictions.deep_view() == list_or_empty(g.contradicts.deep_view(), c)
}

/// `s` without repeats, keeping first occurrences in order.
pub open spec fn dedup_seq<V>(s: Seq<V>) -> Seq<V>
    decreases s.len(),
{
    if s.len() == 0 {
        Seq::empty()
    } else {
        pushed_unique(dedup_seq(s.drop_last()), s.last())
    }
}

/// The findings of `fs` that are not "no risk" markers.
pub open spec fn real_findings(fs: Seq<RiskFinding>) -> Seq<RiskFinding> {
    fs.filter(|f: RiskFinding| !f.no_risk)
}

/// The provisional node a finding is stored as: clause ids and legal basis
/// without repeats, law references taken from the legal basis.
pub open spec fn provisional_node(f: crate::graph_types::FindingView) -> crate::graph_types::RiskNodeView {
    let nf = crate::graph_types::FindingView {
        clause_ids: dedup_seq(f.clause_ids),
        legal_basis: dedup_seq(f.legal_basis),
        ..f
    };
    crate::graph_types::RiskNodeView {
        finding: nf,
        law_refs: nf.legal_basis,
        state: FindingState::Provisional,
        merged_into: None,
        decision_reason: None,
    }
}

/// A batch of provisional findings is acceptable: every real finding has a
/// non-blank risk id and at least one clause id, and no risk id repeats.
pub open spec fn provisional_batch_ok(fs: Seq<RiskFinding>) -> bool {
    let reals = real_findings(fs);
    &&& forall|i: int| 0 <= i < reals.len() ==> !all_white(#[trigger] reals[i].risk_id@)
    &&& forall|i: int| 0 <= i < reals.len() ==> #[trigger] reals[i].clause_ids@.len() > 0
    &&& forall|i: int, j: int| 0 <= i < j < reals.len() ==> reals[i].risk_id@ != reals[j].risk_id@
}

/// Risk `id` is in a final state (confirmed, merged or rejected).
pub open spec fn terminal(g: &GraphSnapshot, id: Seq<char>) -> bool {
    g.risks.deep_view().dom().contains(id) && g.risks.deep_view()[id].state
        != FindingState::Provisional
}

/// A node the compatibility write paths accept: provisional, not merged
/// and without a decision reason.
pub open spec fn legacy_ok(n: crate::graph_types::RiskNodeView) -> bool {
    n.state == FindingState::Provisional && n.merged_into is None && n.decision_reason is None
}

/// No node of `nodes` clashes with a stored risk of the same id.
pub open spec fn no_conflict(g: &GraphSnapshot, nodes: Seq<crate::graph_types::RiskNodeView>) -> bool {
    forall|i: int|
        0 <= i < nodes.len() && #[trigger] g.risks.deep_view().dom().contains(nodes[i].finding.risk_id)
            ==> g.risks.deep_view()[nodes[i].finding.risk_id] == nodes[i]
}

/// The edge lists of `a` are kept in `b` and the stored risks of `a` are
/// kept unchanged in `b`.
pub open spec fn grows(a: &GraphSnapshot, b: &GraphSnapshot) -> bool {
    &&& forall|k: Seq<char>, x: Seq<char>| #[trigger] list_has(a.has_risk.deep_view(), k, x) ==> list_has(b.has_risk.deep_view(), k, x)
    &&& forall|k: Seq<char>, x: Seq<char>| #[trigger] list_has(a.cites.deep_view(), k, x) ==> list_has(b.cites.deep_view(), k, x)
    &&& forall|k: Seq<char>, x: Seq<char>| #[trigger] list_has(a.cited_by.deep_view(), k, x) ==> list_has(b.cited_by.deep_view(), k, x)
    &&& forall|k: Seq<char>, x: Seq<char>| #[trigger] list_has(a.same_law.deep_view(), k, x) ==> list_has(b.same_law.deep_view(), k, x)
    &&& forall|k: Seq<char>| #[trigger] a.laws.deep_view().dom().contains(k) ==> b.laws.deep_view().dom().contains(k)
    &&& forall|k: Seq<char>| #[trigger] a.risks.deep_view().dom().contains(k) ==> b.risks.deep_view().dom().contains(k) && b.risks.deep_view()[k] == a.risks.deep_view()[k]
}

/// Node `n` is stored and indexed: under its id, on each of its clauses,
/// and (unless it is a hypothesis) from each law it cites.
pub open spec fn node_indexed(g: &GraphSnapshot, n: crate::graph_types::RiskNodeView) -> bool {
    let id = n.finding.risk_id;
    &&& g.risks.deep_view().dom().contains(id)
    &&& forall|i: int| 0 <= i < n.finding.clause_ids.len() ==> #[trigger] list_has(g.has_risk.deep_view(), n.finding.clause_ids[i], id)
    &&& forall|i: int| 0 <= i < n.law_refs.len() ==> #[trigger] list_has(g.cites.deep_view(), id, n.law_refs[i])
    &&& n.finding.finding_role != FindingRole::Hypothesis ==> forall|i: int| 0 <= i < n.law_refs.len() ==> #[trigger] list_has(g.cited_by.deep_view(), n.law_refs[i], id)
    &&& n.finding.finding_role != FindingRole::Hypothesis ==> forall|i: int| 0 <= i < n.law_refs.len() ==> #[trigger] g.laws.deep_view().dom().contains(n.law_refs[i])
}

/// Every clause id is non-blank and names a clause of the graph.
pub open spec fn clause_refs_ok(g: &GraphSnapshot, ids: Seq<Seq<char>>) -> bool {
    forall|j: int| 0 <= j < ids.len() ==> !all_white(#[trigger] ids[j]) && g.chunks.deep_view().dom().contains(ids[j])
}

/// The placeholder law node written for a law reference.
pub open spec fn placeholder_law(law: Seq<char>) -> (Seq<char>, Seq<char>, Seq<char>) {
    (law, law, Seq::empty())
}

/// The law map `m` with a placeholder node for each law of `ls` that it
/// does not know yet (known laws keep their node).
pub open spec fn with_placeholders(
    m: Map<Seq<char>, (Seq<char>, Seq<char>, Seq<char>)>,
    ls: Seq<Seq<char>>,
) -> Map<Seq<char>, (Seq<char>, Seq<char>, Seq<char>)> {
    Map::new(
        |k: Seq<char>| m.dom().contains(k) || ls.contains(k),
        |k: Seq<char>| if m.dom().contains(k) { m[k] } else { placeholder_law(k) },
    )
}

/// The session knowledge graph of one review session.
pub struct SessionGraph {
    /// Graph data that must be read and written consistently.
    state: GraphSnapshot,
    /// Counter behind `next_risk_id`.
    risk_id_counter: u64,
    /// Whether the scout screening phase finished.
    scout_complete: bool,
    /// Pre-search results per chunk (run-time data, outside the graph).
    search_results: StrMap<Vec<SearchCacheEntry>>,
}

impl SessionGraph {
    /// The graph data.
    pub closed spec fn graph(&self) -> GraphSnapshot {
        self.state
    }

    /// How many risk ids were handed out.
    pub closed spec fn issued_risk_ids(&self) -> u64 {
        self.risk_id_counter
    }

    /// Whether the scout phase finished.
    pub closed spec fn scout_done(&self) -> bool {
        self.scout_complete
    }

    /// The pre-search cache.
    pub closed spec fn search_cache(&self) -> Map<Seq<char>, Seq<(Seq<char>, Seq<char>, Seq<char>, Seq<char>)>> {
        self.search_results.deep_view()
    }

    /// The graph and the cache are well formed.
    pub closed spec fn wf(&self) -> bool {
        self.state.wf() && self.search_results.wf()
    }

    /// An empty graph.
    pub fn new() -> (g: Self)
        ensures
            g.wf(),
            g.graph().graph_version == 0,
            g.graph().chunks@ == Map::<Seq<char>, ChunkNode>::empty(),
            g.graph().risks@ == Map::<Seq<char>, RiskNode>::empty(),
            g.graph().has_risk@ == Map::<Seq<char>, Vec<String>>::empty(),
            g.graph().reviewed_by@ == Map::<Seq<char>, Vec<AgentId>>::empty(),
            g.graph().linked_to@ == Map::<Seq<char>, Vec<LinkedChunk>>::empty(),
            g.graph().cites@ == Map::<Seq<char>, Vec<String>>::empty(),
            g.graph().cited_by@ == Map::<Seq<char>, Vec<String>>::empty(),
            g.graph().contradicts@ == Map::<Seq<char>, Vec<(String, String)>>::empty(),
            g.graph().same_law@ == Map::<Seq<char>, Vec<String>>::empty(),
            g.graph().agents@ == Seq::<AgentNode>::empty(),
            g.graph().laws@ == Map::<Seq<char>, LawNode>::empty(),
            g.graph().cases@ == Map::<Seq<char>, CaseNode>::empty(),
            g.graph().review_attempts@ == Map::<Seq<char>, ReviewAttempt>::empty(),
            g.graph().finding_transitions@ == Seq::<FindingTransition>::empty(),
            g.graph().chunk_versions@ == Map::<Seq<char>, u64>::empty(),
            g.issued_risk_ids() == 0,
            !g.scout_done(),
            g.search_cache() == Map::<Seq<char>, Seq<(Seq<char>, Seq<char>, Seq<char>, Seq<char>)>>::empty(),
    {
        let g = SessionGraph {
            state: GraphSnapshot::empty(),
            risk_id_counter: 0,
            scout_complete: false,
            search_results: StrMap::new(),
        };
        assert(g.search_results.deep_view() =~= Map::<
            Seq<char>,
            Seq<(Seq<char>, Seq<char>, Seq<char>, Seq<char>)>,
        >::empty());
        g
    }

    /// A fresh risk id: `R_001`, `R_002`, ... in call order.
    pub fn next_risk_id(&mut self) -> (r: String)
        requires
            old(self).issued_risk_ids() < u64::MAX,
        ensures
            r@ == risk_id_text((old(self).issued_risk_ids() + 1) as nat),
            final(self).issued_risk_ids() == old(self).issued_risk_ids() + 1,
            final(self).graph() == old(self).graph(),
            final(self).wf() == old(self).wf(),
            final(self).scout_done() == old(self).scout_done(),
            final(self).search_cache() == old(self).search_cache(),
    {
        self.risk_id_counter = self.risk_id_counter + 1;
        let n = self.risk_id_counter;
        let digits = decimal_string(n);
        let mut r = to_owned_string("R_");
        proof {
            reveal_strlit("R_");
            assert(r@ =~= seq!['R', '_']);
        }
        let ghost d = digits@;
        let ghost pad_len: int = if d.len() >= 3 { 0 } else { 3 - d.len() };
        let mut added: usize = 0;
        while added < 3 && char_count(digits.as_str()) + added < 3
            invariant
                added <= 3,
                d == digits@,
                d.len() + added <= 3 || added == 0,
                r@ == seq!['R', '_'] + Seq::new(added as nat, |i: int| '0'),
            decreases 3 - added,
        {
            push_char(&mut r, '0');
            added += 1;
            proof {
                assert(r@ =~= seq!['R', '_'] + Seq::new(added as nat, |i: int| '0'));
            }
        }
        proof {
            assert(added == pad_len);
        }
        push_str(&mut r, digits.as_str());
        proof {
            let pad = if d.len() >= 3 {
                Seq::<char>::empty()
            } else {
                Seq::new((3 - d.len()) as nat, |i: int| '0')
            };
            assert(Seq::new(added as nat, |i: int| '0') =~= pad);
        }
        r
    }

    /// Adds (or replaces) a clause node and bumps its version.
    pub fn add_chunk(&mut self, chunk: ChunkNode)
        requires
            old(self).wf(),
        ensures
            final(self).wf(),
            final(self).graph().chunks.deep_view() == old(self).graph().chunks.deep_view().insert(
                chunk.chunk_id@,
                chunk.deep_view(),
            ),
            unchanged_except(&old(self).graph(), &final(self).graph(), set![f_chunks()]),
            final(self).graph().graph_version == sat_inc(old(self).graph().graph_version),
            final(self).graph().chunk_versions.deep_view() == bumped(
                old(self).graph().chunk_versions.deep_view(),
                seq![chunk.chunk_id@],
            ),
            final(self).search_cache() == old(self).search_cache(),
            final(self).issued_risk_ids() == old(self).issued_risk_ids(),
            final(self).scout_done() == old(self).scout_done(),
    {
        let id = chunk.chunk_id.clone();
        let ghost cv = chunk.deep_view();
        self.state.chunks.insert(id.clone(), chunk);
        proof {
            assert(self.state.chunks.deep_view() =~= old(self).state.chunks.deep_view().insert(
                id@,
                cv,
            ));
        }
        let ghost mid = self.state;
        let affected = vec![id];
        proof {
            assert(affected.deep_view() =~= seq![chunk.chunk_id@]);
        }
        bump_versions(&mut self.state, &affected);
        proof {
            assert forall|f: int| 0 <= f < 14 && !set![f_chunks()].contains(f) implies #[trigger] keeps(
                &old(self).graph(),
                &self.graph(),
                f,
            ) by {
                assert(keeps(&mid, &self.state, f));
            }
        }
    }

    /// Adds (or replaces) clause nodes in order; bumps their versions once
    /// when the batch is not empty.
    pub fn add_chunks(&mut self, chunks: Vec<ChunkNode>)
        requires
            old(self).wf(),
        ensures
            final(self).wf(),
            final(self).graph().chunks.deep_view() == chunks_inserted(
                old(self).graph().chunks.deep_view(),
                chunks@,
            ),
            unchanged_except(&old(self).graph(), &final(self).graph(), set![f_chunks()]),
            chunks@.len() > 0 ==> final(self).graph().graph_version == sat_inc(
                old(self).graph().graph_version,
            ),
            chunks@.len() > 0 ==> final(self).graph().chunk_versions.deep_view() == bumped(
                old(self).graph().chunk_versions.deep_view(),
                chunk_ids(chunks@),
            ),
            chunks@.len() == 0 ==> final(self).graph().graph_version == old(
                self,
            ).graph().graph_version && final(self).graph().chunk_versions.deep_view() == old(
                self,
            ).graph().chunk_versions.deep_view(),
            final(self).search_cache() == old(self).search_cache(),
            final(self).issued_risk_ids() == old(self).issued_risk_ids(),
            final(self).scout_done() == old(self).scout_done(),
    {
        let ghost all = chunks@;
        let mut ids: Vec<String> = Vec::new();
        let mut rest = chunks;
        let mut i: usize = 0;
        let n = rest.len();
        proof {
            assert(rest@ =~= all.skip(0));
        }
        while rest.len() > 0
            invariant
                self.state.wf(),
                i <= n,
                n == all.len(),
                rest@ == all.skip(i as int),
                ids.deep_view() == chunk_ids(all.take(i as int)),
                self.state.chunks.deep_view() == chunks_inserted(
                    old(self).state.chunks.deep_view(),
                    all.take(i as int),
                ),
                unchanged_except(&old(self).state, &self.state, set![f_chunks()]),
                self.state.graph_version == old(self).state.graph_version,
                self.state.chunk_versions.deep_view() == old(self).state.chunk_versions.deep_view(),
                self.search_results == old(self).search_results,
                self.risk_id_counter == old(self).risk_id_counter,
                self.scout_complete == old(self).scout_complete,
            decreases rest@.len(),
        {
            let c = rest.remove(0);
            let ghost cv = c.deep_view();
            proof {
                assert(c == all[i as int]);
                assert(all.take(i + 1).drop_last() =~= all.take(i as int));
                assert(all.take(i + 1).last() == c);
                assert(chunk_ids(all.take(i + 1)) =~= chunk_ids(all.take(i as int)).push(c.chunk_id@));
            }
            ids.push(c.chunk_id.clone());
            let ghost st0 = self.state;
            self.state.chunks.insert(c.chunk_id.clone(), c);
            i += 1;
            proof {
                assert(ids.deep_view() =~= chunk_ids(all.take(i as int)));
                assert(self.state.chunks.deep_view() =~= st0.chunks.deep_view().insert(
                    all[i - 1].chunk_id@,
                    cv,
                ));
                assert(rest@ =~= all.skip(i as int));
                assert forall|f: int| 0 <= f < 14 && !set![f_chunks()].contains(f) implies #[trigger] keeps(
                    &old(self).state,
                    &self.state,
                    f,
                ) by {
                    assert(keeps(&old(self).state, &st0, f));
                }
            }
        }
        proof {
            assert(all.take(n as int) =~= all);
        }
        if ids.len() > 0 {
            let ghost mid = self.state;
            bump_versions(&mut self.state, &ids);
            proof {
                assert forall|f: int| 0 <= f < 14 && !set![f_chunks()].contains(f) implies #[trigger] keeps(
                    &old(self).graph(),
                    &self.graph(),
                    f,
                ) by {
                    assert(keeps(&old(self).state, &mid, f));
                }
            }
        }
    }

    /// Records that `agent` reviewed the clause (once per agent).
    pub fn add_reviewed_by(&mut self, chunk_id: &str, agent: AgentId)
        requires
            old(self).wf(),
        ensures
            final(self).wf(),
            final(self).graph().reviewed_by.deep_view() == old(
                self,
            ).graph().reviewed_by.deep_view().insert(
                chunk_id@,
                entry_pushed(old(self).graph().reviewed_by.deep_view(), chunk_id@, agent),
            ),
            unchanged_except(&old(self).graph(), &final(self).graph(), set![f_reviewed_by()]),
            version_step(
                &old(self).graph(),
                &final(self).graph(),
                entry_lacks(old(self).graph().reviewed_by.deep_view(), chunk_id@, agent),
                seq![chunk_id@],
            ),
            final(self).search_cache() == old(self).search_cache(),
            final(self).issued_risk_ids() == old(self).issued_risk_ids(),
            final(self).scout_done() == old(self).scout_done(),
    {
        let changed = entry_push_unique(&mut self.state.reviewed_by, chunk_id, agent);
        let ghost mid = self.state;
        if changed {
            self.bump_one(chunk_id);
        }
        proof {
            assert(keeps(&mid, &self.state, f_reviewed_by()));
            assert forall|f: int| 0 <= f < 14 && !set![f_reviewed_by()].contains(f) implies #[trigger] keeps(
                &old(self).graph(),
                &self.graph(),
                f,
            ) by {
                assert(keeps(&mid, &self.state, f));
            }
        }
    }

    /// Bumps the graph version and the version of one chunk.
    fn bump_one(&mut self, chunk_id: &str)
        requires
            old(self).wf(),
        ensures
            final(self).wf(),
            unchanged_except(&old(self).graph(), &final(self).graph(), Set::empty()),
            version_step(&old(self).graph(), &final(self).graph(), true, seq![chunk_id@]),
            final(self).search_cache() == old(self).search_cache(),
            final(self).issued_risk_ids() == old(self).issued_risk_ids(),
            final(self).scout_done() == old(self).scout_done(),
    {
        let affected = vec![to_owned_string(chunk_id)];
        proof {
            assert(affected.deep_view() =~= seq![chunk_id@]);
        }
        bump_versions(&mut self.state, &affected);
    }

    /// Adds a `linked_to` edge `from → to` (once per target and reason).
    pub fn add_linked_to(&mut self, from: &str, to: &str, reason: &str)
        requires
            old(self).wf(),
        ensures
            final(self).wf(),
            final(self).graph().linked_to.deep_view() == old(self).graph().linked_to.deep_view().insert(
                from@,
                entry_pushed(old(self).graph().linked_to.deep_view(), from@, (to@, reason@)),
            ),
            unchanged_except(&old(self).graph(), &final(self).graph(), set![f_linked_to()]),
            version_step(
                &old(self).graph(),
                &final(self).graph(),
                entry_lacks(old(self).graph().linked_to.deep_view(), from@, (to@, reason@)),
                seq![from@],
            ),
            final(self).search_cache() == old(self).search_cache(),
            final(self).issued_risk_ids() == old(self).issued_risk_ids(),
            final(self).scout_done() == old(self).scout_done(),
    {
        let link = LinkedChunk { chunk_id: to_owned_string(to), reason: to_owned_string(reason) };
        let changed = entry_push_unique(&mut self.state.linked_to, from, link);
        let ghost mid = self.state;
        if changed {
            self.bump_one(from);
        }
        proof {
            assert(keeps(&mid, &self.state, f_linked_to()));
            assert forall|f: int| 0 <= f < 14 && !set![f_linked_to()].contains(f) implies #[trigger] keeps(
                &old(self).graph(),
                &self.graph(),
                f,
            ) by {
                assert(keeps(&mid, &self.state, f));
            }
        }
    }

    /// Writes an agent node (replacing an earlier node of the same agent).
    pub fn add_agent(&mut self, agent: AgentNode)
        requires
            old(self).wf(),
        ensures
            final(self).wf(),
            final(self).graph().agents.deep_view() == agents_after(old(self).graph().agents@, agent),
            unchanged_except(&old(self).graph(), &final(self).graph(), set![f_agents()]),
            final(self).graph().graph_version == sat_inc(old(self).graph().graph_version),
            final(self).graph().chunk_versions.deep_view() == old(
                self,
            ).graph().chunk_versions.deep_view(),
            final(self).search_cache() == old(self).search_cache(),
            final(self).issued_risk_ids() == old(self).issued_risk_ids(),
            final(self).scout_done() == old(self).scout_done(),
    {
        let ghost node = agent;
        let ghost old_agents = self.state.agents@;
        let mut i: usize = 0;
        let mut found = false;
        while !found && i < self.state.agents.len()
            invariant
                i <= self.state.agents@.len(),
                self.state.agents@ == old_agents,
                node == agent,
                found ==> i < old_agents.len() && old_agents[i as int].agent_id == node.agent_id,
                forall|j: int| 0 <= j < i ==> old_agents[j].agent_id != node.agent_id,
            decreases self.state.agents@.len() - i + (if found { 0int } else { 1int }),
        {
            if self.state.agents[i].agent_id == agent.agent_id {
                found = true;
            } else {
                i += 1;
            }
        }
        let ghost dv = Seq::new(old_agents.len(), |k: int| old_agents[k].deep_view());
        if found {
            proof {
                let c = choose|k: int| 0 <= k < old_agents.len() && old_agents[k].agent_id == node.agent_id;
                assert(c == i);
            }
            self.state.agents.set(i, agent);
            proof {
                assert(self.state.agents.deep_view() =~= agents_after(old_agents, node));
                assert(self.state.wf());
            }
        } else {
            self.state.agents.push(agent);
            proof {
                assert(self.state.agents.deep_view() =~= agents_after(old_agents, node));
                assert(self.state.wf()) by {
                    assert forall|a: int, b: int|
                        0 <= a < self.state.agents@.len() && 0 <= b < self.state.agents@.len() && a
                            != b implies self.state.agents@[a].agent_id
                        != self.state.agents@[b].agent_id by {
                        if a < old_agents.len() && b < old_agents.len() {
                            assert(self.state.agents@[a] == old_agents[a]);
                            assert(self.state.agents@[b] == old_agents[b]);
                        } else if a < old_agents.len() {
                            assert(self.state.agents@[a] == old_agents[a]);
                        } else {
                            assert(self.state.agents@[b] == old_agents[b]);
                        }
                    }
                }
            }
        }
        let ghost mid = self.state;
        let affected: Vec<String> = Vec::new();
        bump_versions(&mut self.state, &affected);
        proof {
            assert(affected.deep_view() =~= Seq::<Seq<char>>::empty());
            assert(bumped(old(self).state.chunk_versions.deep_view(), affected.deep_view())
                =~= old(self).state.chunk_versions.deep_view());
            assert forall|f: int| 0 <= f < 14 && !set![f_agents()].contains(f) implies #[trigger] keeps(
                &old(self).graph(),
                &self.graph(),
                f,
            ) by {
                assert(keeps(&old(self).state, &mid, f));
            }
        }
    }

    /// Writes the contradiction edge in both directions (`a → b` and
    /// `b → a`, each once per partner and reason).
    pub fn add_contradicts(&mut self, chunk_a: &str, chunk_b: &str, reason: &str)
        requires
            old(self).wf(),
        ensures
            final(self).wf(),
            final(self).graph().contradicts.deep_view() == contradicts_after(
                old(self).graph().contradicts.deep_view(),
                chunk_a@,
                chunk_b@,
                reason@,
            ),
            unchanged_except(&old(self).graph(), &final(self).graph(), set![f_contradicts()]),
            version_step(
                &old(self).graph(),
                &final(self).graph(),
                contradicts_changed(old(self).graph().contradicts.deep_view(), chunk_a@, chunk_b@, reason@),
                seq![chunk_a@, chunk_b@],
            ),
            final(self).search_cache() == old(self).search_cache(),
            final(self).issued_risk_ids() == old(self).issued_risk_ids(),
            final(self).scout_done() == old(self).scout_done(),
    {
        let ghost m0 = self.state.contradicts.deep_view();
        let forward = entry_push_unique(
            &mut self.state.contradicts,
            chunk_a,
            (to_owned_string(chunk_b), to_owned_string(reason)),
        );
        let ghost m1 = self.state.contradicts.deep_view();
        let reverse = entry_push_unique(
            &mut self.state.contradicts,
            chunk_b,
            (to_owned_string(chunk_a), to_owned_string(reason)),
        );
        proof {
            if !forward {
                assert(m1 =~= m0);
            }
            if !reverse {
                assert(self.state.contradicts.deep_view() =~= m1);
            }
        }
        if forward || reverse {
            let affected = vec![to_owned_string(chunk_a), to_owned_string(chunk_b)];
            proof {
                assert(affected.deep_view() =~= seq![chunk_a@, chunk_b@]);
            }
            let ghost mid = self.state;
            bump_versions(&mut self.state, &affected);
            proof {
                assert forall|f: int| 0 <= f < 14 && !set![f_contradicts()].contains(f) implies #[trigger] keeps(
                    &old(self).graph(),
                    &self.graph(),
                    f,
                ) by {
                    assert(keeps(&old(self).state, &mid, f));
                }
            }
        }
        proof {
            assert(set![f_contradicts()].contains(f_contradicts()));
        }
    }

    /// The contradiction edges of a clause (empty when it has none).
    pub fn query_contradictions(&self, chunk_id: &str) -> (r: Vec<(String, String)>)
        requires
            self.wf(),
        ensures
            r.deep_view() == list_or_empty(self.graph().contradicts.deep_view(), chunk_id@),
    {
        match self.state.contradicts.get(chunk_id) {
            Some(v) => {
                let r = v.dup();
                proof {
                    assert(self.state.contradicts.deep_view()[chunk_id@] == v.deep_view());
                }
                r
            },
            None => {
                let r: Vec<(String, String)> = Vec::new();
                assert(r.deep_view() =~= Seq::<(Seq<char>, Seq<char>)>::empty());
                r
            },
        }
    }

    /// Stores the pre-search results of a clause (replacing earlier ones).
    pub fn cache_search_results(&mut self, chunk_id: &str, entries: Vec<SearchCacheEntry>)
        requires
            old(self).wf(),
        ensures
            final(self).wf(),
            final(self).search_cache() == old(self).search_cache().insert(
                chunk_id@,
                entries.deep_view(),
            ),
            final(self).graph() == old(self).graph(),
            final(self).issued_risk_ids() == old(self).issued_risk_ids(),
            final(self).scout_done() == old(self).scout_done(),
    {
        let ghost ev = entries.deep_view();
        self.search_results.insert(to_owned_string(chunk_id), entries);
        proof {
            assert(self.search_results.deep_view() =~= old(self).search_results.deep_view().insert(
                chunk_id@,
                ev,
            ));
        }
    }

    /// The pre-search results of a clause (empty when none were stored).
    pub fn get_search_results_for_clause(&self, chunk_id: &str) -> (r: Vec<SearchCacheEntry>)
        requires
            self.wf(),
        ensures
            r.deep_view() == list_or_empty(self.search_cache(), chunk_id@),
    {
        match self.search_results.get(chunk_id) {
            Some(v) => {
                let r = v.dup();
                proof {
                    assert(self.search_results.deep_view()[chunk_id@] == v.deep_view());
                }
                r
            },
            None => {
                let r: Vec<SearchCacheEntry> = Vec::new();
                assert(r.deep_view() =~= Seq::<(Seq<char>, Seq<char>, Seq<char>, Seq<char>)>::empty());
                r
            },
        }
    }

    /// Whether pre-search results were stored for a clause.
    pub fn has_search_results(&self, chunk_id: &str) -> (r: bool)
        requires
            self.wf(),
        ensures
            r == self.search_cache().dom().contains(chunk_id@),
    {
        self.search_results.contains_key(chunk_id)
    }

    /// Whether the scout phase finished.
    pub fn is_scout_complete(&self) -> (r: bool)
        ensures
            r == self.scout_done(),
    {
        self.scout_complete
    }

    /// Marks the scout phase finished.
    pub fn mark_scout_complete(&mut self)
        ensures
            final(self).scout_done(),
            final(self).graph() == old(self).graph(),
            final(self).wf() == old(self).wf(),
            final(self).search_cache() == old(self).search_cache(),
            final(self).issued_risk_ids() == old(self).issued_risk_ids(),
    {
        self.scout_complete = true;
    }

    /// Number of clause nodes.
    pub fn chunk_count(&self) -> (r: usize)
        requires
            self.wf(),
        ensures
            r == self.graph().chunks@.dom().len(),
    {
        proof {
            self.state.chunks.lemma_view_facts();
        }
        self.state.chunks.len()
    }

    /// Number of risk nodes.
    pub fn risk_count(&self) -> (r: usize)
        requires
            self.wf(),
        ensures
            r == self.graph().risks@.dom().len(),
    {
        proof {
            self.state.risks.lemma_view_facts();
        }
        self.state.risks.len()
    }

    /// A copy of the whole graph.
    pub fn snapshot(&self) -> (r: GraphSnapshot)
        requires
            self.wf(),
        ensures
            r.wf(),
            same_graph(&r, &self.graph()),
    {
        self.state.dup_graph()
    }

    /// The working same-law neighbours of a clause.
    pub fn query_same_law_edges(&self, chunk_id: &str) -> (r: Vec<String>)
        requires
            self.wf(),
        ensures
            sorted_seq(r.deep_view()),
            distinct_seq(r.deep_view()),
            forall|d: Seq<char>| #[trigger] r.deep_view().contains(d) <==> shares_law(&self.graph(), chunk_id@, d),
    {
        working_same_law(&self.state, chunk_id)
    }

    /// What the graph knows about a clause: who reviewed it, the risks agents
    /// see on it, its links, its same-law neighbours and its contradictions.
    pub fn query_clause_context(&self, chunk_id: &str) -> (r: ClauseContext)
        requires
            self.wf(),
        ensures
            context_of(&self.graph(), chunk_id@, &r),
    {
        build_clause_context(&self.state, chunk_id)
    }

    /// `None` when the clause is still at `known_version`; otherwise the
    /// clause's current version and context, read together.
    pub fn query_clause_context_since(&self, chunk_id: &str, known_version: Option<u64>) -> (r: Option<VersionedClauseContext>)
        requires
            self.wf(),
        ensures
            r is None <==> known_version == Some(version_of(self.graph().chunk_versions.deep_view(), chunk_id@)),
            match r {
                Some(v) => v.version == version_of(self.graph().chunk_versions.deep_view(), chunk_id@)
                    && context_of(&self.graph(), chunk_id@, &v.context),
                None => true,
            },
    {
        let version: u64 = match self.state.chunk_versions.get(chunk_id) {
            Some(v) => *v,
            None => 0,
        };
        match known_version {
            Some(k) => {
                if k == version {
                    return None;
                }
            },
            None => {},
        }
        Some(VersionedClauseContext { version, context: build_clause_context(&self.state, chunk_id) })
    }

    /// The clauses holding a visible finding that cites `law_ref`, sorted and
    /// without repeats.
    pub fn query_same_law_chunks(&self, law_ref: &str) -> (r: Vec<String>)
        requires
            self.wf(),
        ensures
            sorted_seq(r.deep_view()),
            distinct_seq(r.deep_view()),
            forall|d: Seq<char>| #[trigger] r.deep_view().contains(d) <==> holds_law(&self.graph(), law_ref@, d),
    {
        same_law_chunks_in(&self.state, law_ref)
    }
}

/// `d` is not the excluded clause.
pub open spec fn not_excluded(exclude: Option<&str>, d: Seq<char>) -> bool {
    match exclude {
        Some(e) => d != e@,
        None => true,
    }
}

/// Whether `r` is a visible finding citing `law` through both indexes.
pub fn law_linked(g: &GraphSnapshot, r: &str, law: &str) -> (b: bool)
    requires
        g.wf(),
    ensures
        b == law_link(g, r@, law@),
{
    let visible = match g.risks.get(r) {
        Some(node) => {
            proof {
                assert(g.risks.deep_view()[r@] == node.deep_view());
            }
            (matches!(node.state, FindingState::Provisional) || matches!(node.state, FindingState::Confirmed))
                && !matches!(node.finding.finding_role, FindingRole::Hypothesis)
        },
        None => false,
    };
    if !visible {
        return false;
    }
    let law_s = to_owned_string(law);
    let r_s = to_owned_string(r);
    let in_cites = match g.cites.get(r) {
        Some(list) => {
            proof {
                assert(g.cites.deep_view()[r@] == list.deep_view());
            }
            contains_deep(list, &law_s)
        },
        None => false,
    };
    let in_cited_by = match g.cited_by.get(law) {
        Some(list) => {
            proof {
                assert(g.cited_by.deep_view()[law@] == list.deep_view());
            }
            contains_deep(list, &r_s)
        },
        None => false,
    };
    in_cites && in_cited_by
}

/// Whether some element of `rs` is in `set` (both by view).
pub fn any_in(rs: &Vec<String>, set: &Vec<String>) -> (b: bool)
    ensures
        b == exists|i: int| 0 <= i < rs@.len() && #[trigger] set.deep_view().contains(rs.deep_view()[i]),
{
    let mut i: usize = 0;
    while i < rs.len()
        invariant
            i <= rs@.len(),
            forall|j: int| 0 <= j < i ==> !#[trigger] set.deep_view().contains(rs.deep_view()[j]),
        decreases rs@.len() - i,
    {
        if contains_deep(set, &rs[i]) {
            assert(rs.deep_view()[i as int] == rs@[i as int]@);
            return true;
        }
        i += 1;
    }
    false
}

/// The clauses (other than `exclude`) whose `has_risk` list holds a risk of
/// `risks`, sorted and without repeats.
pub fn chunks_holding(g: &GraphSnapshot, risks: &Vec<String>, exclude: Option<&str>) -> (r: Vec<String>)
    requires
        g.wf(),
    ensures
        sorted_seq(r.deep_view()),
        distinct_seq(r.deep_view()),
        forall|d: Seq<char>| #[trigger] r.deep_view().contains(d) <==> (not_excluded(exclude, d) && exists|x: Seq<char>|
            #[trigger] list_has(g.has_risk.deep_view(), d, x) && risks.deep_view().contains(x)),
{
    proof {
        g.has_risk.lemma_view_facts();
    }
    let mut out: Vec<String> = Vec::new();
    let mut i: usize = 0;
    while i < g.has_risk.len()
        invariant
            g.wf(),
            i <= g.has_risk.key_seq().len(),
            forall|d: Seq<char>| #[trigger] out.deep_view().contains(d) <==> (exists|j: int| 0 <= j < i
                && g.has_risk.key_seq()[j] == d && not_excluded(exclude, d) && exists|x: Seq<char>|
                #[trigger] g.has_risk.value_at(j).deep_view().contains(x) && risks.deep_view().contains(x)),
        decreases g.has_risk.key_seq().len() - i,
    {
        let (k, rs) = g.has_risk.entry_at(i);
        let hit = any_in(rs, risks);
        let skip = match exclude {
            Some(e) => str_eq(k.as_str(), e),
            None => false,
        };
        let ghost before = out.deep_view();
        if hit && !skip {
            out.push(k.clone());
            proof {
                assert(out.deep_view() =~= before.push(k@));
                assert forall|d: Seq<char>| #[trigger] out.deep_view().contains(d) <==> (exists|j: int| 0 <= j < i + 1
                    && g.has_risk.key_seq()[j] == d && not_excluded(exclude, d) && exists|x: Seq<char>|
                    #[trigger] g.has_risk.value_at(j).deep_view().contains(x) && risks.deep_view().contains(x)) by {
                    if d == k@ {
                        let ii = choose|ii: int| 0 <= ii < rs@.len() && #[trigger] risks.deep_view().contains(rs.deep_view()[ii]);
                        assert(g.has_risk.value_at(i as int).deep_view().contains(rs.deep_view()[ii]));
                        assert(out.deep_view()[before.len() as int] == d);
                    } else {
                        if out.deep_view().contains(d) {
                            let jj = choose|jj: int| 0 <= jj < out.deep_view().len() && out.deep_view()[jj] == d;
                            assert(before[jj] == d);
                            assert(before.contains(d));
                        }
                        if (exists|j: int| 0 <= j < i + 1
                            && g.has_risk.key_seq()[j] == d && not_excluded(exclude, d) && exists|x: Seq<char>|
                            #[trigger] g.has_risk.value_at(j).deep_view().contains(x) && risks.deep_view().contains(x)) {
                            let j = choose|j: int| 0 <= j < i + 1
                                && g.has_risk.key_seq()[j] == d && not_excluded(exclude, d) && exists|x: Seq<char>|
                                #[trigger] g.has_risk.value_at(j).deep_view().contains(x) && risks.deep_view().contains(x);
                            assert(j != i);
                            assert(before.contains(d));
                            let jj = choose|jj: int| 0 <= jj < before.len() && before[jj] == d;
                            assert(out.deep_view()[jj] == d);
                        }
                    }
                }
            }
        } else {
            proof {
                assert forall|d: Seq<char>| #[trigger] out.deep_view().contains(d) <==> (exists|j: int| 0 <= j < i + 1
                    && g.has_risk.key_seq()[j] == d && not_excluded(exclude, d) && exists|x: Seq<char>|
                    #[trigger] g.has_risk.value_at(j).deep_view().contains(x) && risks.deep_view().contains(x)) by {
                    if (exists|j: int| 0 <= j < i + 1
                        && g.has_risk.key_seq()[j] == d && not_excluded(exclude, d) && exists|x: Seq<char>|
                        #[trigger] g.has_risk.value_at(j).deep_view().contains(x) && risks.deep_view().contains(x)) {
                        let j = choose|j: int| 0 <= j < i + 1
                            && g.has_risk.key_seq()[j] == d && not_excluded(exclude, d) && exists|x: Seq<char>|
                            #[trigger] g.has_risk.value_at(j).deep_view().contains(x) && risks.deep_view().contains(x);
                        if j == i {
                            let x = choose|x: Seq<char>| #[trigger] g.has_risk.value_at(j).deep_view().contains(x) && risks.deep_view().contains(x);
                            let ii = choose|ii: int| 0 <= ii < rs.deep_view().len() && rs.deep_view()[ii] == x;
                            assert(risks.deep_view().contains(rs.deep_view()[ii]));
                            assert(false);
                        }
                    }
                }
            }
        }
        i += 1;
    }
    proof {
        assert forall|d: Seq<char>| #[trigger] out.deep_view().contains(d) <==> (not_excluded(exclude, d) && exists|x: Seq<char>|
            #[trigger] list_has(g.has_risk.deep_view(), d, x) && risks.deep_view().contains(x)) by {
            if out.deep_view().contains(d) {
                let j = choose|j: int| 0 <= j < g.has_risk.key_seq().len()
                    && g.has_risk.key_seq()[j] == d && not_excluded(exclude, d) && exists|x: Seq<char>|
                    #[trigger] g.has_risk.value_at(j).deep_view().contains(x) && risks.deep_view().contains(x);
                let x = choose|x: Seq<char>| #[trigger] g.has_risk.value_at(j).deep_view().contains(x) && risks.deep_view().contains(x);
                assert(g.has_risk.deep_view()[d] == g.has_risk.value_at(j).deep_view());
                assert(list_has(g.has_risk.deep_view(), d, x));
            }
            if not_excluded(exclude, d) && exists|x: Seq<char>| #[trigger] list_has(g.has_risk.deep_view(), d, x) && risks.deep_view().contains(x) {
                let x = choose|x: Seq<char>| #[trigger] list_has(g.has_risk.deep_view(), d, x) && risks.deep_view().contains(x);
                assert(g.has_risk@.dom().contains(d));
                let j = choose|j: int| 0 <= j < g.has_risk.key_seq().len() && g.has_risk.key_seq()[j] == d;
                assert(g.has_risk.deep_view()[d] == g.has_risk.value_at(j).deep_view());
                assert(g.has_risk.value_at(j).deep_view().contains(x));
            }
        }
    }
    sorted_unique(out)
}

/// The clauses holding a visible finding that cites `law_ref`.
pub fn same_law_chunks_in(g: &GraphSnapshot, law_ref: &str) -> (r: Vec<String>)
    requires
        g.wf(),
    ensures
        sorted_seq(r.deep_view()),
        distinct_seq(r.deep_view()),
        forall|d: Seq<char>| #[trigger] r.deep_view().contains(d) <==> holds_law(g, law_ref@, d),
{
    let vis = law_linked_risks(g, law_ref);
    let r = chunks_holding(g, &vis, None);
    proof {
        assert forall|d: Seq<char>| #[trigger] r.deep_view().contains(d) <==> holds_law(g, law_ref@, d) by {
            if r.deep_view().contains(d) {
                let x = choose|x: Seq<char>| #[trigger] list_has(g.has_risk.deep_view(), d, x) && vis.deep_view().contains(x);
                assert(law_link(g, x, law_ref@));
            }
            if holds_law(g, law_ref@, d) {
                let x = choose|x: Seq<char>| #[trigger] list_has(g.has_risk.deep_view(), d, x) && law_link(g, x, law_ref@);
                assert(vis.deep_view().contains(x));
            }
        }
    }
    r
}

/// The risks that `law_ref` is linked with (see `law_link`).
pub fn law_linked_risks(g: &GraphSnapshot, law_ref: &str) -> (r: Vec<String>)
    requires
        g.wf(),
    ensures
        forall|x: Seq<char>| #[trigger] r.deep_view().contains(x) <==> law_link(g, x, law_ref@),
{
    let mut vis: Vec<String> = Vec::new();
    match g.cited_by.get(law_ref) {
        Some(list) => {
            proof {
                assert(g.cited_by.deep_view()[law_ref@] == list.deep_view());
            }
            let mut i: usize = 0;
            while i < list.len()
                invariant
                    g.wf(),
                    i <= list@.len(),
                    g.cited_by.deep_view()[law_ref@] == list.deep_view(),
                    g.cited_by.deep_view().dom().contains(law_ref@),
                    forall|x: Seq<char>| #[trigger] vis.deep_view().contains(x) <==> (list.deep_view().take(i as int).contains(x) && law_link(g, x, law_ref@)),
                decreases list@.len() - i,
            {
                let ghost before = vis.deep_view();
                let ghost pre = list.deep_view().take(i as int);
                let ghost post = list.deep_view().take(i + 1);
                let ghost xi = list.deep_view()[i as int];
                proof {
                    assert(post =~= pre.push(xi));
                    assert forall|y: Seq<char>| #[trigger] post.contains(y) <==> (pre.contains(y) || y == xi) by {
                        if post.contains(y) {
                            let k = choose|k: int| 0 <= k < post.len() && post[k] == y;
                            if k < pre.len() {
                                assert(pre[k] == y);
                            }
                        }
                        if pre.contains(y) {
                            let k = choose|k: int| 0 <= k < pre.len() && pre[k] == y;
                            assert(post[k] == y);
                        }
                        if y == xi {
                            assert(post[i as int] == xi);
                        }
                    }
                }
                if law_linked(g, list[i].as_str(), law_ref) {
                    vis.push(list[i].clone());
                    proof {
                        assert(vis.deep_view() =~= before.push(xi));
                        assert forall|y: Seq<char>| #[trigger] vis.deep_view().contains(y) <==> (before.contains(y) || y == xi) by {
                            if vis.deep_view().contains(y) {
                                let k = choose|k: int| 0 <= k < vis.deep_view().len() && vis.deep_view()[k] == y;
                                if k < before.len() {
                                    assert(before[k] == y);
                                }
                            }
                            if before.contains(y) {
                                let k = choose|k: int| 0 <= k < before.len() && before[k] == y;
                                assert(vis.deep_view()[k] == y);
                            }
                            if y == xi {
                                assert(vis.deep_view()[before.len() as int] == xi);
                            }
                        }
                    }
                }
                i += 1;
            }
            proof {
                assert(list.deep_view().take(list@.len() as int) =~= list.deep_view());
                assert forall|x: Seq<char>| law_link(g, x, law_ref@) implies #[trigger] vis.deep_view().contains(x) by {
                    assert(list.deep_view().contains(x));
                }
            }
        },
        None => {
            proof {
                assert(vis.deep_view() =~= Seq::<Seq<char>>::empty());
            }
        },
    }
    vis
}

/// Appends copies of the strings of `src` to `dst`.
pub fn extend_strings(dst: &mut Vec<String>, src: &Vec<String>)
    ensures
        final(dst).deep_view() == old(dst).deep_view() + src.deep_view(),
{
    let mut i: usize = 0;
    while i < src.len()
        invariant
            i <= src@.len(),
            dst.deep_view() == old(dst).deep_view() + src.deep_view().take(i as int),
        decreases src@.len() - i,
    {
        let ghost before = dst.deep_view();
        dst.push(src[i].clone());
        i += 1;
        proof {
            assert(dst.deep_view() =~= before.push(src.deep_view()[i - 1]));
            assert(src.deep_view().take(i as int) =~= src.deep_view().take(i - 1).push(src.deep_view()[i - 1]));
            assert(dst.deep_view() =~= old(dst).deep_view() + src.deep_view().take(i as int));
        }
    }
    proof {
        assert(src.deep_view().take(src@.len() as int) =~= src.deep_view());
    }
}

/// The laws that some risk of `rs` is linked with.
pub fn laws_of_risks(g: &GraphSnapshot, rs: &Vec<String>) -> (r: Vec<String>)
    requires
        g.wf(),
    ensures
        forall|law: Seq<char>| #[trigger] r.deep_view().contains(law) <==> exists|i: int|
            0 <= i < rs@.len() && #[trigger] law_link(g, rs.deep_view()[i], law),
{
    let mut laws: Vec<String> = Vec::new();
    let mut i: usize = 0;
    while i < rs.len()
        invariant
            g.wf(),
            i <= rs@.len(),
            forall|law: Seq<char>| #[trigger] laws.deep_view().contains(law) <==> exists|j: int|
                0 <= j < i && #[trigger] law_link(g, rs.deep_view()[j], law),
        decreases rs@.len() - i,
    {
        let r1 = &rs[i];
        let ghost rv = r1@;
        proof {
            assert(rs.deep_view()[i as int] == rv);
        }
        match g.cites.get(r1.as_str()) {
            Some(list) => {
                proof {
                    assert(g.cites.deep_view()[rv] == list.deep_view());
                }
                let mut k: usize = 0;
                let ghost base = laws.deep_view();
                while k < list.len()
                    invariant
                        g.wf(),
                        k <= list@.len(),
                        i < rs@.len(),
                        rs.deep_view()[i as int] == rv,
                        r1@ == rv,
                        g.cites.deep_view().dom().contains(rv),
                        g.cites.deep_view()[rv] == list.deep_view(),
                        forall|law: Seq<char>| #[trigger] base.contains(law) <==> exists|j: int|
                            0 <= j < i && #[trigger] law_link(g, rs.deep_view()[j], law),
                        forall|law: Seq<char>| #[trigger] laws.deep_view().contains(law) <==> (base.contains(law)
                            || (list.deep_view().take(k as int).contains(law) && law_link(g, rv, law))),
                    decreases list@.len() - k,
                {
                    let ghost before = laws.deep_view();
                    let ghost lk = list.deep_view()[k as int];
                    let ghost pre = list.deep_view().take(k as int);
                    let ghost post = list.deep_view().take(k + 1);
                    proof {
                        assert(post =~= pre.push(lk));
                        assert forall|y: Seq<char>| #[trigger] post.contains(y) <==> (pre.contains(y) || y == lk) by {
                            if post.contains(y) {
                                let q = choose|q: int| 0 <= q < post.len() && post[q] == y;
                                if q < pre.len() {
                                    assert(pre[q] == y);
                                }
                            }
                            if pre.contains(y) {
                                let q = choose|q: int| 0 <= q < pre.len() && pre[q] == y;
                                assert(post[q] == y);
                            }
                            if y == lk {
                                assert(post[k as int] == lk);
                            }
                        }
                    }
                    if law_linked(g, r1.as_str(), list[k].as_str()) {
                        laws.push(list[k].clone());
                        proof {
                            assert(laws.deep_view() =~= before.push(lk));
                            assert forall|y: Seq<char>| #[trigger] laws.deep_view().contains(y) <==> (before.contains(y) || y == lk) by {
                                if laws.deep_view().contains(y) {
                                    let q = choose|q: int| 0 <= q < laws.deep_view().len() && laws.deep_view()[q] == y;
                                    if q < before.len() {
                                        assert(before[q] == y);
                                    }
                                }
                                if before.contains(y) {
                                    let q = choose|q: int| 0 <= q < before.len() && before[q] == y;
                                    assert(laws.deep_view()[q] == y);
                                }
                                if y == lk {
                                    assert(laws.deep_view()[before.len() as int] == lk);
                                }
                            }
                        }
                    }
                    k += 1;
                }
                proof {
                    assert(list.deep_view().take(list@.len() as int) =~= list.deep_view());
                    assert forall|law: Seq<char>| #[trigger] laws.deep_view().contains(law) <==> exists|j: int|
                        0 <= j < i + 1 && #[trigger] law_link(g, rs.deep_view()[j], law) by {
                        if law_link(g, rv, law) {
                            assert(list.deep_view().contains(law));
                        }
                        if exists|j: int| 0 <= j < i + 1 && #[trigger] law_link(g, rs.deep_view()[j], law) {
                            let j = choose|j: int| 0 <= j < i + 1 && #[trigger] law_link(g, rs.deep_view()[j], law);
                            if j == i {
                                assert(list.deep_view().contains(law));
                            }
                        }
                    }
                }
            },
            None => {
                proof {
                    assert forall|law: Seq<char>| #[trigger] laws.deep_view().contains(law) <==> exists|j: int|
                        0 <= j < i + 1 && #[trigger] law_link(g, rs.deep_view()[j], law) by {
                        if exists|j: int| 0 <= j < i + 1 && #[trigger] law_link(g, rs.deep_view()[j], law) {
                            let j = choose|j: int| 0 <= j < i + 1 && #[trigger] law_link(g, rs.deep_view()[j], law);
                            if j == i {
                                assert(!law_link(g, rv, law));
                            }
                        }
                    }
                }
            },
        }
        i += 1;
    }
    laws
}

/// The risks linked with some law of `laws`.
pub fn risks_of_laws(g: &GraphSnapshot, laws: &Vec<String>) -> (r: Vec<String>)
    requires
        g.wf(),
    ensures
        forall|x: Seq<char>| #[trigger] r.deep_view().contains(x) <==> exists|i: int|
            0 <= i < laws@.len() && #[trigger] law_link(g, x, laws.deep_view()[i]),
{
    let mut out: Vec<String> = Vec::new();
    let mut i: usize = 0;
    while i < laws.len()
        invariant
            g.wf(),
            i <= laws@.len(),
            forall|x: Seq<char>| #[trigger] out.deep_view().contains(x) <==> exists|j: int|
                0 <= j < i && #[trigger] law_link(g, x, laws.deep_view()[j]),
        decreases laws@.len() - i,
    {
        let vis = law_linked_risks(g, laws[i].as_str());
        let ghost before = out.deep_view();
        extend_strings(&mut out, &vis);
        proof {
            assert(laws.deep_view()[i as int] == laws@[i as int]@);
            assert forall|x: Seq<char>| #[trigger] out.deep_view().contains(x) <==> exists|j: int|
                0 <= j < i + 1 && #[trigger] law_link(g, x, laws.deep_view()[j]) by {
                if out.deep_view().contains(x) {
                    let q = choose|q: int| 0 <= q < out.deep_view().len() && out.deep_view()[q] == x;
                    if q < before.len() {
                        assert(before[q] == x);
                        assert(before.contains(x));
                    } else {
                        assert(vis.deep_view()[q - before.len()] == x);
                        assert(vis.deep_view().contains(x));
                    }
                }
                if exists|j: int| 0 <= j < i + 1 && #[trigger] law_link(g, x, laws.deep_view()[j]) {
                    let j = choose|j: int| 0 <= j < i + 1 && #[trigger] law_link(g, x, laws.deep_view()[j]);
                    if j == i {
                        assert(vis.deep_view().contains(x));
                        let q = choose|q: int| 0 <= q < vis.deep_view().len() && vis.deep_view()[q] == x;
                        assert(out.deep_view()[before.len() + q] == x);
                    } else {
                        assert(before.contains(x));
                        let q = choose|q: int| 0 <= q < before.len() && before[q] == x;
                        assert(out.deep_view()[q] == x);
                    }
                }
            }
        }
        i += 1;
    }
    out
}

/// The working same-law neighbours of clause `chunk_id`, sorted and without
/// repeats (see `shares_law`).
pub fn working_same_law(g: &GraphSnapshot, chunk_id: &str) -> (r: Vec<String>)
    requires
        g.wf(),
    ensures
        sorted_seq(r.deep_view()),
        distinct_seq(r.deep_view()),
        forall|d: Seq<char>| #[trigger] r.deep_view().contains(d) <==> shares_law(g, chunk_id@, d),
{
    let empty: Vec<String> = Vec::new();
    let rs_c: &Vec<String> = match g.has_risk.get(chunk_id) {
        Some(list) => list,
        None => &empty,
    };
    proof {
        if g.has_risk.deep_view().dom().contains(chunk_id@) {
            assert(g.has_risk.deep_view()[chunk_id@] == rs_c.deep_view());
        } else {
            assert(rs_c.deep_view() =~= Seq::<Seq<char>>::empty());
        }
    }
    let laws = laws_of_risks(g, rs_c);
    let risks = risks_of_laws(g, &laws);
    let r = chunks_holding(g, &risks, Some(chunk_id));
    proof {
        assert forall|d: Seq<char>| #[trigger] r.deep_view().contains(d) <==> shares_law(g, chunk_id@, d) by {
            if r.deep_view().contains(d) {
                let x = choose|x: Seq<char>| #[trigger] list_has(g.has_risk.deep_view(), d, x) && risks.deep_view().contains(x);
                let i = choose|i: int| 0 <= i < laws@.len() && #[trigger] law_link(g, x, laws.deep_view()[i]);
                let law = laws.deep_view()[i];
                assert(laws.deep_view().contains(law));
                let j = choose|j: int| 0 <= j < rs_c@.len() && #[trigger] law_link(g, rs_c.deep_view()[j], law);
                let r1 = rs_c.deep_view()[j];
                assert(list_has(g.has_risk.deep_view(), chunk_id@, r1));
                assert(list_has(g.has_risk.deep_view(), d, x) && law_link(g, r1, law) && law_link(g, x, law));
            }
            if shares_law(g, chunk_id@, d) {
                let (r1, r2, law) = choose|r1: Seq<char>, r2: Seq<char>, law: Seq<char>|
                    list_has(g.has_risk.deep_view(), chunk_id@, r1) && list_has(g.has_risk.deep_view(), d, r2)
                        && law_link(g, r1, law) && law_link(g, r2, law);
                let j = choose|j: int| 0 <= j < rs_c.deep_view().len() && rs_c.deep_view()[j] == r1;
                assert(law_link(g, rs_c.deep_view()[j], law));
                assert(laws.deep_view().contains(law));
                let i = choose|i: int| 0 <= i < laws.deep_view().len() && laws.deep_view()[i] == law;
                assert(law_link(g, r2, laws.deep_view()[i]));
                assert(risks.deep_view().contains(r2));
            }
        }
    }
    r
}

/// The findings of the risks in `rs` that agents see, in list order.
pub fn visible_findings_of(g: &GraphSnapshot, rs: &Vec<String>) -> (r: Vec<RiskFinding>)
    requires
        g.wf(),
    ensures
        r.deep_view() == visible_findings(g, rs.deep_view()),
{
    let mut out: Vec<RiskFinding> = Vec::new();
    let mut i: usize = 0;
    while i < rs.len()
        invariant
            g.wf(),
            i <= rs@.len(),
            out.deep_view() == visible_findings(g, rs.deep_view().take(i as int)),
        decreases rs@.len() - i,
    {
        let ghost before = out.deep_view();
        proof {
            assert(rs.deep_view().take(i + 1).drop_last() =~= rs.deep_view().take(i as int));
            assert(rs.deep_view().take(i + 1).last() == rs@[i as int]@);
        }
        match g.risks.get(rs[i].as_str()) {
            Some(node) => {
                proof {
                    assert(g.risks.deep_view()[rs@[i as int]@] == node.deep_view());
                }
                if matches!(node.state, FindingState::Provisional) || matches!(node.state, FindingState::Confirmed) {
                    out.push(node.finding.dup());
                    proof {
                        assert(out.deep_view() =~= before.push(node.finding.deep_view()));
                    }
                }
            },
            None => {},
        }
        i += 1;
    }
    proof {
        assert(rs.deep_view().take(rs@.len() as int) =~= rs.deep_view());
    }
    out
}

/// What an agent reads of clause `chunk_id`.
pub fn build_clause_context(g: &GraphSnapshot, chunk_id: &str) -> (r: ClauseContext)
    requires
        g.wf(),
    ensures
        context_of(g, chunk_id@, &r),
{
    let reviewed_by: Vec<AgentId> = match g.reviewed_by.get(chunk_id) {
        Some(v) => {
            proof {
                assert(g.reviewed_by.deep_view()[chunk_id@] == v.deep_view());
            }
            v.dup()
        },
        None => {
            let e: Vec<AgentId> = Vec::new();
            assert(e.deep_view() =~= Seq::<AgentId>::empty());
            e
        },
    };
    let empty: Vec<String> = Vec::new();
    let rs: &Vec<String> = match g.has_risk.get(chunk_id) {
        Some(v) => v,
        None => &empty,
    };
    proof {
        if g.has_risk.deep_view().dom().contains(chunk_id@) {
            assert(g.has_risk.deep_view()[chunk_id@] == rs.deep_view());
        } else {
            assert(rs.deep_view() =~= Seq::<Seq<char>>::empty());
        }
    }
    let risks = visible_findings_of(g, rs);
    let linked_chunks: Vec<LinkedChunk> = match g.linked_to.get(chunk_id) {
        Some(v) => {
            proof {
                assert(g.linked_to.deep_view()[chunk_id@] == v.deep_view());
            }
            v.dup()
        },
        None => {
            let e: Vec<LinkedChunk> = Vec::new();
            assert(e.deep_view() =~= Seq::<(Seq<char>, Seq<char>)>::empty());
            e
        },
    };
    let same_law_chunks = working_same_law(g, chunk_id);
    let mut contradictions: Vec<LinkedChunk> = Vec::new();
    match g.contradicts.get(chunk_id) {
        Some(v) => {
            proof {
                assert(g.contradicts.deep_view()[chunk_id@] == v.deep_view());
            }
            let mut i: usize = 0;
            while i < v.len()
                invariant
                    i <= v@.len(),
                    contradictions.deep_view() == v.deep_view().take(i as int),
                decreases v@.len() - i,
            {
                let ghost before = contradictions.deep_view();
                let (other, reason) = &v[i];
                contradictions.push(LinkedChunk { chunk_id: other.clone(), reason: reason.clone() });
                i += 1;
                proof {
                    assert(v.deep_view()[i - 1] == v@[i - 1].deep_view());
                    assert(contradictions.deep_view() =~= before.push(v.deep_view()[i - 1]));
                    assert(v.deep_view().take(i as int) =~= v.deep_view().take(i - 1).push(v.deep_view()[i - 1]));
                    assert(contradictions.deep_view() =~= v.deep_view().take(i as int));
                }
            }
            proof {
                assert(v.deep_view().take(v@.len() as int) =~= v.deep_view());
            }
        },
        None => {
            proof {
                assert(contradictions.deep_view() =~= Seq::<(Seq<char>, Seq<char>)>::empty());
            }
        },
    }
    ClauseContext {
        chunk_id: to_owned_string(chunk_id),
        reviewed_by,
        risks,
        linked_chunks,
        same_law_chunks,
        contradictions,
    }
}

/// The strings of `values` without repeats, first occurrences in order.
pub fn deduplicate_strings(values: &Vec<String>) -> (r: Vec<String>)
    ensures
        r.deep_view() == dedup_seq(values.deep_view()),
{
    let mut unique: Vec<String> = Vec::new();
    let mut i: usize = 0;
    while i < values.len()
        invariant
            i <= values@.len(),
            unique.deep_view() == dedup_seq(values.deep_view().take(i as int)),
        decreases values@.len() - i,
    {
        proof {
            assert(values.deep_view().take(i + 1).drop_last() =~= values.deep_view().take(i as int));
            assert(values.deep_view().take(i + 1).last() == values@[i as int]@);
        }
        push_unique(&mut unique, values[i].clone());
        i += 1;
    }
    proof {
        assert(values.deep_view().take(values@.len() as int) =~= values.deep_view());
    }
    unique
}

/// The provisional nodes for the real findings of `findings`, or the
/// reason the batch is refused.
pub fn normalize_provisional_findings(findings: &Vec<RiskFinding>) -> (r: Result<Vec<RiskNode>, String>)
    ensures
        r is Ok <==> provisional_batch_ok(findings@),
        r matches Ok(nodes) ==> nodes.deep_view() == Seq::new(
            real_findings(findings@).len(),
            |i: int| provisional_node(real_findings(findings@)[i].deep_view()),
        ),
{
    let ghost reals = real_findings(findings@);
    let mut nodes: Vec<RiskNode> = Vec::new();
    let mut ids: Vec<String> = Vec::new();
    let ghost mut taken: Seq<RiskFinding> = Seq::empty();
    let mut i: usize = 0;
    while i < findings.len()
        invariant
            i <= findings@.len(),
            reals == real_findings(findings@),
            taken == real_findings(findings@.take(i as int)),
            nodes@.len() == taken.len(),
            ids@.len() == taken.len(),
            forall|j: int| 0 <= j < taken.len() ==> #[trigger] nodes@[j].deep_view() == provisional_node(taken[j].deep_view()),
            forall|j: int| 0 <= j < taken.len() ==> #[trigger] ids@[j]@ == taken[j].risk_id@,
            forall|j: int| 0 <= j < taken.len() ==> !all_white(#[trigger] taken[j].risk_id@),
            forall|j: int| 0 <= j < taken.len() ==> #[trigger] taken[j].clause_ids@.len() > 0,
            forall|a: int, b: int| 0 <= a < b < taken.len() ==> taken[a].risk_id@ != taken[b].risk_id@,
        decreases findings@.len() - i,
    {
        let f = &findings[i];
        proof {
            assert(findings@.take(i + 1) =~= findings@.take(i as int).push(findings@[i as int]));
            reveal(Seq::filter);
            assert(findings@.take(i + 1).drop_last() =~= findings@.take(i as int));
        }
        if !f.no_risk {
            let ghost taken1 = taken.push(*f);
            proof {
                assert(real_findings(findings@.take(i + 1)) == taken1);
                lemma_real_findings_prefix(findings@, i as int);
            }
            if is_blank(f.risk_id.as_str()) {
                proof {
                    assert(reals.len() >= taken1.len()) by {
                        lemma_real_findings_prefix(findings@, i as int);
                    }
                    assert(reals[taken.len() as int] == *f);
                }
                let mut msg = to_owned_string("provisional finding 的 risk_id 不得为空");
                return Err(msg);
            }
            if f.clause_ids.len() == 0 {
                proof {
                    assert(reals[taken.len() as int] == *f);
                }
                let mut msg = to_owned_string("provisional finding ");
                push_str(&mut msg, f.risk_id.as_str());
                push_str(&mut msg, " 的 clause_ids 不得为空");
                return Err(msg);
            }
            if contains_deep(&ids, &f.risk_id) {
                proof {
                    let j = choose|j: int| 0 <= j < ids.deep_view().len() && ids.deep_view()[j] == f.risk_id@;
                    assert(ids@[j]@ == f.risk_id@);
                    assert(reals[j] == taken[j]);
                    assert(reals[taken.len() as int] == *f);
                }
                let mut msg = to_owned_string("同次提交包含重复 risk_id: ");
                push_str(&mut msg, f.risk_id.as_str());
                return Err(msg);
            }
            let ghost old_ids_dv = ids.deep_view();
            proof {
                assert forall|a: int| 0 <= a < taken.len() implies old_ids_dv[a] == taken[a].risk_id@ by {
                    assert(old_ids_dv[a] == ids@[a]@);
                }
                assert(!old_ids_dv.contains(f.risk_id@));
            }
            let clause_ids = deduplicate_strings(&f.clause_ids);
            let legal_basis = deduplicate_strings(&f.legal_basis);
            let law_refs = deduplicate_strings(&f.legal_basis);
            let finding = RiskFinding {
                risk_id: f.risk_id.clone(),
                clause_ids,
                agent: f.agent.clone(),
                no_risk: f.no_risk,
                severity: f.severity,
                is_critical: f.is_critical,
                risk_type: f.risk_type.clone(),
                source_quote: f.source_quote.clone(),
                legal_basis,
                reason: f.reason.clone(),
                suggestion: f.suggestion.clone(),
                finding_role: f.finding_role,
            };
            nodes.push(RiskNode {
                finding,
                law_refs,
                state: FindingState::Provisional,
                merged_into: None,
                decision_reason: None,
            });
            ids.push(f.risk_id.clone());
            proof {
                assert forall|a: int| 0 <= a < taken.len() implies taken[a].risk_id@ != f.risk_id@ by {
                    assert(ids.deep_view()[a] == ids@[a]@);
                    assert(old_ids_dv[a] == taken[a].risk_id@);
                }
                taken = taken1;
                assert(nodes@[taken.len() - 1].deep_view() =~= provisional_node(f.deep_view()));
            }
        } else {
            proof {
                assert(real_findings(findings@.take(i + 1)) == taken);
            }
        }
        i += 1;
    }
    proof {
        assert(findings@.take(findings@.len() as int) =~= findings@);
        assert(nodes.deep_view() =~= Seq::new(
            reals.len(),
            |k: int| provisional_node(reals[k].deep_view()),
        ));
    }
    Ok(nodes)
}

/// The real findings of a prefix are a prefix of the real findings.
proof fn lemma_real_findings_prefix(fs: Seq<RiskFinding>, i: int)
    requires
        0 <= i < fs.len(),
    ensures
        real_findings(fs.take(i + 1)).len() <= real_findings(fs).len(),
        forall|j: int| 0 <= j < real_findings(fs.take(i + 1)).len() ==> #[trigger] real_findings(fs)[j] == real_findings(fs.take(i + 1))[j],
    decreases fs.len() - i,
{
    reveal(Seq::filter);
    if i + 1 < fs.len() {
        lemma_real_findings_prefix(fs, i + 1);
        assert(fs.take(i + 2).drop_last() =~= fs.take(i + 1));
    } else {
        assert(fs.take(i + 1) =~= fs);
    }
}

/// Whether risk `risk_id` is in a final state.
pub fn is_terminal_risk(g: &GraphSnapshot, risk_id: &str) -> (r: bool)
    requires
        g.wf(),
    ensures
        r == terminal(g, risk_id@),
{
    match g.risks.get(risk_id) {
        Some(node) => {
            proof {
                assert(g.risks.deep_view()[risk_id@] == node.deep_view());
            }
            !matches!(node.state, FindingState::Provisional)
        },
        None => false,
    }
}

/// Whether the compatibility write paths accept `risk`.
pub fn is_valid_legacy_risk_input(risk: &RiskNode) -> (r: bool)
    ensures
        r == legacy_ok(risk.deep_view()),
{
    matches!(risk.state, FindingState::Provisional) && risk.merged_into.is_none()
        && risk.decision_reason.is_none()
}

/// Whether two findings have the same content.
pub fn finding_eq(fa: &RiskFinding, fb: &RiskFinding) -> (r: bool)
    ensures
        r == (fa.deep_view() == fb.deep_view()),
{
    let r = fa.risk_id.deep_eq(&fb.risk_id) && strings_eq(&fa.clause_ids, &fb.clause_ids)
        && fa.agent.deep_eq(&fb.agent) && fa.no_risk == fb.no_risk && fa.severity == fb.severity
        && fa.is_critical == fb.is_critical && fa.risk_type.deep_eq(&fb.risk_type)
        && fa.source_quote.deep_eq(&fb.source_quote) && strings_eq(&fa.legal_basis, &fb.legal_basis)
        && fa.reason.deep_eq(&fb.reason) && fa.suggestion.deep_eq(&fb.suggestion)
        && fa.finding_role == fb.finding_role;
    proof {
        if r {
            assert(fa.deep_view() =~= fb.deep_view());
        }
    }
    r
}

/// Whether two risk nodes have the same content.
pub fn node_eq(a: &RiskNode, b: &RiskNode) -> (r: bool)
    ensures
        r == (a.deep_view() == b.deep_view()),
{
    let same_finding = finding_eq(&a.finding, &b.finding);
    let same_merge = match (&a.merged_into, &b.merged_into) {
        (Some(x), Some(y)) => x.deep_eq(y),
        (None, None) => true,
        _ => false,
    };
    let same_reason = match (&a.decision_reason, &b.decision_reason) {
        (Some(x), Some(y)) => x.deep_eq(y),
        (None, None) => true,
        _ => false,
    };
    let r = same_finding && strings_eq(&a.law_refs, &b.law_refs) && a.state == b.state && same_merge
        && same_reason;
    proof {
        if r {
            assert(a.finding.deep_view() =~= b.finding.deep_view());
            assert(a.deep_view() =~= b.deep_view());
        }
    }
    r
}

/// Whether two string lists are equal element by element.
pub fn strings_eq(a: &Vec<String>, b: &Vec<String>) -> (r: bool)
    ensures
        r == (a.deep_view() == b.deep_view()),
{
    if a.len() != b.len() {
        assert(a.deep_view().len() != b.deep_view().len());
        return false;
    }
    let mut i: usize = 0;
    while i < a.len()
        invariant
            i <= a@.len(),
            a@.len() == b@.len(),
            forall|j: int| 0 <= j < i ==> a.deep_view()[j] == b.deep_view()[j],
        decreases a@.len() - i,
    {
        if !a[i].deep_eq(&b[i]) {
            assert(a.deep_view()[i as int] != b.deep_view()[i as int]);
            return false;
        }
        i += 1;
    }
    assert(a.deep_view() =~= b.deep_view());
    true
}

/// Refuses a batch whose node clashes with a stored risk of the same id.
pub fn validate_risk_conflicts(g: &GraphSnapshot, nodes: &Vec<RiskNode>) -> (r: Result<(), String>)
    requires
        g.wf(),
    ensures
        r is Ok <==> no_conflict(g, nodes.deep_view()),
{
    let mut i: usize = 0;
    while i < nodes.len()
        invariant
            g.wf(),
            i <= nodes@.len(),
            forall|j: int|
                0 <= j < i && #[trigger] g.risks.deep_view().dom().contains(nodes.deep_view()[j].finding.risk_id)
                    ==> g.risks.deep_view()[nodes.deep_view()[j].finding.risk_id] == nodes.deep_view()[j],
        decreases nodes@.len() - i,
    {
        let node = &nodes[i];
        proof {
            assert(nodes.deep_view()[i as int] == node.deep_view());
        }
        match g.risks.get(node.finding.risk_id.as_str()) {
            Some(existing) => {
                proof {
                    assert(g.risks.deep_view()[node.finding.risk_id@] == existing.deep_view());
                }
                if !node_eq(existing, node) {
                    proof {
                        assert(g.risks.deep_view().dom().contains(nodes.deep_view()[i as int].finding.risk_id));
                        assert(g.risks.deep_view()[nodes.deep_view()[i as int].finding.risk_id] != nodes.deep_view()[i as int]);
                    }
                    let mut msg = to_owned_string("risk_id ");
                    push_str(&mut msg, node.finding.risk_id.as_str());
                    push_str(&mut msg, " 已存在且内容不同");
                    return Err(msg);
                }
            },
            None => {},
        }
        i += 1;
    }
    Ok(())
}

/// Refuses a finding that names a blank clause id or a clause the graph
/// does not hold.
pub fn validate_finding_clause_refs(g: &GraphSnapshot, label: &str, finding: &RiskFinding) -> (r: Result<(), String>)
    requires
        g.wf(),
    ensures
        r is Ok <==> clause_refs_ok(g, finding.clause_ids.deep_view()),
{
    let mut i: usize = 0;
    while i < finding.clause_ids.len()
        invariant
            g.wf(),
            i <= finding.clause_ids@.len(),
            forall|j: int| 0 <= j < i ==> !all_white(#[trigger] finding.clause_ids.deep_view()[j]) && g.chunks.deep_view().dom().contains(finding.clause_ids.deep_view()[j]),
        decreases finding.clause_ids@.len() - i,
    {
        let c = &finding.clause_ids[i];
        proof {
            assert(finding.clause_ids.deep_view()[i as int] == c@);
        }
        if is_blank(c.as_str()) {
            let mut msg = to_owned_string(label);
            push_str(&mut msg, " ");
            push_str(&mut msg, finding.risk_id.as_str());
            push_str(&mut msg, " 的 clause_id 不得为空白");
            return Err(msg);
        }
        if !g.chunks.contains_key(c.as_str()) {
            let mut msg = to_owned_string(label);
            push_str(&mut msg, " ");
            push_str(&mut msg, finding.risk_id.as_str());
            push_str(&mut msg, " 引用的条款不存在: ");
            push_str(&mut msg, c.as_str());
            return Err(msg);
        }
        i += 1;
    }
    Ok(())
}

/// Writes the placeholder node of `law` unless the law is known.
fn ensure_law_node(state: &mut GraphSnapshot, law: &String) -> (added: bool)
    requires
        old(state).wf(),
    ensures
        final(state).wf(),
        added == !old(state).laws.deep_view().dom().contains(law@),
        final(state).laws.deep_view() == if added {
            old(state).laws.deep_view().insert(law@, placeholder_law(law@))
        } else {
            old(state).laws.deep_view()
        },
        unchanged_except(old(state), final(state), set![f_laws()]),
        final(state).graph_version == old(state).graph_version,
        final(state).chunk_versions.deep_view() == old(state).chunk_versions.deep_view(),
{
    if state.laws.contains_key(law.as_str()) {
        false
    } else {
        let node = LawNode { law_id: law.clone(), article_no: law.clone(), title: String::new() };
        let ghost nv = node.deep_view();
        state.laws.insert(law.clone(), node);
        proof {
            assert(nv == placeholder_law(law@));
            assert(state.laws.deep_view() =~= old(state).laws.deep_view().insert(law@, nv));
        }
        true
    }
}

/// Writes `risk_id → law` (cites), `law → risk_id` (cited_by) and the law's
/// placeholder node for every law of `law_refs`.
fn add_law_edges_in_state(state: &mut GraphSnapshot, risk_id: &str, law_refs: &Vec<String>)
    requires
        old(state).wf(),
    ensures
        final(state).wf(),
        grows(old(state), final(state)),
        forall|i: int| 0 <= i < law_refs@.len() ==> #[trigger] list_has(final(state).cites.deep_view(), risk_id@, law_refs.deep_view()[i]),
        forall|i: int| 0 <= i < law_refs@.len() ==> #[trigger] list_has(final(state).cited_by.deep_view(), law_refs.deep_view()[i], risk_id@),
        forall|i: int| 0 <= i < law_refs@.len() ==> #[trigger] final(state).laws.deep_view().dom().contains(law_refs.deep_view()[i]),
        forall|k: Seq<char>, x: Seq<char>| #[trigger] list_has(final(state).cites.deep_view(), k, x) ==> list_has(old(state).cites.deep_view(), k, x) || (k == risk_id@ && law_refs.deep_view().contains(x)),
        forall|k: Seq<char>, x: Seq<char>| #[trigger] list_has(final(state).cited_by.deep_view(), k, x) ==> list_has(old(state).cited_by.deep_view(), k, x) || (x == risk_id@ && law_refs.deep_view().contains(k)),
        forall|k: Seq<char>| #[trigger] final(state).laws.deep_view().dom().contains(k) ==> old(state).laws.deep_view().dom().contains(k) || law_refs.deep_view().contains(k),
        final(state).laws.deep_view() == with_placeholders(old(state).laws.deep_view(), law_refs.deep_view()),
        unchanged_except(old(state), final(state), set![f_cites(), f_cited_by(), f_laws()]),
        final(state).graph_version == old(state).graph_version,
        final(state).chunk_versions.deep_view() == old(state).chunk_versions.deep_view(),
{
    proof {
        assert(law_refs.deep_view().take(0) =~= Seq::<Seq<char>>::empty());
        assert(with_placeholders(old(state).laws.deep_view(), Seq::<Seq<char>>::empty()) =~= old(state).laws.deep_view());
    }
    let mut i: usize = 0;
    while i < law_refs.len()
        invariant
            state.wf(),
            i <= law_refs@.len(),
            grows(old(state), state),
            forall|j: int| 0 <= j < i ==> #[trigger] list_has(state.cites.deep_view(), risk_id@, law_refs.deep_view()[j]),
            forall|j: int| 0 <= j < i ==> #[trigger] list_has(state.cited_by.deep_view(), law_refs.deep_view()[j], risk_id@),
            forall|j: int| 0 <= j < i ==> #[trigger] state.laws.deep_view().dom().contains(law_refs.deep_view()[j]),
            forall|k: Seq<char>, x: Seq<char>| #[trigger] list_has(state.cites.deep_view(), k, x) ==> list_has(old(state).cites.deep_view(), k, x) || (k == risk_id@ && law_refs.deep_view().contains(x)),
            forall|k: Seq<char>, x: Seq<char>| #[trigger] list_has(state.cited_by.deep_view(), k, x) ==> list_has(old(state).cited_by.deep_view(), k, x) || (x == risk_id@ && law_refs.deep_view().contains(k)),
            forall|k: Seq<char>| #[trigger] state.laws.deep_view().dom().contains(k) ==> old(state).laws.deep_view().dom().contains(k) || law_refs.deep_view().contains(k),
            state.laws.deep_view() == with_placeholders(old(state).laws.deep_view(), law_refs.deep_view().take(i as int)),
            unchanged_except(old(state), state, set![f_cites(), f_cited_by(), f_laws()]),
            state.graph_version == old(state).graph_version,
            state.chunk_versions.deep_view() == old(state).chunk_versions.deep_view(),
        decreases law_refs@.len() - i,
    {
        let law = &law_refs[i];
        let ghost lv = law@;
        proof {
            assert(law_refs.deep_view()[i as int] == lv);
            assert(law_refs.deep_view().contains(lv));
        }
        let ghost s0 = *state;
        entry_push_unique(&mut state.cites, risk_id, law.clone());
        let ghost s1 = *state;
        entry_push_unique(&mut state.cited_by, law.as_str(), to_owned_string(risk_id));
        let ghost s2 = *state;
        ensure_law_node(state, law);
        proof {
            assert(keeps(&s2, state, f_cites()));
            assert(keeps(&s2, state, f_cited_by()));
            assert(state.cites.deep_view() == s1.cites.deep_view());
            assert(s1.cites.deep_view() == s0.cites.deep_view().insert(risk_id@, entry_pushed(s0.cites.deep_view(), risk_id@, lv)));
            assert(state.cited_by.deep_view() == s2.cited_by.deep_view());
            assert(s2.cited_by.deep_view() == s1.cited_by.deep_view().insert(lv, entry_pushed(s1.cited_by.deep_view(), lv, risk_id@)));
            lemma_entry_pushed_has(s0.cites.deep_view(), risk_id@, lv);
            lemma_entry_pushed_has(s1.cited_by.deep_view(), lv, risk_id@);
            assert forall|j: int| 0 <= j < i + 1 implies #[trigger] list_has(state.cites.deep_view(), risk_id@, law_refs.deep_view()[j]) by {
                if j < i {
                    assert(list_has(s0.cites.deep_view(), risk_id@, law_refs.deep_view()[j]));
                }
            }
            assert forall|j: int| 0 <= j < i + 1 implies #[trigger] list_has(state.cited_by.deep_view(), law_refs.deep_view()[j], risk_id@) by {
                if j < i {
                    assert(list_has(s1.cited_by.deep_view(), law_refs.deep_view()[j], risk_id@));
                }
            }
            assert forall|j: int| 0 <= j < i + 1 implies #[trigger] state.laws.deep_view().dom().contains(law_refs.deep_view()[j]) by {
                if j < i {
                    assert(s2.laws.deep_view().dom().contains(law_refs.deep_view()[j]));
                }
            }
            assert forall|f: int| 0 <= f < 14 && !set![f_cites(), f_cited_by(), f_laws()].contains(f) implies #[trigger] keeps(old(state), state, f) by {
                assert(keeps(old(state), &s0, f));
                assert(keeps(&s0, &s1, f));
                assert(keeps(&s1, &s2, f));
                assert(keeps(&s2, state, f));
            }
            assert(keeps(&s2, state, 2));
            assert(keeps(&s2, state, 8));
            assert(keeps(&s2, state, 1));
            assert(keeps(old(state), state, 2));
            assert(keeps(old(state), state, 8));
            assert(keeps(old(state), state, 1));
            assert forall|k: Seq<char>, x: Seq<char>| #[trigger] list_has(old(state).cites.deep_view(), k, x) implies list_has(state.cites.deep_view(), k, x) by {
                assert(list_has(s0.cites.deep_view(), k, x));
            }
            assert forall|k: Seq<char>, x: Seq<char>| #[trigger] list_has(old(state).cited_by.deep_view(), k, x) implies list_has(state.cited_by.deep_view(), k, x) by {
                assert(list_has(s1.cited_by.deep_view(), k, x));
            }
            assert forall|k: Seq<char>| #[trigger] old(state).laws.deep_view().dom().contains(k) implies state.laws.deep_view().dom().contains(k) by {
                assert(s2.laws.deep_view().dom().contains(k));
            }
            let t0 = law_refs.deep_view().take(i as int);
            let t1 = law_refs.deep_view().take(i + 1);
            let m0 = old(state).laws.deep_view();
            assert(t1 =~= t0.push(lv));
            assert forall|k: Seq<char>| t1.contains(k) <==> t0.contains(k) || k == lv by {
                if t1.contains(k) {
                    let j = choose|j: int| 0 <= j < t1.len() && t1[j] == k;
                    if j < i {
                        assert(t0[j] == k);
                    }
                }
                if t0.contains(k) {
                    let j = choose|j: int| 0 <= j < t0.len() && t0[j] == k;
                    assert(t1[j] == k);
                }
                if k == lv {
                    assert(t1[i as int] == lv);
                }
            }
            assert(s2.laws.deep_view() == s0.laws.deep_view());
            assert(s0.laws.deep_view() == with_placeholders(m0, t0));
            assert(state.laws.deep_view() =~= with_placeholders(m0, t1));
            assert(grows(old(state), state));
        }
        i += 1;
    }
    proof {
        assert(law_refs.deep_view().take(law_refs@.len() as int) =~= law_refs.deep_view());
        assert(with_placeholders(old(state).laws.deep_view(), Seq::<Seq<char>>::empty()) =~= old(state).laws.deep_view());
    }
}

/// After a "push if absent" of `x` into entry `k`, the entry has `x`, every
/// earlier edge is kept, and no other edge appears.
pub proof fn lemma_entry_pushed_has<V>(m: Map<Seq<char>, Seq<V>>, k: Seq<char>, x: V)
    ensures
        list_has(m.insert(k, entry_pushed(m, k, x)), k, x),
        forall|kk: Seq<char>, y: V| #[trigger] list_has(m, kk, y) ==> list_has(m.insert(k, entry_pushed(m, k, x)), kk, y),
        forall|kk: Seq<char>, y: V| #[trigger] list_has(m.insert(k, entry_pushed(m, k, x)), kk, y) ==> list_has(m, kk, y) || (kk == k && y == x),
{
    let m2 = m.insert(k, entry_pushed(m, k, x));
    let e = entry_pushed(m, k, x);
    assert(m2[k] == e);
    if m.dom().contains(k) {
        if !m[k].contains(x) {
            assert(e == m[k].push(x));
            assert(e[m[k].len() as int] == x);
        }
    } else {
        assert(e == seq![x]);
        assert(e[0] == x);
    }
    assert(e.contains(x));
    assert forall|kk: Seq<char>, y: V| #[trigger] list_has(m, kk, y) implies list_has(m2, kk, y) by {
        if kk == k {
            let q = choose|q: int| 0 <= q < m[k].len() && m[k][q] == y;
            if !m[k].contains(x) {
                assert(e == m[k].push(x));
                assert(e[q] == y);
            }
            assert(e.contains(y));
        } else {
            assert(m2[kk] == m[kk]);
        }
    }
    assert forall|kk: Seq<char>, y: V| #[trigger] list_has(m2, kk, y) implies list_has(m, kk, y) || (kk == k && y == x) by {
        if kk == k {
            let q = choose|q: int| 0 <= q < e.len() && e[q] == y;
            if m.dom().contains(k) {
                if !m[k].contains(x) {
                    assert(e == m[k].push(x));
                    if q < m[k].len() {
                        assert(m[k][q] == y);
                        assert(m[k].contains(y));
                    }
                } else {
                    assert(m[k].contains(y));
                }
            } else {
                assert(e == seq![x]);
                assert(q == 0);
            }
        } else {
            assert(m2[kk] == m[kk]);
        }
    }
}

/// Whether `a` and `b` hold the same strings (by view), ignoring order and
/// repeats.
pub fn same_members(a: &Vec<String>, b: &Vec<String>) -> (r: bool)
    ensures
        r <==> (forall|x: Seq<char>| #[trigger] a.deep_view().contains(x) <==> b.deep_view().contains(x)),
{
    let mut i: usize = 0;
    while i < a.len()
        invariant
            i <= a@.len(),
            forall|j: int| 0 <= j < i ==> #[trigger] b.deep_view().contains(a.deep_view()[j]),
        decreases a@.len() - i,
    {
        if !contains_deep(b, &a[i]) {
            proof {
                assert(a.deep_view()[i as int] == a@[i as int]@);
                assert(a.deep_view().contains(a.deep_view()[i as int]));
            }
            return false;
        }
        i += 1;
    }
    let mut k: usize = 0;
    while k < b.len()
        invariant
            k <= b@.len(),
            forall|j: int| 0 <= j < a@.len() ==> #[trigger] b.deep_view().contains(a.deep_view()[j]),
            forall|j: int| 0 <= j < k ==> #[trigger] a.deep_view().contains(b.deep_view()[j]),
        decreases b@.len() - k,
    {
        if !contains_deep(a, &b[k]) {
            proof {
                assert(b.deep_view()[k as int] == b@[k as int]@);
                assert(b.deep_view().contains(b.deep_view()[k as int]));
            }
            return false;
        }
        k += 1;
    }
    proof {
        assert forall|x: Seq<char>| #[trigger] a.deep_view().contains(x) <==> b.deep_view().contains(x) by {
            if a.deep_view().contains(x) {
                let j = choose|j: int| 0 <= j < a.deep_view().len() && a.deep_view()[j] == x;
                assert(b.deep_view().contains(a.deep_view()[j]));
            }
            if b.deep_view().contains(x) {
                let j = choose|j: int| 0 <= j < b.deep_view().len() && b.deep_view()[j] == x;
                assert(a.deep_view().contains(b.deep_view()[j]));
            }
        }
    }
    true
}

/// The working same-law neighbours of clause `c` differ between `a` and `b`.
pub open spec fn same_law_changed(a: &GraphSnapshot, b: &GraphSnapshot, c: Seq<char>) -> bool {
    exists|d: Seq<char>| #[trigger] shares_law(a, c, d) != shares_law(b, c, d)
}

/// The clauses whose working same-law neighbours differ between `before`
/// and `after`, sorted and without repeats.
pub fn changed_agent_same_law_chunks(before: &GraphSnapshot, after: &GraphSnapshot) -> (r: Vec<String>)
    requires
        before.wf(),
        after.wf(),
    ensures
        sorted_seq(r.deep_view()),
        distinct_seq(r.deep_view()),
        forall|c: Seq<char>| #[trigger] r.deep_view().contains(c) <==> same_law_changed(before, after, c),
{
    let mut out: Vec<String> = Vec::new();
    let mut pass: usize = 0;
    while pass < 2
        invariant
            before.wf(),
            after.wf(),
            pass <= 2,
            forall|c: Seq<char>| #[trigger] out.deep_view().contains(c) ==> same_law_changed(before, after, c),
            pass >= 1 ==> forall|c: Seq<char>| #[trigger] before.has_risk.deep_view().dom().contains(c) && same_law_changed(before, after, c) ==> out.deep_view().contains(c),
            pass >= 2 ==> forall|c: Seq<char>| #[trigger] after.has_risk.deep_view().dom().contains(c) && same_law_changed(before, after, c) ==> out.deep_view().contains(c),
        decreases 2 - pass,
    {
        let src: &GraphSnapshot = if pass == 0 { before } else { after };
        proof {
            src.has_risk.lemma_view_facts();
        }
        let n = src.has_risk.len();
        let mut i: usize = 0;
        while i < n
            invariant
                before.wf(),
                after.wf(),
                src.wf(),
                pass < 2,
                pass == 0 ==> src == before,
                pass == 1 ==> src == after,
                n == src.has_risk.key_seq().len(),
                i <= n,
                forall|c: Seq<char>| #[trigger] out.deep_view().contains(c) ==> same_law_changed(before, after, c),
                pass >= 1 ==> forall|c: Seq<char>| #[trigger] before.has_risk.deep_view().dom().contains(c) && same_law_changed(before, after, c) ==> out.deep_view().contains(c),
                forall|j: int| 0 <= j < i && same_law_changed(before, after, src.has_risk.key_seq()[j]) ==> #[trigger] out.deep_view().contains(src.has_risk.key_seq()[j]),
            decreases n - i,
        {
            let (key, _list) = src.has_risk.entry_at(i);
            let wa = working_same_law(before, key.as_str());
            let wb = working_same_law(after, key.as_str());
            let ghost out0 = out.deep_view();
            if !same_members(&wa, &wb) {
                proof {
                    let d = choose|d: Seq<char>| !(#[trigger] wa.deep_view().contains(d) <==> wb.deep_view().contains(d));
                    assert(shares_law(before, key@, d) != shares_law(after, key@, d));
                }
                out.push(key.clone());
                proof {
                    assert(out.deep_view() =~= out0.push(key@));
                    assert(out.deep_view()[out0.len() as int] == key@);
                    assert(out.deep_view().contains(key@));
                    assert forall|c: Seq<char>| #[trigger] out0.contains(c) implies out.deep_view().contains(c) by {
                        let q = choose|q: int| 0 <= q < out0.len() && out0[q] == c;
                        assert(out.deep_view()[q] == c);
                    }
                    assert forall|c: Seq<char>| #[trigger] out.deep_view().contains(c) implies same_law_changed(before, after, c) by {
                        if c != key@ {
                            let q = choose|q: int| 0 <= q < out.deep_view().len() && out.deep_view()[q] == c;
                            assert(out0[q] == c);
                            assert(out0.contains(c));
                        }
                    }
                }
            } else {
                proof {
                    assert forall|d: Seq<char>| shares_law(before, key@, d) == shares_law(after, key@, d) by {
                        assert(wa.deep_view().contains(d) <==> wb.deep_view().contains(d));
                    }
                    assert(!same_law_changed(before, after, key@));
                }
            }
            proof {
                assert forall|j: int| 0 <= j < i + 1 && same_law_changed(before, after, src.has_risk.key_seq()[j]) implies #[trigger] out.deep_view().contains(src.has_risk.key_seq()[j]) by {
                    let c = src.has_risk.key_seq()[j];
                    if j < i {
                        assert(out0.contains(c));
                        let q = choose|q: int| 0 <= q < out0.len() && out0[q] == c;
                        assert(out.deep_view()[q] == c);
                    } else {
                        assert(c == key@);
                    }
                }
            }
            i += 1;
        }
        proof {
            assert forall|c: Seq<char>| #[trigger] src.has_risk.deep_view().dom().contains(c) && same_law_changed(before, after, c) implies out.deep_view().contains(c) by {
                assert(src.has_risk.key_seq().contains(c));
                let j = choose|j: int| 0 <= j < src.has_risk.key_seq().len() && src.has_risk.key_seq()[j] == c;
                assert(same_law_changed(before, after, src.has_risk.key_seq()[j]));
            }
        }
        pass += 1;
    }
    let r = sorted_unique(out);
    proof {
        assert forall|c: Seq<char>| same_law_changed(before, after, c) implies #[trigger] r.deep_view().contains(c) by {
            let d = choose|d: Seq<char>| #[trigger] shares_law(before, c, d) != shares_law(after, c, d);
            if shares_law(before, c, d) {
                let (r1, r2, law) = choose|r1: Seq<char>, r2: Seq<char>, law: Seq<char>|
                    list_has(before.has_risk.deep_view(), c, r1) && list_has(before.has_risk.deep_view(), d, r2)
                        && law_link(before, r1, law) && law_link(before, r2, law);
                assert(before.has_risk.deep_view().dom().contains(c));
            } else {
                let (r1, r2, law) = choose|r1: Seq<char>, r2: Seq<char>, law: Seq<char>|
                    list_has(after.has_risk.deep_view(), c, r1) && list_has(after.has_risk.deep_view(), d, r2)
                        && law_link(after, r1, law) && law_link(after, r2, law);
                assert(after.has_risk.deep_view().dom().contains(c));
            }
            assert(out.deep_view().contains(c));
        }
    }
    r
}

/// An element of `a + b` is an element of `a` or of `b`.
pub proof fn lemma_concat_contains<V>(a: Seq<V>, b: Seq<V>)
    ensures
        forall|x: V| #[trigger] (a + b).contains(x) <==> a.contains(x) || b.contains(x),
{
    assert forall|x: V| #[trigger] (a + b).contains(x) <==> a.contains(x) || b.contains(x) by {
        if (a + b).contains(x) {
            let q = choose|q: int| 0 <= q < (a + b).len() && (a + b)[q] == x;
            if q < a.len() {
                assert(a[q] == x);
            } else {
                assert(b[q - a.len()] == x);
            }
        }
        if a.contains(x) {
            let q = choose|q: int| 0 <= q < a.len() && a[q] == x;
            assert((a + b)[q] == x);
        }
        if b.contains(x) {
            let q = choose|q: int| 0 <= q < b.len() && b[q] == x;
            assert((a + b)[a.len() + q] == x);
        }
    }
}

/// The risks listed under some law of `laws` in `cited_by`.
pub fn risks_citing(g: &GraphSnapshot, laws: &Vec<String>) -> (r: Vec<String>)
    requires
        g.wf(),
    ensures
        forall|x: Seq<char>| #[trigger] r.deep_view().contains(x) <==> exists|i: int|
            0 <= i < laws@.len() && #[trigger] list_has(g.cited_by.deep_view(), laws.deep_view()[i], x),
{
    let mut out: Vec<String> = Vec::new();
    let mut i: usize = 0;
    while i < laws.len()
        invariant
            g.wf(),
            i <= laws@.len(),
            forall|x: Seq<char>| #[trigger] out.deep_view().contains(x) <==> exists|j: int|
                0 <= j < i && #[trigger] list_has(g.cited_by.deep_view(), laws.deep_view()[j], x),
        decreases laws@.len() - i,
    {
        let ghost before = out.deep_view();
        let ghost law = laws.deep_view()[i as int];
        proof {
            assert(law == laws@[i as int]@);
        }
        match g.cited_by.get(laws[i].as_str()) {
            Some(list) => {
                proof {
                    assert(g.cited_by.deep_view()[law] == list.deep_view());
                }
                extend_strings(&mut out, list);
                proof {
                    lemma_concat_contains(before, list.deep_view());
                }
            },
            None => {},
        }
        proof {
            assert forall|x: Seq<char>| #[trigger] out.deep_view().contains(x) <==> (before.contains(x) || list_has(g.cited_by.deep_view(), law, x)) by {
            }
            assert forall|x: Seq<char>| #[trigger] out.deep_view().contains(x) <==> exists|j: int|
                0 <= j < i + 1 && #[trigger] list_has(g.cited_by.deep_view(), laws.deep_view()[j], x) by {
                if exists|j: int| 0 <= j < i + 1 && #[trigger] list_has(g.cited_by.deep_view(), laws.deep_view()[j], x) {
                    let j = choose|j: int| 0 <= j < i + 1 && #[trigger] list_has(g.cited_by.deep_view(), laws.deep_view()[j], x);
                    if j < i {
                        assert(before.contains(x));
                    }
                }
                if out.deep_view().contains(x) && !before.contains(x) {
                    assert(list_has(g.cited_by.deep_view(), laws.deep_view()[i as int], x));
                }
            }
        }
        i += 1;
    }
    out
}

/// Risk `r` is stored and names clause `d`.
pub open spec fn risk_has_clause(g: &GraphSnapshot, r: Seq<char>, d: Seq<char>) -> bool {
    g.risks.deep_view().dom().contains(r) && g.risks.deep_view()[r].finding.clause_ids.contains(d)
}

/// The clauses (other than `exclude`) named by the stored risks of `rs`,
/// without repeats.
pub fn clauses_of_risks(g: &GraphSnapshot, rs: &Vec<String>, exclude: &str) -> (r: Vec<String>)
    requires
        g.wf(),
    ensures
        distinct_seq(r.deep_view()),
        forall|d: Seq<char>| #[trigger] r.deep_view().contains(d) <==> (d != exclude@ && exists|j: int|
            0 <= j < rs@.len() && #[trigger] risk_has_clause(g, rs.deep_view()[j], d)),
{
    let mut out: Vec<String> = Vec::new();
    let mut i: usize = 0;
    while i < rs.len()
        invariant
            g.wf(),
            i <= rs@.len(),
            distinct_seq(out.deep_view()),
            forall|d: Seq<char>| #[trigger] out.deep_view().contains(d) <==> (d != exclude@ && exists|j: int|
                0 <= j < i && #[trigger] risk_has_clause(g, rs.deep_view()[j], d)),
        decreases rs@.len() - i,
    {
        let ghost rid = rs.deep_view()[i as int];
        proof {
            assert(rid == rs@[i as int]@);
        }
        let ghost before = out.deep_view();
        match g.risks.get(rs[i].as_str()) {
            Some(node) => {
                proof {
                    assert(g.risks.deep_view()[rid] == node.deep_view());
                }
                let ids = &node.finding.clause_ids;
                let mut k: usize = 0;
                while k < ids.len()
                    invariant
                        g.wf(),
                        i < rs@.len(),
                        rid == rs.deep_view()[i as int],
                        g.risks.deep_view().dom().contains(rid),
                        g.risks.deep_view()[rid].finding.clause_ids == ids.deep_view(),
                        k <= ids@.len(),
                        distinct_seq(out.deep_view()),
                        forall|d: Seq<char>| #[trigger] out.deep_view().contains(d) <==> (d != exclude@ && (before.contains(d)
                            || ids.deep_view().take(k as int).contains(d))),
                    decreases ids@.len() - k,
                {
                    let ghost o0 = out.deep_view();
                    let ghost cid = ids.deep_view()[k as int];
                    proof {
                        assert(cid == ids@[k as int]@);
                        assert(ids.deep_view().take(k + 1) =~= ids.deep_view().take(k as int).push(cid));
                    }
                    if !str_eq(ids[k].as_str(), exclude) {
                        let c = ids[k].clone();
                        push_unique(&mut out, c);
                        proof {
                            assert forall|a: int, b: int| 0 <= a < out.deep_view().len() && 0 <= b < out.deep_view().len() && a != b implies out.deep_view()[a] != out.deep_view()[b] by {
                                if !o0.contains(cid) {
                                    assert(out.deep_view() == o0.push(cid));
                                    if a == o0.len() {
                                        assert(out.deep_view()[b] == o0[b]);
                                        assert(o0.contains(o0[b]));
                                    } else if b == o0.len() {
                                        assert(out.deep_view()[a] == o0[a]);
                                        assert(o0.contains(o0[a]));
                                    }
                                }
                            }
                            assert forall|d: Seq<char>| #[trigger] out.deep_view().contains(d) <==> (d != exclude@ && (before.contains(d)
                                || ids.deep_view().take(k + 1).contains(d))) by {
                                if !o0.contains(cid) {
                                    assert(out.deep_view() == o0.push(cid));
                                    lemma_concat_contains(o0, seq![cid]);
                                    assert(o0.push(cid) =~= o0 + seq![cid]);
                                }
                                lemma_concat_contains(ids.deep_view().take(k as int), seq![cid]);
                                assert(ids.deep_view().take(k as int).push(cid) =~= ids.deep_view().take(k as int) + seq![cid]);
                            }
                        }
                    } else {
                        proof {
                            assert forall|d: Seq<char>| #[trigger] out.deep_view().contains(d) <==> (d != exclude@ && (before.contains(d)
                                || ids.deep_view().take(k + 1).contains(d))) by {
                                lemma_concat_contains(ids.deep_view().take(k as int), seq![cid]);
                                assert(ids.deep_view().take(k as int).push(cid) =~= ids.deep_view().take(k as int) + seq![cid]);
                            }
                        }
                    }
                    k += 1;
                }
                proof {
                    assert(ids.deep_view().take(ids@.len() as int) =~= ids.deep_view());
                }
            },
            None => {},
        }
        proof {
            assert forall|d: Seq<char>| #[trigger] out.deep_view().contains(d) <==> (d != exclude@ && (before.contains(d) || risk_has_clause(g, rid, d))) by {
            }
            assert forall|d: Seq<char>| #[trigger] out.deep_view().contains(d) <==> (d != exclude@ && exists|j: int|
                0 <= j < i + 1 && #[trigger] risk_has_clause(g, rs.deep_view()[j], d)) by {
                if out.deep_view().contains(d) && !before.contains(d) {
                    assert(risk_has_clause(g, rs.deep_view()[i as int], d));
                }
                if d != exclude@ && exists|j: int| 0 <= j < i + 1 && #[trigger] risk_has_clause(g, rs.deep_view()[j], d) {
                    let j = choose|j: int| 0 <= j < i + 1 && #[trigger] risk_has_clause(g, rs.deep_view()[j], d);
                    if j < i {
                        assert(before.contains(d));
                    }
                }
            }
        }
        i += 1;
    }
    out
}

/// Clause `d` (other than `c`) is named by a stored risk that `cited_by`
/// lists under one of `laws`.
pub open spec fn related_chunk(g: &GraphSnapshot, laws: Seq<Seq<char>>, c: Seq<char>, d: Seq<char>) -> bool {
    &&& d != c
    &&& exists|i: int, r: Seq<char>|
        #![trigger list_has(g.cited_by.deep_view(), laws[i], r), risk_has_clause(g, r, d)]
        0 <= i < laws.len() && list_has(g.cited_by.deep_view(), laws[i], r) && risk_has_clause(g, r, d)
}

/// Links clause `chunk_id` both ways in `same_law` with every clause named
/// by a risk that `cited_by` lists under one of `law_refs`; returns both
/// ends of every pair that gained an edge.
fn derive_same_law_edges_in_state(state: &mut GraphSnapshot, law_refs: &Vec<String>, chunk_id: &str) -> (affected: Vec<String>)
    requires
        old(state).wf(),
    ensures
        final(state).wf(),
        unchanged_except(old(state), final(state), set![f_same_law()]),
        final(state).graph_version == old(state).graph_version,
        final(state).chunk_versions.deep_view() == old(state).chunk_versions.deep_view(),
        forall|d: Seq<char>| #[trigger] related_chunk(old(state), law_refs.deep_view(), chunk_id@, d) ==> list_has(final(state).same_law.deep_view(), chunk_id@, d) && list_has(final(state).same_law.deep_view(), d, chunk_id@),
        forall|k: Seq<char>, x: Seq<char>| #[trigger] list_has(old(state).same_law.deep_view(), k, x) ==> list_has(final(state).same_law.deep_view(), k, x),
        forall|k: Seq<char>, x: Seq<char>| #[trigger] list_has(final(state).same_law.deep_view(), k, x) ==> list_has(old(state).same_law.deep_view(), k, x)
            || (k == chunk_id@ && related_chunk(old(state), law_refs.deep_view(), chunk_id@, x))
            || (x == chunk_id@ && related_chunk(old(state), law_refs.deep_view(), chunk_id@, k)),
        forall|x: Seq<char>| #[trigger] affected.deep_view().contains(x) ==> x == chunk_id@ || related_chunk(old(state), law_refs.deep_view(), chunk_id@, x),
        forall|x: Seq<char>| #[trigger] affected.deep_view().contains(x) && x != chunk_id@ ==> !(list_has(old(state).same_law.deep_view(), chunk_id@, x) && list_has(old(state).same_law.deep_view(), x, chunk_id@)),
        affected@.len() > 0 ==> exists|d: Seq<char>| #[trigger] related_chunk(old(state), law_refs.deep_view(), chunk_id@, d)
            && !(list_has(old(state).same_law.deep_view(), chunk_id@, d) && list_has(old(state).same_law.deep_view(), d, chunk_id@)),
        affected@.len() == 0 ==> final(state).same_law.deep_view() == old(state).same_law.deep_view(),
        forall|d: Seq<char>| #[trigger] related_chunk(old(state), law_refs.deep_view(), chunk_id@, d)
            && !(list_has(old(state).same_law.deep_view(), chunk_id@, d) && list_has(old(state).same_law.deep_view(), d, chunk_id@))
            ==> affected.deep_view().contains(d) && affected.deep_view().contains(chunk_id@),
{
    let ghost c = chunk_id@;
    let ghost laws = law_refs.deep_view();
    let risks = risks_citing(state, law_refs);
    let others = clauses_of_risks(state, &risks, chunk_id);
    let ghost ov = others.deep_view();
    proof {
        assert forall|d: Seq<char>| #[trigger] ov.contains(d) <==> related_chunk(old(state), laws, c, d) by {
            if ov.contains(d) {
                let j = choose|j: int| 0 <= j < risks@.len() && #[trigger] risk_has_clause(old(state), risks.deep_view()[j], d);
                let r = risks.deep_view()[j];
                assert(risks.deep_view().contains(r));
                let i = choose|i: int| 0 <= i < law_refs@.len() && #[trigger] list_has(old(state).cited_by.deep_view(), law_refs.deep_view()[i], r);
                assert(list_has(old(state).cited_by.deep_view(), laws[i], r) && risk_has_clause(old(state), r, d));
            }
            if related_chunk(old(state), laws, c, d) {
                let (i, r) = choose|i: int, r: Seq<char>| 0 <= i < laws.len() && list_has(old(state).cited_by.deep_view(), laws[i], r) && risk_has_clause(old(state), r, d);
                assert(risks.deep_view().contains(r));
                let j = choose|j: int| 0 <= j < risks.deep_view().len() && risks.deep_view()[j] == r;
                assert(risk_has_clause(old(state), risks.deep_view()[j], d));
            }
        }
    }
    let mut affected: Vec<String> = Vec::new();
    let mut k: usize = 0;
    while k < others.len()
        invariant
            state.wf(),
            k <= ov.len(),
            ov == others.deep_view(),
            c == chunk_id@,
            distinct_seq(ov),
            !ov.contains(c),
            unchanged_except(old(state), state, set![f_same_law()]),
            state.graph_version == old(state).graph_version,
            state.chunk_versions.deep_view() == old(state).chunk_versions.deep_view(),
            forall|j: int| 0 <= j < k ==> #[trigger] list_has(state.same_law.deep_view(), c, ov[j]) && list_has(state.same_law.deep_view(), ov[j], c),
            forall|a: Seq<char>, x: Seq<char>| #[trigger] list_has(old(state).same_law.deep_view(), a, x) ==> list_has(state.same_law.deep_view(), a, x),
            forall|a: Seq<char>, x: Seq<char>| #[trigger] list_has(state.same_law.deep_view(), a, x) ==> list_has(old(state).same_law.deep_view(), a, x)
                || (a == c && ov.take(k as int).contains(x)) || (x == c && ov.take(k as int).contains(a)),
            forall|x: Seq<char>| #[trigger] affected.deep_view().contains(x) ==> x == c || ov.contains(x),
            forall|x: Seq<char>| #[trigger] affected.deep_view().contains(x) && x != c ==> !(list_has(old(state).same_law.deep_view(), c, x) && list_has(old(state).same_law.deep_view(), x, c)),
            affected@.len() > 0 ==> exists|j: int| 0 <= j < k && !(list_has(old(state).same_law.deep_view(), c, #[trigger] ov[j]) && list_has(old(state).same_law.deep_view(), ov[j], c)),
            affected@.len() == 0 ==> state.same_law.deep_view() == old(state).same_law.deep_view(),
            forall|j: int| #![trigger ov[j]] 0 <= j < k && !(list_has(old(state).same_law.deep_view(), c, ov[j]) && list_has(old(state).same_law.deep_view(), ov[j], c))
                ==> affected.deep_view().contains(ov[j]) && affected.deep_view().contains(c),
        decreases ov.len() - k,
    {
        let other = others[k].clone();
        let ghost o = other@;
        proof {
            assert(o == ov[k as int]);
            assert(ov.take(k + 1) =~= ov.take(k as int).push(o));
            assert(!ov.take(k as int).contains(o)) by {
                if ov.take(k as int).contains(o) {
                    let q = choose|q: int| 0 <= q < k && ov.take(k as int)[q] == o;
                    assert(ov[q] == ov[k as int]);
                }
            }
            assert(o != c);
        }
        let ghost s0 = *state;
        let ghost aff0 = affected.deep_view();
        proof {
            assert forall|j: int| #![trigger ov[j]] 0 <= j < k && !(list_has(old(state).same_law.deep_view(), c, ov[j]) && list_has(old(state).same_law.deep_view(), ov[j], c))
                implies aff0.contains(ov[j]) && aff0.contains(c) by {
                assert(affected.deep_view().contains(ov[j]));
            }
        }
        let ch1 = entry_push_unique(&mut state.same_law, chunk_id, other.clone());
        let ghost s1 = *state;
        let ch2 = entry_push_unique(&mut state.same_law, other.as_str(), to_owned_string(chunk_id));
        proof {
            lemma_entry_pushed_has(s0.same_law.deep_view(), c, o);
            lemma_entry_pushed_has(s1.same_law.deep_view(), o, c);
            assert(s1.same_law.deep_view() == s0.same_law.deep_view().insert(c, entry_pushed(s0.same_law.deep_view(), c, o)));
            assert(state.same_law.deep_view() == s1.same_law.deep_view().insert(o, entry_pushed(s1.same_law.deep_view(), o, c)));
            // before this step the pair (c, o) has its old edges
            if list_has(s0.same_law.deep_view(), c, o) {
                assert(list_has(old(state).same_law.deep_view(), c, o));
            }
            if list_has(s0.same_law.deep_view(), o, c) {
                assert(list_has(old(state).same_law.deep_view(), o, c));
            }
            if list_has(s1.same_law.deep_view(), o, c) {
                assert(list_has(s0.same_law.deep_view(), o, c));
            }
        }
        if ch1 || ch2 {
            affected.push(to_owned_string(chunk_id));
            affected.push(other);
        }
        proof {
            if ch1 || ch2 {
                assert(affected.deep_view() =~= aff0.push(c).push(o));
                assert(affected.deep_view()[aff0.len() as int] == c);
                assert(affected.deep_view()[aff0.len() as int + 1] == o);
                assert forall|x: Seq<char>| #[trigger] aff0.contains(x) implies affected.deep_view().contains(x) by {
                    let q = choose|q: int| 0 <= q < aff0.len() && aff0[q] == x;
                    assert(affected.deep_view()[q] == x);
                }
                assert forall|x: Seq<char>| #[trigger] affected.deep_view().contains(x) implies x == c || ov.contains(x) by {
                    let q = choose|q: int| 0 <= q < affected.deep_view().len() && affected.deep_view()[q] == x;
                    if q < aff0.len() {
                        assert(aff0[q] == x);
                        assert(aff0.contains(x));
                    }
                }
                // the pair (c, o) had not been touched before this step
                if list_has(s0.same_law.deep_view(), c, o) {
                    assert(list_has(old(state).same_law.deep_view(), c, o));
                }
                assert(!(list_has(old(state).same_law.deep_view(), c, o) && list_has(old(state).same_law.deep_view(), o, c)));
                assert forall|x: Seq<char>| #[trigger] affected.deep_view().contains(x) && x != c implies !(list_has(old(state).same_law.deep_view(), c, x) && list_has(old(state).same_law.deep_view(), x, c)) by {
                    let q = choose|q: int| 0 <= q < affected.deep_view().len() && affected.deep_view()[q] == x;
                    if q < aff0.len() {
                        assert(aff0[q] == x);
                        assert(aff0.contains(x));
                    }
                }
                assert(ov[k as int] == o);
            } else {
                assert(list_has(old(state).same_law.deep_view(), c, o));
                assert(list_has(old(state).same_law.deep_view(), o, c));
                if affected@.len() == 0 {
                    assert(s1.same_law.deep_view() =~= s0.same_law.deep_view());
                    assert(state.same_law.deep_view() =~= s1.same_law.deep_view());
                }
                if affected@.len() > 0 {
                    let j = choose|j: int| 0 <= j < k && !(list_has(old(state).same_law.deep_view(), c, #[trigger] ov[j]) && list_has(old(state).same_law.deep_view(), ov[j], c));
                }
            }
            assert forall|j: int| 0 <= j < k + 1 implies #[trigger] list_has(state.same_law.deep_view(), c, ov[j]) && list_has(state.same_law.deep_view(), ov[j], c) by {
                if j < k {
                    assert(list_has(s0.same_law.deep_view(), c, ov[j]));
                    assert(list_has(s0.same_law.deep_view(), ov[j], c));
                    assert(list_has(s1.same_law.deep_view(), c, ov[j]));
                    assert(list_has(s1.same_law.deep_view(), ov[j], c));
                } else {
                    assert(list_has(s1.same_law.deep_view(), c, o));
                }
            }
            assert forall|a: Seq<char>, x: Seq<char>| #[trigger] list_has(old(state).same_law.deep_view(), a, x) implies list_has(state.same_law.deep_view(), a, x) by {
                assert(list_has(s0.same_law.deep_view(), a, x));
                assert(list_has(s1.same_law.deep_view(), a, x));
            }
            assert forall|a: Seq<char>, x: Seq<char>| #[trigger] list_has(state.same_law.deep_view(), a, x) implies list_has(old(state).same_law.deep_view(), a, x)
                || (a == c && ov.take(k + 1).contains(x)) || (x == c && ov.take(k + 1).contains(a)) by {
                assert(ov.take(k + 1)[k as int] == o);
                if list_has(s1.same_law.deep_view(), a, x) {
                    if list_has(s0.same_law.deep_view(), a, x) {
                        if a == c && ov.take(k as int).contains(x) {
                            let q = choose|q: int| 0 <= q < k && ov.take(k as int)[q] == x;
                            assert(ov.take(k + 1)[q] == x);
                        }
                        if x == c && ov.take(k as int).contains(a) {
                            let q = choose|q: int| 0 <= q < k && ov.take(k as int)[q] == a;
                            assert(ov.take(k + 1)[q] == a);
                        }
                    }
                }
            }
            assert forall|j: int| #![trigger ov[j]] 0 <= j < k + 1 && !(list_has(old(state).same_law.deep_view(), c, ov[j]) && list_has(old(state).same_law.deep_view(), ov[j], c))
                implies affected.deep_view().contains(ov[j]) && affected.deep_view().contains(c) by {
                if j < k {
                    assert(!(list_has(old(state).same_law.deep_view(), c, ov[j]) && list_has(old(state).same_law.deep_view(), ov[j], c)));
                    assert(aff0.contains(ov[j]));
                    assert(aff0.contains(c));
                    if ch1 || ch2 {
                        assert(affected.deep_view().contains(ov[j]));
                        assert(affected.deep_view().contains(c));
                    }
                } else {
                    assert(ov[j] == o);
                    if !(ch1 || ch2) {
                        assert(list_has(old(state).same_law.deep_view(), c, o));
                    }
                }
            }
            assert forall|f: int| 0 <= f < 14 && !set![f_same_law()].contains(f) implies #[trigger] keeps(old(state), state, f) by {
                assert(keeps(old(state), &s0, f));
                assert(keeps(&s0, &s1, f));
                assert(keeps(&s1, state, f));
            }
        }
        k += 1;
    }
    proof {
        assert(ov.take(ov.len() as int) =~= ov);
        if affected@.len() > 0 {
            let j = choose|j: int| 0 <= j < ov.len() && !(list_has(old(state).same_law.deep_view(), c, #[trigger] ov[j]) && list_has(old(state).same_law.deep_view(), ov[j], c));
            assert(ov.contains(ov[j]));
            assert(related_chunk(old(state), law_refs.deep_view(), chunk_id@, ov[j]));
        }
        assert forall|d: Seq<char>| #[trigger] related_chunk(old(state), law_refs.deep_view(), chunk_id@, d) implies list_has(state.same_law.deep_view(), chunk_id@, d) && list_has(state.same_law.deep_view(), d, chunk_id@) by {
            assert(ov.contains(d));
            let j = choose|j: int| 0 <= j < ov.len() && ov[j] == d;
            assert(list_has(state.same_law.deep_view(), c, ov[j]));
        }
        assert forall|d: Seq<char>| #[trigger] related_chunk(old(state), law_refs.deep_view(), chunk_id@, d)
            && !(list_has(old(state).same_law.deep_view(), chunk_id@, d) && list_has(old(state).same_law.deep_view(), d, chunk_id@))
            implies affected.deep_view().contains(d) && affected.deep_view().contains(chunk_id@) by {
            assert(ov.contains(d));
            let j = choose|j: int| 0 <= j < ov.len() && ov[j] == d;
            assert(affected.deep_view().contains(ov[j]));
        }
    }
    affected
}

/// From `a` to `b` the graph version went up once and exactly the chunks
/// satisfying `p` had their version bumped once.
pub open spec fn versions_bumped(a: &GraphSnapshot, b: &GraphSnapshot, p: spec_fn(Seq<char>) -> bool) -> bool {
    &&& b.graph_version == sat_inc(a.graph_version)
    &&& forall|k: Seq<char>| #[trigger] b.chunk_versions.deep_view().dom().contains(k) <==> a.chunk_versions.deep_view().dom().contains(k) || p(k)
    &&& forall|k: Seq<char>| #[trigger] version_of(b.chunk_versions.deep_view(), k) == if p(k) {
        sat_inc(version_of(a.chunk_versions.deep_view(), k))
    } else {
        version_of(a.chunk_versions.deep_view(), k)
    }
}

/// Versions bumped by a list whose members are exactly those satisfying `p`.
pub proof fn lemma_bumped_by_members(a: &GraphSnapshot, b: &GraphSnapshot, s: Seq<Seq<char>>, p: spec_fn(Seq<char>) -> bool)
    requires
        b.graph_version == sat_inc(a.graph_version),
        b.chunk_versions.deep_view() == bumped(a.chunk_versions.deep_view(), s),
        forall|k: Seq<char>| #[trigger] s.contains(k) <==> p(k),
    ensures
        versions_bumped(a, b, p),
{
    assert forall|k: Seq<char>| #[trigger] version_of(b.chunk_versions.deep_view(), k) == if p(k) {
        sat_inc(version_of(a.chunk_versions.deep_view(), k))
    } else {
        version_of(a.chunk_versions.deep_view(), k)
    } by {
        if s.contains(k) {
        } else {
        }
    }
}

/// The indexes that working same-law neighbours are read from are the same
/// in `a` and `b`.
pub open spec fn same_index(a: &GraphSnapshot, b: &GraphSnapshot) -> bool {
    &&& a.risks.deep_view() == b.risks.deep_view()
    &&& a.has_risk.deep_view() == b.has_risk.deep_view()
    &&& a.cites.deep_view() == b.cites.deep_view()
    &&& a.cited_by.deep_view() == b.cited_by.deep_view()
}

/// A working same-law pair carries over to a graph with the same indexes.
pub proof fn lemma_shares_law_transfer(a: &GraphSnapshot, a2: &GraphSnapshot, c: Seq<char>, d: Seq<char>)
    requires
        same_index(a, a2),
        shares_law(a, c, d),
    ensures
        shares_law(a2, c, d),
{
    let (r1, r2, law) = choose|r1: Seq<char>, r2: Seq<char>, law: Seq<char>|
        list_has(a.has_risk.deep_view(), c, r1) && list_has(a.has_risk.deep_view(), d, r2)
            && law_link(a, r1, law) && law_link(a, r2, law);
    assert(law_link(a2, r1, law));
    assert(law_link(a2, r2, law));
    assert(list_has(a2.has_risk.deep_view(), c, r1) && list_has(a2.has_risk.deep_view(), d, r2));
}

/// Working same-law neighbours depend on the indexes alone.
pub proof fn lemma_same_index_same_law(a: &GraphSnapshot, b: &GraphSnapshot, a2: &GraphSnapshot, b2: &GraphSnapshot)
    requires
        same_index(a, a2),
        same_index(b, b2),
    ensures
        forall|c: Seq<char>, d: Seq<char>| #[trigger] shares_law(a, c, d) == shares_law(a2, c, d),
        forall|c: Seq<char>, d: Seq<char>| #[trigger] shares_law(b, c, d) == shares_law(b2, c, d),
        forall|c: Seq<char>| #[trigger] same_law_changed(a, b, c) == same_law_changed(a2, b2, c),
{
    assert forall|c: Seq<char>, d: Seq<char>| #[trigger] shares_law(a, c, d) == shares_law(a2, c, d) by {
        if shares_law(a, c, d) {
            lemma_shares_law_transfer(a, a2, c, d);
        }
        if shares_law(a2, c, d) {
            lemma_shares_law_transfer(a2, a, c, d);
        }
    }
    assert forall|c: Seq<char>, d: Seq<char>| #[trigger] shares_law(b, c, d) == shares_law(b2, c, d) by {
        if shares_law(b, c, d) {
            lemma_shares_law_transfer(b, b2, c, d);
        }
        if shares_law(b2, c, d) {
            lemma_shares_law_transfer(b2, b, c, d);
        }
    }
    assert forall|c: Seq<char>| #[trigger] same_law_changed(a, b, c) == same_law_changed(a2, b2, c) by {
        if same_law_changed(a, b, c) {
            let d = choose|d: Seq<char>| #[trigger] shares_law(a, c, d) != shares_law(b, c, d);
            assert(shares_law(a2, c, d) != shares_law(b2, c, d));
        }
        if same_law_changed(a2, b2, c) {
            let d = choose|d: Seq<char>| #[trigger] shares_law(a2, c, d) != shares_law(b2, c, d);
            assert(shares_law(a, c, d) != shares_law(b, c, d));
        }
    }
}

/// Clause `d` holds (in `has_risk`) a risk of `direct` or a visible finding
/// that cites one of `laws`.
pub open spec fn indexed_for(g: &GraphSnapshot, direct: Seq<Seq<char>>, laws: Seq<Seq<char>>, d: Seq<char>) -> bool {
    exists|x: Seq<char>| #[trigger] list_has(g.has_risk.deep_view(), d, x) && (direct.contains(x) || exists|i: int|
        0 <= i < laws.len() && #[trigger] law_link(g, x, laws[i]))
}

/// The clauses touched by a change of the risks `direct_risk_ids` and of the
/// laws `law_refs`, sorted and without repeats.
pub fn indexed_chunks_for_changes_in_state(g: &GraphSnapshot, direct_risk_ids: &Vec<String>, law_refs: &Vec<String>) -> (r: Vec<String>)
    requires
        g.wf(),
    ensures
        sorted_seq(r.deep_view()),
        distinct_seq(r.deep_view()),
        forall|d: Seq<char>| #[trigger] r.deep_view().contains(d) <==> indexed_for(g, direct_risk_ids.deep_view(), law_refs.deep_view(), d),
{
    let mut combined: Vec<String> = Vec::new();
    extend_strings(&mut combined, direct_risk_ids);
    let via = risks_of_laws(g, law_refs);
    let ghost c0 = combined.deep_view();
    extend_strings(&mut combined, &via);
    let r = chunks_holding(g, &combined, None);
    proof {
        assert(c0 =~= direct_risk_ids.deep_view());
        lemma_concat_contains(c0, via.deep_view());
        assert forall|d: Seq<char>| #[trigger] r.deep_view().contains(d) <==> indexed_for(g, direct_risk_ids.deep_view(), law_refs.deep_view(), d) by {
            if r.deep_view().contains(d) {
                let x = choose|x: Seq<char>| #[trigger] list_has(g.has_risk.deep_view(), d, x) && combined.deep_view().contains(x);
                assert(combined.deep_view().contains(x));
            }
            if indexed_for(g, direct_risk_ids.deep_view(), law_refs.deep_view(), d) {
                let x = choose|x: Seq<char>| #[trigger] list_has(g.has_risk.deep_view(), d, x) && (direct_risk_ids.deep_view().contains(x) || exists|i: int|
                    0 <= i < law_refs.deep_view().len() && #[trigger] law_link(g, x, law_refs.deep_view()[i]));
                assert(combined.deep_view().contains(x));
            }
        }
    }
    r
}

/// A node as the compatibility write paths store it: its law references
/// are its finding's legal basis.
pub open spec fn with_law_refs(n: crate::graph_types::RiskNodeView) -> crate::graph_types::RiskNodeView {
    crate::graph_types::RiskNodeView { law_refs: n.finding.legal_basis, ..n }
}

impl SessionGraph {
    /// Adds the edge `chunk_id → risk_id` to `has_risk`, unless the risk is
    /// final. A new edge bumps the clause and every clause whose working
    /// same-law neighbours changed.
    pub fn add_has_risk(&mut self, chunk_id: &str, risk_id: &str)
        requires
            old(self).wf(),
        ensures
            final(self).wf(),
            terminal(&old(self).graph(), risk_id@) ==> same_graph(&old(self).graph(), &final(self).graph()),
            !terminal(&old(self).graph(), risk_id@) ==> {
                &&& final(self).graph().has_risk.deep_view() == old(self).graph().has_risk.deep_view().insert(
                    chunk_id@,
                    entry_pushed(old(self).graph().has_risk.deep_view(), chunk_id@, risk_id@),
                )
                &&& unchanged_except(&old(self).graph(), &final(self).graph(), set![f_has_risk()])
                &&& if entry_lacks(old(self).graph().has_risk.deep_view(), chunk_id@, risk_id@) {
                    versions_bumped(&old(self).graph(), &final(self).graph(), |x: Seq<char>| x == chunk_id@
                        || same_law_changed(&old(self).graph(), &final(self).graph(), x))
                } else {
                    &&& final(self).graph().graph_version == old(self).graph().graph_version
                    &&& final(self).graph().chunk_versions.deep_view() == old(self).graph().chunk_versions.deep_view()
                }
            },
            final(self).search_cache() == old(self).search_cache(),
            final(self).issued_risk_ids() == old(self).issued_risk_ids(),
            final(self).scout_done() == old(self).scout_done(),
    {
        if is_terminal_risk(&self.state, risk_id) {
            return;
        }
        let before = self.state.dup_graph();
        let changed = entry_push_unique(&mut self.state.has_risk, chunk_id, to_owned_string(risk_id));
        if !changed {
            proof {
                assert(self.state.has_risk.deep_view() =~= old(self).state.has_risk.deep_view());
            }
            return;
        }
        let ghost mid = self.state;
        let mut affected = vec![to_owned_string(chunk_id)];
        let ch = changed_agent_same_law_chunks(&before, &self.state);
        let ghost a0 = affected.deep_view();
        extend_strings(&mut affected, &ch);
        bump_versions(&mut self.state, &affected);
        proof {
            assert(a0 =~= seq![chunk_id@]);
            lemma_concat_contains(a0, ch.deep_view());
            assert(keeps(&mid, &self.state, f_has_risk()));
            assert forall|f: int| 0 <= f < 14 && !set![f_has_risk()].contains(f) implies #[trigger] keeps(
                &old(self).graph(),
                &self.graph(),
                f,
            ) by {
                assert(keeps(&mid, &self.state, f));
            }
            let p = |x: Seq<char>| x == chunk_id@ || same_law_changed(&old(self).graph(), &self.graph(), x);
            lemma_same_index_same_law(&before, &mid, &old(self).graph(), &self.graph());
            assert forall|x: Seq<char>| #[trigger] affected.deep_view().contains(x) <==> p(x) by {
                assert(same_law_changed(&before, &mid, x) == same_law_changed(&old(self).graph(), &self.graph(), x));
                assert(ch.deep_view().contains(x) <==> same_law_changed(&before, &mid, x));
                if x == chunk_id@ {
                    assert(a0[0] == x);
                }
                assert((a0 + ch.deep_view()).contains(x) <==> a0.contains(x) || ch.deep_view().contains(x));
            }
            lemma_bumped_by_members(&old(self).graph(), &self.graph(), affected.deep_view(), p);
        }
    }
}

impl SessionGraph {
    /// Adds `risk_id → law_ref` to `cites` and `law_ref → risk_id` to
    /// `cited_by`, unless the risk is final. A new edge bumps the risk's
    /// clauses and every clause whose working same-law neighbours changed.
    pub fn add_cites(&mut self, risk_id: &str, law_ref: &str)
        requires
            old(self).wf(),
        ensures
            final(self).wf(),
            terminal(&old(self).graph(), risk_id@) ==> same_graph(&old(self).graph(), &final(self).graph()),
            !terminal(&old(self).graph(), risk_id@) ==> {
                &&& final(self).graph().cites.deep_view() == old(self).graph().cites.deep_view().insert(
                    risk_id@,
                    entry_pushed(old(self).graph().cites.deep_view(), risk_id@, law_ref@),
                )
                &&& final(self).graph().cited_by.deep_view() == old(self).graph().cited_by.deep_view().insert(
                    law_ref@,
                    entry_pushed(old(self).graph().cited_by.deep_view(), law_ref@, risk_id@),
                )
                &&& unchanged_except(&old(self).graph(), &final(self).graph(), set![f_cites(), f_cited_by()])
                &&& if entry_lacks(old(self).graph().cites.deep_view(), risk_id@, law_ref@)
                    || entry_lacks(old(self).graph().cited_by.deep_view(), law_ref@, risk_id@) {
                    versions_bumped(&old(self).graph(), &final(self).graph(), |x: Seq<char>| risk_has_clause(&old(self).graph(), risk_id@, x)
                        || same_law_changed(&old(self).graph(), &final(self).graph(), x))
                } else {
                    &&& final(self).graph().graph_version == old(self).graph().graph_version
                    &&& final(self).graph().chunk_versions.deep_view() == old(self).graph().chunk_versions.deep_view()
                }
            },
            final(self).search_cache() == old(self).search_cache(),
            final(self).issued_risk_ids() == old(self).issued_risk_ids(),
            final(self).scout_done() == old(self).scout_done(),
    {
        if is_terminal_risk(&self.state, risk_id) {
            return;
        }
        let before = self.state.dup_graph();
        let c1 = entry_push_unique(&mut self.state.cites, risk_id, to_owned_string(law_ref));
        let c2 = entry_push_unique(&mut self.state.cited_by, law_ref, to_owned_string(risk_id));
        if !(c1 || c2) {
            proof {
                assert(self.state.cites.deep_view() =~= old(self).state.cites.deep_view());
                assert(self.state.cited_by.deep_view() =~= old(self).state.cited_by.deep_view());
            }
            return;
        }
        let ghost mid = self.state;
        let mut affected: Vec<String> = Vec::new();
        match self.state.risks.get(risk_id) {
            Some(node) => {
                proof {
                    assert(self.state.risks.deep_view()[risk_id@] == node.deep_view());
                }
                extend_strings(&mut affected, &node.finding.clause_ids);
            },
            None => {},
        }
        let ghost a0 = affected.deep_view();
        proof {
            assert forall|x: Seq<char>| #[trigger] a0.contains(x) <==> risk_has_clause(&old(self).graph(), risk_id@, x) by {
                if !self.state.risks.deep_view().dom().contains(risk_id@) {
                    assert(a0 =~= Seq::<Seq<char>>::empty());
                }
            }
        }
        let ch = changed_agent_same_law_chunks(&before, &self.state);
        extend_strings(&mut affected, &ch);
        bump_versions(&mut self.state, &affected);
        proof {
            lemma_concat_contains(a0, ch.deep_view());
            assert(keeps(&mid, &self.state, f_cites()));
            assert(keeps(&mid, &self.state, f_cited_by()));
            assert forall|f: int| 0 <= f < 14 && !set![f_cites(), f_cited_by()].contains(f) implies #[trigger] keeps(
                &old(self).graph(),
                &self.graph(),
                f,
            ) by {
                assert(keeps(&mid, &self.state, f));
            }
            let p = |x: Seq<char>| risk_has_clause(&old(self).graph(), risk_id@, x) || same_law_changed(&old(self).graph(), &self.graph(), x);
            lemma_same_index_same_law(&before, &mid, &old(self).graph(), &self.graph());
            assert forall|x: Seq<char>| #[trigger] affected.deep_view().contains(x) <==> p(x) by {
                assert(same_law_changed(&before, &mid, x) == same_law_changed(&old(self).graph(), &self.graph(), x));
                assert(ch.deep_view().contains(x) <==> same_law_changed(&before, &mid, x));
            }
            lemma_bumped_by_members(&old(self).graph(), &self.graph(), affected.deep_view(), p);
        }
    }

    /// Stores (or replaces) a risk node whose law references are taken from
    /// its legal basis, unless the node is not provisional or the stored
    /// risk is final. Bumps the node's clauses, the clauses indexing it and
    /// every clause whose working same-law neighbours changed.
    pub fn add_risk(&mut self, risk: RiskNode)
        requires
            old(self).wf(),
        ensures
            final(self).wf(),
            !legacy_ok(risk.deep_view()) || terminal(&old(self).graph(), risk.finding.risk_id@) ==> same_graph(&old(self).graph(), &final(self).graph()),
            legacy_ok(risk.deep_view()) && !terminal(&old(self).graph(), risk.finding.risk_id@) ==> {
                &&& final(self).graph().risks.deep_view() == old(self).graph().risks.deep_view().insert(
                    risk.finding.risk_id@,
                    with_law_refs(risk.deep_view()),
                )
                &&& unchanged_except(&old(self).graph(), &final(self).graph(), set![f_risks()])
                &&& versions_bumped(&old(self).graph(), &final(self).graph(), |x: Seq<char>| risk.finding.clause_ids.deep_view().contains(x)
                    || list_has(final(self).graph().has_risk.deep_view(), x, risk.finding.risk_id@)
                    || same_law_changed(&old(self).graph(), &final(self).graph(), x))
            },
            final(self).search_cache() == old(self).search_cache(),
            final(self).issued_risk_ids() == old(self).issued_risk_ids(),
            final(self).scout_done() == old(self).scout_done(),
    {
        let mut risk = risk;
        let ghost rv = risk.deep_view();
        let refs = risk.finding.legal_basis.dup();
        risk.law_refs = refs;
        proof {
            assert(risk.deep_view() == with_law_refs(rv));
        }
        if !is_valid_legacy_risk_input(&risk) || is_terminal_risk(&self.state, risk.finding.risk_id.as_str()) {
            return;
        }
        let before = self.state.dup_graph();
        let id = risk.finding.risk_id.clone();
        let mut affected: Vec<String> = Vec::new();
        extend_strings(&mut affected, &risk.finding.clause_ids);
        let ghost nv = risk.deep_view();
        self.state.risks.insert(id.clone(), risk);
        let ghost mid = self.state;
        let direct = vec![id.clone()];
        let empty: Vec<String> = Vec::new();
        let idx = indexed_chunks_for_changes_in_state(&self.state, &direct, &empty);
        let ghost a0 = affected.deep_view();
        extend_strings(&mut affected, &idx);
        let ghost a1 = affected.deep_view();
        let ch = changed_agent_same_law_chunks(&before, &self.state);
        extend_strings(&mut affected, &ch);
        bump_versions(&mut self.state, &affected);
        proof {
            assert(direct.deep_view() =~= seq![id@]);
            assert(empty.deep_view() =~= Seq::<Seq<char>>::empty());
            lemma_concat_contains(a0, idx.deep_view());
            lemma_concat_contains(a1, ch.deep_view());
            assert(self.state.risks.deep_view() =~= old(self).state.risks.deep_view().insert(id@, nv));
            assert(keeps(&mid, &self.state, f_risks()));
            assert forall|f: int| 0 <= f < 14 && !set![f_risks()].contains(f) implies #[trigger] keeps(
                &old(self).graph(),
                &self.graph(),
                f,
            ) by {
                assert(keeps(&mid, &self.state, f));
            }
            let p = |x: Seq<char>| rv.finding.clause_ids.contains(x) || list_has(self.state.has_risk.deep_view(), x, id@)
                || same_law_changed(&old(self).graph(), &self.graph(), x);
            lemma_same_index_same_law(&before, &mid, &old(self).graph(), &self.graph());
            assert forall|x: Seq<char>| #[trigger] affected.deep_view().contains(x) <==> p(x) by {
                assert(same_law_changed(&before, &mid, x) == same_law_changed(&old(self).graph(), &self.graph(), x));
                assert(ch.deep_view().contains(x) <==> same_law_changed(&before, &mid, x));
                assert(idx.deep_view().contains(x) <==> indexed_for(&mid, seq![id@], Seq::empty(), x));
                if list_has(self.state.has_risk.deep_view(), x, id@) {
                    assert(seq![id@][0] == id@);
                    assert(list_has(mid.has_risk.deep_view(), x, id@) && seq![id@].contains(id@));
                }
                if indexed_for(&mid, seq![id@], Seq::empty(), x) {
                    let y = choose|y: Seq<char>| #[trigger] list_has(mid.has_risk.deep_view(), x, y) && (seq![id@].contains(y) || exists|i: int|
                        0 <= i < Seq::<Seq<char>>::empty().len() && #[trigger] law_link(&mid, y, Seq::<Seq<char>>::empty()[i]));
                    assert(y == id@);
                }
            }
            lemma_bumped_by_members(&old(self).graph(), &self.graph(), affected.deep_view(), p);
        }
    }
}

/// Writes `risk_id → law` into `cites` for every law of `law_refs` (no
/// reverse edge, no law node).
fn add_cite_edges_in_state(state: &mut GraphSnapshot, risk_id: &str, law_refs: &Vec<String>)
    requires
        old(state).wf(),
    ensures
        final(state).wf(),
        forall|i: int| 0 <= i < law_refs@.len() ==> #[trigger] list_has(final(state).cites.deep_view(), risk_id@, law_refs.deep_view()[i]),
        forall|k: Seq<char>, x: Seq<char>| #[trigger] list_has(old(state).cites.deep_view(), k, x) ==> list_has(final(state).cites.deep_view(), k, x),
        forall|k: Seq<char>, x: Seq<char>| #[trigger] list_has(final(state).cites.deep_view(), k, x) ==> list_has(old(state).cites.deep_view(), k, x) || (k == risk_id@ && law_refs.deep_view().contains(x)),
        unchanged_except(old(state), final(state), set![f_cites()]),
        final(state).graph_version == old(state).graph_version,
        final(state).chunk_versions.deep_view() == old(state).chunk_versions.deep_view(),
{
    let mut i: usize = 0;
    while i < law_refs.len()
        invariant
            state.wf(),
            i <= law_refs@.len(),
            forall|j: int| 0 <= j < i ==> #[trigger] list_has(state.cites.deep_view(), risk_id@, law_refs.deep_view()[j]),
            forall|k: Seq<char>, x: Seq<char>| #[trigger] list_has(old(state).cites.deep_view(), k, x) ==> list_has(state.cites.deep_view(), k, x),
            forall|k: Seq<char>, x: Seq<char>| #[trigger] list_has(state.cites.deep_view(), k, x) ==> list_has(old(state).cites.deep_view(), k, x) || (k == risk_id@ && law_refs.deep_view().contains(x)),
            unchanged_except(old(state), state, set![f_cites()]),
            state.graph_version == old(state).graph_version,
            state.chunk_versions.deep_view() == old(state).chunk_versions.deep_view(),
        decreases law_refs@.len() - i,
    {
        let ghost lv = law_refs.deep_view()[i as int];
        proof {
            assert(lv == law_refs@[i as int]@);
            assert(law_refs.deep_view().contains(lv));
        }
        let ghost s0 = *state;
        entry_push_unique(&mut state.cites, risk_id, law_refs[i].clone());
        proof {
            lemma_entry_pushed_has(s0.cites.deep_view(), risk_id@, lv);
            assert forall|j: int| 0 <= j < i + 1 implies #[trigger] list_has(state.cites.deep_view(), risk_id@, law_refs.deep_view()[j]) by {
                if j < i {
                    assert(list_has(s0.cites.deep_view(), risk_id@, law_refs.deep_view()[j]));
                }
            }
            assert forall|k: Seq<char>, x: Seq<char>| #[trigger] list_has(old(state).cites.deep_view(), k, x) implies list_has(state.cites.deep_view(), k, x) by {
                assert(list_has(s0.cites.deep_view(), k, x));
            }
            assert forall|f: int| 0 <= f < 14 && !set![f_cites()].contains(f) implies #[trigger] keeps(old(state), state, f) by {
                assert(keeps(old(state), &s0, f));
                assert(keeps(&s0, state, f));
            }
        }
        i += 1;
    }
}

/// `related_chunk` reads `cited_by` and `risks` alone.
pub proof fn lemma_related_transfer(a: &GraphSnapshot, b: &GraphSnapshot, laws: Seq<Seq<char>>, c: Seq<char>)
    requires
        a.cited_by.deep_view() == b.cited_by.deep_view(),
        a.risks.deep_view() == b.risks.deep_view(),
    ensures
        forall|d: Seq<char>| #[trigger] related_chunk(a, laws, c, d) == related_chunk(b, laws, c, d),
{
    assert forall|d: Seq<char>| #[trigger] related_chunk(a, laws, c, d) == related_chunk(b, laws, c, d) by {
        if related_chunk(a, laws, c, d) {
            let (i, r) = choose|i: int, r: Seq<char>| 0 <= i < laws.len() && list_has(a.cited_by.deep_view(), laws[i], r) && risk_has_clause(a, r, d);
            assert(list_has(b.cited_by.deep_view(), laws[i], r) && risk_has_clause(b, r, d));
        }
        if related_chunk(b, laws, c, d) {
            let (i, r) = choose|i: int, r: Seq<char>| 0 <= i < laws.len() && list_has(b.cited_by.deep_view(), laws[i], r) && risk_has_clause(b, r, d);
            assert(list_has(a.cited_by.deep_view(), laws[i], r) && risk_has_clause(a, r, d));
        }
    }
}

impl SessionGraph {
    /// Stores a scout hypothesis: the node (law references taken from its
    /// legal basis), the edge `chunk_id → risk_id` and its `cites` edges, but
    /// no reverse edge, law node or same-law edge; a no-op for a node that
    /// is not provisional or a risk that is final.
    pub fn add_hypothesis(&mut self, risk: RiskNode, chunk_id: &str)
        requires
            old(self).wf(),
        ensures
            final(self).wf(),
            !legacy_ok(risk.deep_view()) || terminal(&old(self).graph(), risk.finding.risk_id@) ==> same_graph(&old(self).graph(), &final(self).graph()),
            legacy_ok(risk.deep_view()) && !terminal(&old(self).graph(), risk.finding.risk_id@) ==> {
                let id = risk.finding.risk_id@;
                let laws = risk.finding.legal_basis.deep_view();
                &&& final(self).graph().risks.deep_view() == old(self).graph().risks.deep_view().insert(id, with_law_refs(risk.deep_view()))
                &&& final(self).graph().has_risk.deep_view() == old(self).graph().has_risk.deep_view().insert(
                    chunk_id@,
                    entry_pushed(old(self).graph().has_risk.deep_view(), chunk_id@, id),
                )
                &&& (forall|i: int| 0 <= i < laws.len() ==> #[trigger] list_has(final(self).graph().cites.deep_view(), id, laws[i]))
                &&& (forall|k: Seq<char>, x: Seq<char>| #[trigger] list_has(old(self).graph().cites.deep_view(), k, x) ==> list_has(final(self).graph().cites.deep_view(), k, x))
                &&& (forall|k: Seq<char>, x: Seq<char>| #[trigger] list_has(final(self).graph().cites.deep_view(), k, x) ==> list_has(old(self).graph().cites.deep_view(), k, x) || (k == id && laws.contains(x)))
                &&& unchanged_except(&old(self).graph(), &final(self).graph(), set![f_risks(), f_has_risk(), f_cites()])
                &&& versions_bumped(&old(self).graph(), &final(self).graph(), |x: Seq<char>| x == chunk_id@
                    || list_has(final(self).graph().has_risk.deep_view(), x, id)
                    || same_law_changed(&old(self).graph(), &final(self).graph(), x))
            },
            final(self).search_cache() == old(self).search_cache(),
            final(self).issued_risk_ids() == old(self).issued_risk_ids(),
            final(self).scout_done() == old(self).scout_done(),
    {
        let mut risk = risk;
        let ghost rv = risk.deep_view();
        let refs = risk.finding.legal_basis.dup();
        risk.law_refs = refs;
        proof {
            assert(risk.deep_view() == with_law_refs(rv));
        }
        if !is_valid_legacy_risk_input(&risk) || is_terminal_risk(&self.state, risk.finding.risk_id.as_str()) {
            return;
        }
        let before = self.state.dup_graph();
        let id = risk.finding.risk_id.clone();
        let laws = risk.finding.legal_basis.dup();
        let ghost nv = risk.deep_view();
        self.state.risks.insert(id.clone(), risk);
        let ghost s1 = self.state;
        entry_push_unique(&mut self.state.has_risk, chunk_id, id.clone());
        let ghost s2 = self.state;
        add_cite_edges_in_state(&mut self.state, id.as_str(), &laws);
        let ghost mid = self.state;
        let mut affected = vec![to_owned_string(chunk_id)];
        let direct = vec![id.clone()];
        let empty: Vec<String> = Vec::new();
        let idx = indexed_chunks_for_changes_in_state(&self.state, &direct, &empty);
        let ghost a0 = affected.deep_view();
        extend_strings(&mut affected, &idx);
        let ghost a1 = affected.deep_view();
        let ch = changed_agent_same_law_chunks(&before, &self.state);
        extend_strings(&mut affected, &ch);
        bump_versions(&mut self.state, &affected);
        proof {
            assert(a0 =~= seq![chunk_id@]);
            assert(direct.deep_view() =~= seq![id@]);
            assert(empty.deep_view() =~= Seq::<Seq<char>>::empty());
            lemma_concat_contains(a0, idx.deep_view());
            lemma_concat_contains(a1, ch.deep_view());
            assert(s1.risks.deep_view() =~= old(self).state.risks.deep_view().insert(id@, nv));
            assert(keeps(&s2, &mid, f_risks()));
            assert(keeps(&s2, &mid, f_has_risk()));
            assert(self.state.risks.deep_view() == s1.risks.deep_view());
            assert(self.state.has_risk.deep_view() == s2.has_risk.deep_view());
            assert(s1.has_risk.deep_view() == old(self).state.has_risk.deep_view());
            assert(self.state.cites.deep_view() == mid.cites.deep_view());
            assert(laws.deep_view() == rv.finding.legal_basis);
            assert(keeps(&mid, &self.state, f_risks()));
            assert(keeps(&mid, &self.state, f_has_risk()));
            assert(keeps(&mid, &self.state, f_cites()));
            assert forall|f: int| 0 <= f < 14 && !set![f_risks(), f_has_risk(), f_cites()].contains(f) implies #[trigger] keeps(
                &old(self).graph(),
                &self.graph(),
                f,
            ) by {
                assert(keeps(&s2, &mid, f));
                assert(keeps(&mid, &self.state, f));
            }
            let p = |x: Seq<char>| x == chunk_id@ || list_has(self.state.has_risk.deep_view(), x, id@)
                || same_law_changed(&old(self).graph(), &self.graph(), x);
            lemma_same_index_same_law(&before, &mid, &old(self).graph(), &self.graph());
            assert forall|x: Seq<char>| #[trigger] affected.deep_view().contains(x) <==> p(x) by {
                assert(same_law_changed(&before, &mid, x) == same_law_changed(&old(self).graph(), &self.graph(), x));
                assert(ch.deep_view().contains(x) <==> same_law_changed(&before, &mid, x));
                assert(idx.deep_view().contains(x) <==> indexed_for(&mid, seq![id@], Seq::empty(), x));
                if x == chunk_id@ {
                    assert(a0[0] == x);
                }
                if list_has(self.state.has_risk.deep_view(), x, id@) {
                    assert(seq![id@][0] == id@);
                    assert(list_has(mid.has_risk.deep_view(), x, id@) && seq![id@].contains(id@));
                }
                if indexed_for(&mid, seq![id@], Seq::empty(), x) {
                    let y = choose|y: Seq<char>| #[trigger] list_has(mid.has_risk.deep_view(), x, y) && (seq![id@].contains(y) || exists|i: int|
                        0 <= i < Seq::<Seq<char>>::empty().len() && #[trigger] law_link(&mid, y, Seq::<Seq<char>>::empty()[i]));
                    assert(y == id@);
                }
            }
            lemma_bumped_by_members(&old(self).graph(), &self.graph(), affected.deep_view(), p);
            let idv = rv.finding.risk_id;
            let lawsv = rv.finding.legal_basis;
            assert(idv == id@);
            assert(self.graph().risks.deep_view() == old(self).graph().risks.deep_view().insert(idv, with_law_refs(rv)));
            assert(self.graph().has_risk.deep_view() == old(self).graph().has_risk.deep_view().insert(chunk_id@, entry_pushed(old(self).graph().has_risk.deep_view(), chunk_id@, idv)));
            assert(forall|i: int| 0 <= i < lawsv.len() ==> #[trigger] list_has(self.graph().cites.deep_view(), idv, lawsv[i]));
            assert(unchanged_except(&old(self).graph(), &self.graph(), set![f_risks(), f_has_risk(), f_cites()]));
            assert(s2.cites.deep_view() == old(self).state.cites.deep_view());
            assert forall|k: Seq<char>, x: Seq<char>| #[trigger] list_has(old(self).graph().cites.deep_view(), k, x) implies list_has(self.graph().cites.deep_view(), k, x) by {
                assert(list_has(s2.cites.deep_view(), k, x));
                assert(list_has(mid.cites.deep_view(), k, x));
            }
            assert forall|k: Seq<char>, x: Seq<char>| #[trigger] list_has(self.graph().cites.deep_view(), k, x) implies list_has(old(self).graph().cites.deep_view(), k, x) || (k == idv && lawsv.contains(x)) by {
                assert(list_has(mid.cites.deep_view(), k, x));
            }
            assert(versions_bumped(&old(self).graph(), &self.graph(), |x: Seq<char>| x == chunk_id@
                    || list_has(self.graph().has_risk.deep_view(), x, idv)
                    || same_law_changed(&old(self).graph(), &self.graph(), x)));
        }
    }
}

impl SessionGraph {
    /// Stores a reviewed risk with its edges in one step: the node (law
    /// references taken from its legal basis), `chunk_id → risk_id`, the
    /// `cites`/`cited_by` edges and law nodes of its legal basis, and
    /// same-law edges between `chunk_id` and the clauses of the risks citing
    /// those laws; a no-op for a node that is not provisional or a risk that
    /// is final.
    pub fn add_risk_with_edges(&mut self, risk: RiskNode, chunk_id: &str)
        requires
            old(self).wf(),
        ensures
            final(self).wf(),
            !legacy_ok(risk.deep_view()) || terminal(&old(self).graph(), risk.finding.risk_id@) ==> same_graph(&old(self).graph(), &final(self).graph()),
            legacy_ok(risk.deep_view()) && !terminal(&old(self).graph(), risk.finding.risk_id@) ==> {
                let id = risk.finding.risk_id@;
                let laws = risk.finding.legal_basis.deep_view();
                let a = old(self).graph();
                let b = final(self).graph();
                &&& b.risks.deep_view() == a.risks.deep_view().insert(id, with_law_refs(risk.deep_view()))
                &&& b.has_risk.deep_view() == a.has_risk.deep_view().insert(chunk_id@, entry_pushed(a.has_risk.deep_view(), chunk_id@, id))
                &&& (forall|i: int| 0 <= i < laws.len() ==> #[trigger] list_has(b.cites.deep_view(), id, laws[i]))
                &&& (forall|i: int| 0 <= i < laws.len() ==> #[trigger] list_has(b.cited_by.deep_view(), laws[i], id))
                &&& (forall|i: int| 0 <= i < laws.len() ==> #[trigger] b.laws.deep_view().dom().contains(laws[i]))
                &&& (forall|k: Seq<char>, x: Seq<char>| #[trigger] list_has(b.cites.deep_view(), k, x) ==> list_has(a.cites.deep_view(), k, x) || (k == id && laws.contains(x)))
                &&& (forall|k: Seq<char>, x: Seq<char>| #[trigger] list_has(b.cited_by.deep_view(), k, x) ==> list_has(a.cited_by.deep_view(), k, x) || (x == id && laws.contains(k)))
                &&& (forall|k: Seq<char>| #[trigger] b.laws.deep_view().dom().contains(k) ==> a.laws.deep_view().dom().contains(k) || laws.contains(k))
                &&& b.laws.deep_view() == with_placeholders(a.laws.deep_view(), laws)
                &&& (forall|d: Seq<char>| #[trigger] related_chunk(&b, laws, chunk_id@, d) ==> list_has(b.same_law.deep_view(), chunk_id@, d) && list_has(b.same_law.deep_view(), d, chunk_id@))
                &&& (forall|k: Seq<char>, x: Seq<char>| #[trigger] list_has(b.same_law.deep_view(), k, x) ==> list_has(a.same_law.deep_view(), k, x)
                    || (k == chunk_id@ && related_chunk(&b, laws, chunk_id@, x)) || (x == chunk_id@ && related_chunk(&b, laws, chunk_id@, k)))
                &&& grows(&a, &b) || a.risks.deep_view().dom().contains(id)
                &&& (forall|k: Seq<char>, x: Seq<char>| #[trigger] list_has(a.same_law.deep_view(), k, x) ==> list_has(b.same_law.deep_view(), k, x))
                &&& unchanged_except(&a, &b, set![f_risks(), f_has_risk(), f_cites(), f_cited_by(), f_laws(), f_same_law()])
                &&& versions_bumped(&a, &b, |x: Seq<char>| x == chunk_id@
                    || (related_chunk(&b, laws, chunk_id@, x) && !(list_has(a.same_law.deep_view(), chunk_id@, x) && list_has(a.same_law.deep_view(), x, chunk_id@)))
                    || list_has(b.has_risk.deep_view(), x, id)
                    || same_law_changed(&a, &b, x))
            },
            final(self).search_cache() == old(self).search_cache(),
            final(self).issued_risk_ids() == old(self).issued_risk_ids(),
            final(self).scout_done() == old(self).scout_done(),
    {
        let mut risk = risk;
        let ghost rv = risk.deep_view();
        let refs = risk.finding.legal_basis.dup();
        risk.law_refs = refs;
        proof {
            assert(risk.deep_view() == with_law_refs(rv));
        }
        if !is_valid_legacy_risk_input(&risk) || is_terminal_risk(&self.state, risk.finding.risk_id.as_str()) {
            return;
        }
        let before = self.state.dup_graph();
        let id = risk.finding.risk_id.clone();
        let laws = risk.finding.legal_basis.dup();
        let ghost nv = risk.deep_view();
        self.state.risks.insert(id.clone(), risk);
        let ghost s1 = self.state;
        entry_push_unique(&mut self.state.has_risk, chunk_id, id.clone());
        let ghost s2 = self.state;
        add_law_edges_in_state(&mut self.state, id.as_str(), &laws);
        let ghost s3 = self.state;
        let mut affected = vec![to_owned_string(chunk_id)];
        let derived = derive_same_law_edges_in_state(&mut self.state, &laws, chunk_id);
        let ghost mid = self.state;
        let ghost a0 = affected.deep_view();
        extend_strings(&mut affected, &derived);
        let direct = vec![id.clone()];
        let empty: Vec<String> = Vec::new();
        let idx = indexed_chunks_for_changes_in_state(&self.state, &direct, &empty);
        let ghost a1 = affected.deep_view();
        extend_strings(&mut affected, &idx);
        let ghost a2 = affected.deep_view();
        let ch = changed_agent_same_law_chunks(&before, &self.state);
        extend_strings(&mut affected, &ch);
        bump_versions(&mut self.state, &affected);
        proof {
            let idv = rv.finding.risk_id;
            let lawsv = rv.finding.legal_basis;
            assert(idv == id@);
            assert(laws.deep_view() == lawsv);
            assert(a0 =~= seq![chunk_id@]);
            assert(direct.deep_view() =~= seq![id@]);
            assert(empty.deep_view() =~= Seq::<Seq<char>>::empty());
            lemma_concat_contains(a0, derived.deep_view());
            lemma_concat_contains(a1, idx.deep_view());
            lemma_concat_contains(a2, ch.deep_view());
            assert(s1.risks.deep_view() =~= old(self).state.risks.deep_view().insert(id@, nv));
            assert(keeps(&s2, &s3, f_risks()));
            assert(keeps(&s2, &s3, f_has_risk()));
            assert(keeps(&s2, &s3, f_same_law()));
            assert(keeps(&s3, &mid, f_risks()));
            assert(keeps(&s3, &mid, f_has_risk()));
            assert(keeps(&s3, &mid, f_cites()));
            assert(keeps(&s3, &mid, f_cited_by()));
            assert(keeps(&s3, &mid, f_laws()));
            assert(self.state.risks.deep_view() == s1.risks.deep_view());
            assert(self.state.has_risk.deep_view() == s2.has_risk.deep_view());
            assert(s1.has_risk.deep_view() == old(self).state.has_risk.deep_view());
            assert(s2.cites.deep_view() == old(self).state.cites.deep_view());
            assert(s2.cited_by.deep_view() == old(self).state.cited_by.deep_view());
            assert(s2.laws.deep_view() == old(self).state.laws.deep_view());
            assert(s3.same_law.deep_view() == old(self).state.same_law.deep_view());
            assert forall|f: int| 0 <= f < 14 && !set![f_risks(), f_has_risk(), f_cites(), f_cited_by(), f_laws(), f_same_law()].contains(f) implies #[trigger] keeps(
                &old(self).graph(),
                &self.graph(),
                f,
            ) by {
                assert(keeps(&s2, &s3, f));
                assert(keeps(&s3, &mid, f));
                assert(keeps(&mid, &self.state, f));
            }
            lemma_related_transfer(&s3, &self.state, lawsv, chunk_id@);
            assert forall|i: int| 0 <= i < lawsv.len() implies #[trigger] list_has(self.state.cites.deep_view(), idv, lawsv[i]) by {
                assert(list_has(s3.cites.deep_view(), idv, lawsv[i]));
            }
            assert forall|i: int| 0 <= i < lawsv.len() implies #[trigger] list_has(self.state.cited_by.deep_view(), lawsv[i], idv) by {
                assert(list_has(s3.cited_by.deep_view(), lawsv[i], idv));
            }
            assert forall|i: int| 0 <= i < lawsv.len() implies #[trigger] self.state.laws.deep_view().dom().contains(lawsv[i]) by {
                assert(s3.laws.deep_view().dom().contains(lawsv[i]));
            }
            assert forall|k: Seq<char>, x: Seq<char>| #[trigger] list_has(self.state.cites.deep_view(), k, x) implies list_has(old(self).state.cites.deep_view(), k, x) || (k == idv && lawsv.contains(x)) by {
                assert(list_has(s3.cites.deep_view(), k, x));
            }
            assert forall|k: Seq<char>, x: Seq<char>| #[trigger] list_has(self.state.cited_by.deep_view(), k, x) implies list_has(old(self).state.cited_by.deep_view(), k, x) || (x == idv && lawsv.contains(k)) by {
                assert(list_has(s3.cited_by.deep_view(), k, x));
            }
            assert forall|k: Seq<char>| #[trigger] self.state.laws.deep_view().dom().contains(k) implies old(self).state.laws.deep_view().dom().contains(k) || lawsv.contains(k) by {
                assert(s3.laws.deep_view().dom().contains(k));
            }
            assert forall|d: Seq<char>| #[trigger] related_chunk(&self.state, lawsv, chunk_id@, d) implies list_has(self.state.same_law.deep_view(), chunk_id@, d) && list_has(self.state.same_law.deep_view(), d, chunk_id@) by {
                assert(related_chunk(&s3, lawsv, chunk_id@, d));
                assert(list_has(mid.same_law.deep_view(), chunk_id@, d));
                assert(list_has(mid.same_law.deep_view(), d, chunk_id@));
            }
            assert forall|k: Seq<char>, x: Seq<char>| #[trigger] list_has(self.state.same_law.deep_view(), k, x) implies list_has(old(self).state.same_law.deep_view(), k, x)
                || (k == chunk_id@ && related_chunk(&self.state, lawsv, chunk_id@, x)) || (x == chunk_id@ && related_chunk(&self.state, lawsv, chunk_id@, k)) by {
                assert(list_has(mid.same_law.deep_view(), k, x));
                assert(related_chunk(&s3, lawsv, chunk_id@, x) == related_chunk(&self.state, lawsv, chunk_id@, x));
                assert(related_chunk(&s3, lawsv, chunk_id@, k) == related_chunk(&self.state, lawsv, chunk_id@, k));
            }
            assert forall|k: Seq<char>, x: Seq<char>| #[trigger] list_has(old(self).state.same_law.deep_view(), k, x) implies list_has(self.state.same_law.deep_view(), k, x) by {
                assert(list_has(s3.same_law.deep_view(), k, x));
                assert(list_has(mid.same_law.deep_view(), k, x));
            }
            if !old(self).state.risks.deep_view().dom().contains(idv) {
                assert forall|k: Seq<char>, x: Seq<char>| #[trigger] list_has(old(self).state.has_risk.deep_view(), k, x) implies list_has(self.state.has_risk.deep_view(), k, x) by {
                    lemma_entry_pushed_has(s1.has_risk.deep_view(), chunk_id@, idv);
                }
                assert forall|k: Seq<char>, x: Seq<char>| #[trigger] list_has(old(self).state.cites.deep_view(), k, x) implies list_has(self.state.cites.deep_view(), k, x) by {
                    assert(list_has(s3.cites.deep_view(), k, x));
                }
                assert forall|k: Seq<char>, x: Seq<char>| #[trigger] list_has(old(self).state.cited_by.deep_view(), k, x) implies list_has(self.state.cited_by.deep_view(), k, x) by {
                    assert(list_has(s3.cited_by.deep_view(), k, x));
                }
                assert forall|k: Seq<char>| #[trigger] old(self).state.laws.deep_view().dom().contains(k) implies self.state.laws.deep_view().dom().contains(k) by {
                    assert(s3.laws.deep_view().dom().contains(k));
                }
                assert(grows(&old(self).graph(), &self.graph()));
            }
            let p = |x: Seq<char>| x == chunk_id@
                || (related_chunk(&self.state, lawsv, chunk_id@, x) && !(list_has(old(self).state.same_law.deep_view(), chunk_id@, x) && list_has(old(self).state.same_law.deep_view(), x, chunk_id@)))
                || list_has(self.state.has_risk.deep_view(), x, idv)
                || same_law_changed(&old(self).graph(), &self.graph(), x);
            lemma_same_index_same_law(&before, &mid, &old(self).graph(), &self.graph());
            assert forall|x: Seq<char>| #[trigger] affected.deep_view().contains(x) <==> p(x) by {
                assert(same_law_changed(&before, &mid, x) == same_law_changed(&old(self).graph(), &self.graph(), x));
                assert(ch.deep_view().contains(x) <==> same_law_changed(&before, &mid, x));
                assert(idx.deep_view().contains(x) <==> indexed_for(&mid, seq![id@], Seq::empty(), x));
                assert(related_chunk(&s3, lawsv, chunk_id@, x) == related_chunk(&self.state, lawsv, chunk_id@, x));
                if x == chunk_id@ {
                    assert(a0[0] == x);
                }
                if list_has(self.state.has_risk.deep_view(), x, id@) {
                    assert(seq![id@][0] == id@);
                    assert(list_has(mid.has_risk.deep_view(), x, id@) && seq![id@].contains(id@));
                }
                if indexed_for(&mid, seq![id@], Seq::empty(), x) {
                    let y = choose|y: Seq<char>| #[trigger] list_has(mid.has_risk.deep_view(), x, y) && (seq![id@].contains(y) || exists|i: int|
                        0 <= i < Seq::<Seq<char>>::empty().len() && #[trigger] law_link(&mid, y, Seq::<Seq<char>>::empty()[i]));
                    assert(y == id@);
                }
            }
            lemma_bumped_by_members(&old(self).graph(), &self.graph(), affected.deep_view(), p);
        }
    }
}

/// The hypothesis findings among the first `n` stored risks, in key order.
pub open spec fn hypotheses_upto(g: &GraphSnapshot, n: nat) -> Seq<crate::graph_types::FindingView>
    decreases n,
{
    if n == 0 {
        Seq::empty()
    } else {
        let prev = hypotheses_upto(g, (n - 1) as nat);
        let node = g.risks.deep_view()[g.risks.key_seq()[n - 1]];
        if node.finding.finding_role == FindingRole::Hypothesis {
            prev.push(node.finding)
        } else {
            prev
        }
    }
}

/// The ids of the stored hypotheses among the first `n` keys of `g`'s risk
/// map, in key order.
pub open spec fn hypothesis_keys_upto(g: &GraphSnapshot, n: nat) -> Seq<Seq<char>>
    decreases n,
{
    if n == 0 {
        Seq::empty()
    } else {
        let prev = hypothesis_keys_upto(g, (n - 1) as nat);
        let k = g.risks.key_seq()[n - 1];
        if g.risks.deep_view()[k].finding.finding_role == FindingRole::Hypothesis {
            prev.push(k)
        } else {
            prev
        }
    }
}

/// The hypotheses up to `n` are the findings of the hypothesis keys up to
/// `n`; those keys are distinct stored hypotheses, and every stored
/// hypothesis among the first `n` keys is one of them.
pub proof fn lemma_hypothesis_keys(g: &GraphSnapshot, n: nat)
    requires
        g.wf(),
        n <= g.risks.key_seq().len(),
    ensures
        hypothesis_keys_upto(g, n).len() == hypotheses_upto(g, n).len(),
        hypothesis_keys_upto(g, n).no_duplicates(),
        forall|i: int| 0 <= i < hypothesis_keys_upto(g, n).len() ==> hypotheses_upto(g, n)[i]
            == g.risks.deep_view()[#[trigger] hypothesis_keys_upto(g, n)[i]].finding,
        forall|k: Seq<char>| #[trigger] hypothesis_keys_upto(g, n).contains(k) <==> exists|j: int| 0 <= j < n && g.risks.key_seq()[j] == k
            && g.risks.deep_view()[k].finding.finding_role == FindingRole::Hypothesis,
    decreases n,
{
    if n > 0 {
        lemma_hypothesis_keys(g, (n - 1) as nat);
        let prev = hypothesis_keys_upto(g, (n - 1) as nat);
        let k = g.risks.key_seq()[n - 1];
        let ks = hypothesis_keys_upto(g, n);
        if g.risks.deep_view()[k].finding.finding_role == FindingRole::Hypothesis {
            assert(ks == prev.push(k));
            assert(!prev.contains(k)) by {
                if prev.contains(k) {
                    let j = choose|j: int| 0 <= j < n - 1 && g.risks.key_seq()[j] == k;
                    g.risks.lemma_key_seq_unique(j, n - 1);
                }
            }
            assert forall|a: int, b: int| 0 <= a < b < ks.len() implies ks[a] != ks[b] by {
                if b == prev.len() {
                    assert(prev.contains(prev[a]));
                }
            }
            assert forall|kk: Seq<char>| #[trigger] ks.contains(kk) <==> exists|j: int| 0 <= j < n && g.risks.key_seq()[j] == kk
                && g.risks.deep_view()[kk].finding.finding_role == FindingRole::Hypothesis by {
                if ks.contains(kk) && kk != k {
                    let q = choose|q: int| 0 <= q < ks.len() && ks[q] == kk;
                    assert(prev[q] == kk);
                    assert(prev.contains(kk));
                }
                if kk == k {
                    assert(ks[prev.len() as int] == kk);
                }
                if exists|j: int| 0 <= j < n && g.risks.key_seq()[j] == kk && g.risks.deep_view()[kk].finding.finding_role == FindingRole::Hypothesis {
                    let j = choose|j: int| 0 <= j < n && g.risks.key_seq()[j] == kk && g.risks.deep_view()[kk].finding.finding_role == FindingRole::Hypothesis;
                    if j < n - 1 {
                        assert(prev.contains(kk));
                        let q = choose|q: int| 0 <= q < prev.len() && prev[q] == kk;
                        assert(ks[q] == kk);
                    } else {
                        assert(ks[prev.len() as int] == kk);
                    }
                }
            }
        } else {
            assert forall|kk: Seq<char>| #[trigger] ks.contains(kk) <==> exists|j: int| 0 <= j < n && g.risks.key_seq()[j] == kk
                && g.risks.deep_view()[kk].finding.finding_role == FindingRole::Hypothesis by {
                if exists|j: int| 0 <= j < n && g.risks.key_seq()[j] == kk && g.risks.deep_view()[kk].finding.finding_role == FindingRole::Hypothesis {
                    let j = choose|j: int| 0 <= j < n && g.risks.key_seq()[j] == kk && g.risks.deep_view()[kk].finding.finding_role == FindingRole::Hypothesis;
                    assert(j != n - 1);
                }
            }
        }
    }
}


impl SessionGraph {
    /// The findings of all stored hypotheses.
    pub fn get_hypotheses(&self) -> (r: Vec<RiskFinding>)
        requires
            self.wf(),
        ensures
            r.deep_view() == hypotheses_upto(&self.graph(), self.graph().risks.key_seq().len()),
            exists|ks: Seq<Seq<char>>|
                #![trigger ks.len()]
                ks.no_duplicates() && ks.len() == r@.len() && (forall|k: Seq<char>| #[trigger] ks.contains(k) <==> self.graph().risks.deep_view().dom().contains(k)
                    && self.graph().risks.deep_view()[k].finding.finding_role == FindingRole::Hypothesis) && (forall|i: int|
                    0 <= i < ks.len() ==> r.deep_view()[i] == self.graph().risks.deep_view()[#[trigger] ks[i]].finding),
    {
        proof {
            self.state.risks.lemma_view_facts();
        }
        let mut out: Vec<RiskFinding> = Vec::new();
        let n = self.state.risks.len();
        let mut i: usize = 0;
        while i < n
            invariant
                self.wf(),
                n == self.state.risks.key_seq().len(),
                i <= n,
                out.deep_view() == hypotheses_upto(&self.state, i as nat),
            decreases n - i,
        {
            let (key, node) = self.state.risks.entry_at(i);
            proof {
                self.state.risks.lemma_view_facts();
                let k = self.state.risks.key_seq()[i as int];
                assert(self.state.risks.key_seq().contains(k));
                assert(self.state.risks@.dom().contains(k));
                assert(self.state.risks@[k] == self.state.risks.value_at(i as int));
                assert(self.state.risks.deep_view()[k] == node.deep_view());
            }
            if matches!(node.finding.finding_role, FindingRole::Hypothesis) {
                let ghost o0 = out.deep_view();
                out.push(node.finding.dup());
                proof {
                    assert(out.deep_view() =~= o0.push(node.finding.deep_view()));
                }
            }
            i += 1;
        }
        proof {
            let g = self.state;
            let n = g.risks.key_seq().len();
            lemma_hypothesis_keys(&g, n);
            g.risks.lemma_view_facts();
            let ks = hypothesis_keys_upto(&g, n);
            assert forall|k: Seq<char>| #[trigger] ks.contains(k) <==> g.risks.deep_view().dom().contains(k)
                && g.risks.deep_view()[k].finding.finding_role == FindingRole::Hypothesis by {
                if g.risks.deep_view().dom().contains(k) {
                    assert(g.risks@.dom().contains(k));
                    assert(g.risks.key_seq().contains(k));
                    let j = choose|j: int| 0 <= j < g.risks.key_seq().len() && g.risks.key_seq()[j] == k;
                }
                if ks.contains(k) {
                    let j = choose|j: int| 0 <= j < n && g.risks.key_seq()[j] == k
                        && g.risks.deep_view()[k].finding.finding_role == FindingRole::Hypothesis;
                    assert(g.risks.key_seq().contains(k));
                    assert(g.risks@.dom().contains(k));
                }
            }
            assert(ks.len() == out@.len());
        }
        out
    }
}

/// No list of `m` holds an item twice.
#[verifier::opaque]
pub open spec fn lists_distinct<V>(m: Map<Seq<char>, Seq<V>>) -> bool {
    forall|k: Seq<char>| #[trigger] m.dom().contains(k) ==> m[k].no_duplicates()
}

/// A "push if absent" keeps every list free of repeats.
pub proof fn lemma_pushed_distinct<V>(m: Map<Seq<char>, Seq<V>>, k: Seq<char>, x: V)
    requires
        lists_distinct(m),
    ensures
        lists_distinct(m.insert(k, entry_pushed(m, k, x))),
{
    reveal(lists_distinct);
    law_edge_lists_stay_distinct(m, k, x);
    assert forall|kk: Seq<char>| #[trigger] m.insert(k, entry_pushed(m, k, x)).dom().contains(kk) implies m.insert(
        k,
        entry_pushed(m, k, x),
    )[kk].no_duplicates() by {
        if kk != k {
            assert(m.dom().contains(kk));
        }
    }
}

/// Every list stored in `m` is non-empty.
pub open spec fn no_empty_lists<V>(m: Map<Seq<char>, Seq<V>>) -> bool {
    forall|k: Seq<char>| #[trigger] m.dom().contains(k) ==> m[k].len() > 0
}

/// A "push if absent" keeps every list non-empty.
pub proof fn lemma_pushed_nonempty<V>(m: Map<Seq<char>, Seq<V>>, k: Seq<char>, x: V)
    requires
        no_empty_lists(m),
    ensures
        no_empty_lists(m.insert(k, entry_pushed(m, k, x))),
{
    let e = entry_pushed(m, k, x);
    if m.dom().contains(k) {
        if m[k].contains(x) {
            assert(e == m[k]);
        } else {
            assert(e.len() == m[k].len() + 1);
        }
    } else {
        assert(e.len() == 1);
    }
    assert(e.len() > 0);
}

/// Pushes `x` (if absent) into the list of every key of `keys`; returns
/// whether some list lacked it.
pub(crate) fn push_into_each(m: &mut StrMap<Vec<String>>, keys: &Vec<String>, x: &str) -> (changed: bool)
    requires
        old(m).wf(),
    ensures
        final(m).wf(),
        forall|i: int| 0 <= i < keys@.len() ==> #[trigger] list_has(final(m).deep_view(), keys.deep_view()[i], x@),
        forall|k: Seq<char>, y: Seq<char>| #[trigger] list_has(old(m).deep_view(), k, y) ==> list_has(final(m).deep_view(), k, y),
        forall|k: Seq<char>, y: Seq<char>| #[trigger] list_has(final(m).deep_view(), k, y) ==> list_has(old(m).deep_view(), k, y) || (y == x@ && keys.deep_view().contains(k)),
        changed <==> exists|i: int| 0 <= i < keys@.len() && !#[trigger] list_has(old(m).deep_view(), keys.deep_view()[i], x@),
        !changed ==> final(m).deep_view() == old(m).deep_view(),
        no_empty_lists(old(m).deep_view()) ==> no_empty_lists(final(m).deep_view()),
        lists_distinct(old(m).deep_view()) ==> lists_distinct(final(m).deep_view()),
        forall|k: Seq<char>| #[trigger] final(m).deep_view().dom().contains(k) ==> old(m).deep_view().dom().contains(k) || keys.deep_view().contains(k),
{
    let mut changed = false;
    let mut i: usize = 0;
    while i < keys.len()
        invariant
            m.wf(),
            i <= keys@.len(),
            forall|j: int| 0 <= j < i ==> #[trigger] list_has(m.deep_view(), keys.deep_view()[j], x@),
            forall|k: Seq<char>, y: Seq<char>| #[trigger] list_has(old(m).deep_view(), k, y) ==> list_has(m.deep_view(), k, y),
            forall|k: Seq<char>, y: Seq<char>| #[trigger] list_has(m.deep_view(), k, y) ==> list_has(old(m).deep_view(), k, y) || (y == x@ && keys.deep_view().contains(k)),
            changed <==> exists|j: int| 0 <= j < i && !#[trigger] list_has(old(m).deep_view(), keys.deep_view()[j], x@),
            !changed ==> m.deep_view() == old(m).deep_view(),
            lists_distinct(old(m).deep_view()) ==> lists_distinct(m.deep_view()),
            no_empty_lists(old(m).deep_view()) ==> no_empty_lists(m.deep_view()),
            forall|k: Seq<char>| #[trigger] m.deep_view().dom().contains(k) ==> old(m).deep_view().dom().contains(k) || keys.deep_view().contains(k),
        decreases keys@.len() - i,
    {
        let ghost kv = keys.deep_view()[i as int];
        proof {
            assert(kv == keys@[i as int]@);
            assert(keys.deep_view().contains(kv));
        }
        let ghost m0 = m.deep_view();
        let ghost ch0 = changed;
        let c = entry_push_unique(m, keys[i].as_str(), to_owned_string(x));
        proof {
            lemma_entry_pushed_has(m0, kv, x@);
            if no_empty_lists(old(m).deep_view()) {
                lemma_pushed_nonempty(m0, kv, x@);
            }
            if lists_distinct(old(m).deep_view()) {
                lemma_pushed_distinct(m0, kv, x@);
            }
            if !c {
                assert(m.deep_view() =~= m0);
            }
            assert forall|j: int| 0 <= j < i + 1 implies #[trigger] list_has(m.deep_view(), keys.deep_view()[j], x@) by {
                if j < i {
                    assert(list_has(m0, keys.deep_view()[j], x@));
                }
            }
            assert forall|k: Seq<char>, y: Seq<char>| #[trigger] list_has(old(m).deep_view(), k, y) implies list_has(m.deep_view(), k, y) by {
                assert(list_has(m0, k, y));
            }
            if c {
                assert(!list_has(m0, kv, x@));
                if !ch0 {
                    assert(!list_has(old(m).deep_view(), keys.deep_view()[i as int], x@));
                } else {
                    let j = choose|j: int| 0 <= j < i && !#[trigger] list_has(old(m).deep_view(), keys.deep_view()[j], x@);
                }
            } else {
                if !ch0 {
                    assert(list_has(old(m).deep_view(), keys.deep_view()[i as int], x@));
                    assert forall|j: int| 0 <= j < i + 1 implies #[trigger] list_has(old(m).deep_view(), keys.deep_view()[j], x@) by {
                        if j < i {
                            assert(!(exists|j2: int| 0 <= j2 < i && !#[trigger] list_has(old(m).deep_view(), keys.deep_view()[j2], x@)));
                        }
                    }
                } else {
                    let j = choose|j: int| 0 <= j < i && !#[trigger] list_has(old(m).deep_view(), keys.deep_view()[j], x@);
                }
            }
        }
        changed = changed || c;
        i += 1;
    }
    changed
}

/// Pushes every value of `xs` (if absent) into the list of `k`; returns
/// whether the list lacked one.
pub(crate) fn push_each_into(m: &mut StrMap<Vec<String>>, k: &str, xs: &Vec<String>) -> (changed: bool)
    requires
        old(m).wf(),
    ensures
        final(m).wf(),
        forall|i: int| 0 <= i < xs@.len() ==> #[trigger] list_has(final(m).deep_view(), k@, xs.deep_view()[i]),
        forall|a: Seq<char>, y: Seq<char>| #[trigger] list_has(old(m).deep_view(), a, y) ==> list_has(final(m).deep_view(), a, y),
        forall|a: Seq<char>, y: Seq<char>| #[trigger] list_has(final(m).deep_view(), a, y) ==> list_has(old(m).deep_view(), a, y) || (a == k@ && xs.deep_view().contains(y)),
        changed <==> exists|i: int| 0 <= i < xs@.len() && !#[trigger] list_has(old(m).deep_view(), k@, xs.deep_view()[i]),
        !changed ==> final(m).deep_view() == old(m).deep_view(),
        no_empty_lists(old(m).deep_view()) ==> no_empty_lists(final(m).deep_view()),
        lists_distinct(old(m).deep_view()) ==> lists_distinct(final(m).deep_view()),
        forall|a: Seq<char>| #[trigger] final(m).deep_view().dom().contains(a) ==> old(m).deep_view().dom().contains(a) || (a == k@ && xs@.len() > 0),
{
    let mut changed = false;
    let mut i: usize = 0;
    while i < xs.len()
        invariant
            m.wf(),
            i <= xs@.len(),
            forall|j: int| 0 <= j < i ==> #[trigger] list_has(m.deep_view(), k@, xs.deep_view()[j]),
            forall|a: Seq<char>, y: Seq<char>| #[trigger] list_has(old(m).deep_view(), a, y) ==> list_has(m.deep_view(), a, y),
            forall|a: Seq<char>, y: Seq<char>| #[trigger] list_has(m.deep_view(), a, y) ==> list_has(old(m).deep_view(), a, y) || (a == k@ && xs.deep_view().contains(y)),
            changed <==> exists|j: int| 0 <= j < i && !#[trigger] list_has(old(m).deep_view(), k@, xs.deep_view()[j]),
            !changed ==> m.deep_view() == old(m).deep_view(),
            lists_distinct(old(m).deep_view()) ==> lists_distinct(m.deep_view()),
            no_empty_lists(old(m).deep_view()) ==> no_empty_lists(m.deep_view()),
            forall|a: Seq<char>| #[trigger] m.deep_view().dom().contains(a) ==> old(m).deep_view().dom().contains(a) || (a == k@ && xs@.len() > 0),
        decreases xs@.len() - i,
    {
        let ghost xv = xs.deep_view()[i as int];
        proof {
            assert(xv == xs@[i as int]@);
            assert(xs.deep_view().contains(xv));
        }
        let ghost m0 = m.deep_view();
        let ghost ch0 = changed;
        let c = entry_push_unique(m, k, xs[i].clone());
        proof {
            lemma_entry_pushed_has(m0, k@, xv);
            if no_empty_lists(old(m).deep_view()) {
                lemma_pushed_nonempty(m0, k@, xv);
            }
            if lists_distinct(old(m).deep_view()) {
                lemma_pushed_distinct(m0, k@, xv);
            }
            if !c {
                assert(m.deep_view() =~= m0);
            }
            assert forall|j: int| 0 <= j < i + 1 implies #[trigger] list_has(m.deep_view(), k@, xs.deep_view()[j]) by {
                if j < i {
                    assert(list_has(m0, k@, xs.deep_view()[j]));
                }
            }
            assert forall|a: Seq<char>, y: Seq<char>| #[trigger] list_has(old(m).deep_view(), a, y) implies list_has(m.deep_view(), a, y) by {
                assert(list_has(m0, a, y));
            }
            if c {
                assert(!list_has(m0, k@, xv));
                if !ch0 {
                    assert(!list_has(old(m).deep_view(), k@, xs.deep_view()[i as int]));
                } else {
                    let j = choose|j: int| 0 <= j < i && !#[trigger] list_has(old(m).deep_view(), k@, xs.deep_view()[j]);
                }
            } else {
                if !ch0 {
                    assert(list_has(old(m).deep_view(), k@, xs.deep_view()[i as int]));
                    assert forall|j: int| 0 <= j < i + 1 implies #[trigger] list_has(old(m).deep_view(), k@, xs.deep_view()[j]) by {
                        if j < i {
                            assert(!(exists|j2: int| 0 <= j2 < i && !#[trigger] list_has(old(m).deep_view(), k@, xs.deep_view()[j2])));
                        }
                    }
                } else {
                    let j = choose|j: int| 0 <= j < i && !#[trigger] list_has(old(m).deep_view(), k@, xs.deep_view()[j]);
                }
            }
        }
        changed = changed || c;
        i += 1;
    }
    changed
}

/// Writes the placeholder node of every law of `law_refs` that is not known;
/// returns whether one was missing.
fn ensure_law_nodes(state: &mut GraphSnapshot, law_refs: &Vec<String>) -> (changed: bool)
    requires
        old(state).wf(),
    ensures
        final(state).wf(),
        forall|i: int| 0 <= i < law_refs@.len() ==> #[trigger] final(state).laws.deep_view().dom().contains(law_refs.deep_view()[i]),
        forall|k: Seq<char>| #[trigger] old(state).laws.deep_view().dom().contains(k) ==> final(state).laws.deep_view().dom().contains(k) && final(state).laws.deep_view()[k] == old(state).laws.deep_view()[k],
        forall|k: Seq<char>| #[trigger] final(state).laws.deep_view().dom().contains(k) ==> old(state).laws.deep_view().dom().contains(k) || (law_refs.deep_view().contains(k) && final(state).laws.deep_view()[k] == placeholder_law(k)),
        changed <==> exists|i: int| 0 <= i < law_refs@.len() && !#[trigger] old(state).laws.deep_view().dom().contains(law_refs.deep_view()[i]),
        !changed ==> final(state).laws.deep_view() == old(state).laws.deep_view(),
        unchanged_except(old(state), final(state), set![f_laws()]),
        final(state).graph_version == old(state).graph_version,
        final(state).chunk_versions.deep_view() == old(state).chunk_versions.deep_view(),
{
    let mut changed = false;
    let mut i: usize = 0;
    while i < law_refs.len()
        invariant
            state.wf(),
            i <= law_refs@.len(),
            forall|j: int| 0 <= j < i ==> #[trigger] state.laws.deep_view().dom().contains(law_refs.deep_view()[j]),
            forall|k: Seq<char>| #[trigger] old(state).laws.deep_view().dom().contains(k) ==> state.laws.deep_view().dom().contains(k) && state.laws.deep_view()[k] == old(state).laws.deep_view()[k],
            forall|k: Seq<char>| #[trigger] state.laws.deep_view().dom().contains(k) ==> old(state).laws.deep_view().dom().contains(k) || (law_refs.deep_view().contains(k) && state.laws.deep_view()[k] == placeholder_law(k)),
            changed <==> exists|j: int| 0 <= j < i && !#[trigger] old(state).laws.deep_view().dom().contains(law_refs.deep_view()[j]),
            !changed ==> state.laws.deep_view() == old(state).laws.deep_view(),
            unchanged_except(old(state), state, set![f_laws()]),
            state.graph_version == old(state).graph_version,
            state.chunk_versions.deep_view() == old(state).chunk_versions.deep_view(),
        decreases law_refs@.len() - i,
    {
        let ghost lv = law_refs.deep_view()[i as int];
        proof {
            assert(lv == law_refs@[i as int]@);
            assert(law_refs.deep_view().contains(lv));
        }
        let ghost s0 = *state;
        let ghost ch0 = changed;
        let added = ensure_law_node(state, &law_refs[i]);
        proof {
            assert forall|j: int| 0 <= j < i + 1 implies #[trigger] state.laws.deep_view().dom().contains(law_refs.deep_view()[j]) by {
                if j < i {
                    assert(s0.laws.deep_view().dom().contains(law_refs.deep_view()[j]));
                }
            }
            if added {
                if !ch0 {
                    assert(!old(state).laws.deep_view().dom().contains(law_refs.deep_view()[i as int]));
                } else {
                    let j = choose|j: int| 0 <= j < i && !#[trigger] old(state).laws.deep_view().dom().contains(law_refs.deep_view()[j]);
                }
            } else {
                if !ch0 {
                    assert(old(state).laws.deep_view().dom().contains(law_refs.deep_view()[i as int]));
                    assert forall|j: int| 0 <= j < i + 1 implies #[trigger] old(state).laws.deep_view().dom().contains(law_refs.deep_view()[j]) by {
                        if j < i {
                            assert(!(exists|j2: int| 0 <= j2 < i && !#[trigger] old(state).laws.deep_view().dom().contains(law_refs.deep_view()[j2])));
                        }
                    }
                } else {
                    let j = choose|j: int| 0 <= j < i && !#[trigger] old(state).laws.deep_view().dom().contains(law_refs.deep_view()[j]);
                }
            }
            assert forall|f: int| 0 <= f < 14 && !set![f_laws()].contains(f) implies #[trigger] keeps(old(state), state, f) by {
                assert(keeps(old(state), &s0, f));
                assert(keeps(&s0, state, f));
            }
        }
        changed = changed || added;
        i += 1;
    }
    changed
}

/// One of the first `n` clauses of `ids` lacks (in `g`) one direction of a
/// same-law edge to a clause related to it through `laws`.
pub open spec fn missing_upto(g: &GraphSnapshot, laws: Seq<Seq<char>>, ids: Seq<Seq<char>>, n: int) -> bool {
    exists|i: int, d: Seq<char>|
        0 <= i < n && #[trigger] related_chunk(g, laws, ids[i], d)
            && !(list_has(g.same_law.deep_view(), ids[i], d) && list_has(g.same_law.deep_view(), d, ids[i]))
}

/// `(k, x)` joins one of the first `n` clauses of `ids` with a clause
/// related to it through `laws`, in either direction.
pub open spec fn pair_source(g: &GraphSnapshot, laws: Seq<Seq<char>>, ids: Seq<Seq<char>>, n: int, k: Seq<char>, x: Seq<char>) -> bool {
    exists|j: int| 0 <= j < n && #[trigger] pair_at(g, laws, ids, j, k, x)
}

/// `(k, x)` joins clause `ids[j]` with a clause related to it.
pub open spec fn pair_at(g: &GraphSnapshot, laws: Seq<Seq<char>>, ids: Seq<Seq<char>>, j: int, k: Seq<char>, x: Seq<char>) -> bool {
    (k == ids[j] && related_chunk(g, laws, ids[j], x)) || (x == ids[j] && related_chunk(g, laws, ids[j], k))
}

/// `x` is one of the first `n` clauses of `ids` or related to one of them.
pub open spec fn touched_upto(g: &GraphSnapshot, laws: Seq<Seq<char>>, ids: Seq<Seq<char>>, n: int, x: Seq<char>) -> bool {
    exists|j: int| 0 <= j < n && #[trigger] touched_at(g, laws, ids, j, x)
}

/// `x` is clause `ids[j]` or related to it.
pub open spec fn touched_at(g: &GraphSnapshot, laws: Seq<Seq<char>>, ids: Seq<Seq<char>>, j: int, x: Seq<char>) -> bool {
    x == ids[j] || related_chunk(g, laws, ids[j], x)
}

/// Runs the same-law derivation for every clause of `ids`; returns the
/// clauses whose edges changed.
fn derive_for_clauses(state: &mut GraphSnapshot, law_refs: &Vec<String>, ids: &Vec<String>) -> (affected: Vec<String>)
    requires
        old(state).wf(),
    ensures
        final(state).wf(),
        unchanged_except(old(state), final(state), set![f_same_law()]),
        final(state).graph_version == old(state).graph_version,
        final(state).chunk_versions.deep_view() == old(state).chunk_versions.deep_view(),
        forall|i: int, d: Seq<char>| 0 <= i < ids@.len() && #[trigger] related_chunk(old(state), law_refs.deep_view(), ids.deep_view()[i], d)
            ==> list_has(final(state).same_law.deep_view(), ids.deep_view()[i], d) && list_has(final(state).same_law.deep_view(), d, ids.deep_view()[i]),
        forall|k: Seq<char>, x: Seq<char>| #[trigger] list_has(old(state).same_law.deep_view(), k, x) ==> list_has(final(state).same_law.deep_view(), k, x),
        forall|k: Seq<char>, x: Seq<char>| #[trigger] list_has(final(state).same_law.deep_view(), k, x) ==> list_has(old(state).same_law.deep_view(), k, x)
            || pair_source(old(state), law_refs.deep_view(), ids.deep_view(), ids@.len() as int, k, x),
        forall|x: Seq<char>| #[trigger] affected.deep_view().contains(x) ==> touched_upto(old(state), law_refs.deep_view(), ids.deep_view(), ids@.len() as int, x),
        forall|i: int, d: Seq<char>| 0 <= i < ids@.len() && #[trigger] related_chunk(old(state), law_refs.deep_view(), ids.deep_view()[i], d)
            && !(list_has(old(state).same_law.deep_view(), ids.deep_view()[i], d) && list_has(old(state).same_law.deep_view(), d, ids.deep_view()[i]))
            && !ids.deep_view().contains(d) ==> affected.deep_view().contains(d),
        affected@.len() > 0 <==> missing_upto(old(state), law_refs.deep_view(), ids.deep_view(), ids@.len() as int),
        affected@.len() == 0 ==> final(state).same_law.deep_view() == old(state).same_law.deep_view(),
{
    let ghost laws = law_refs.deep_view();
    let ghost iv = ids.deep_view();
    let mut affected: Vec<String> = Vec::new();
    let mut i: usize = 0;
    while i < ids.len()
        invariant
            state.wf(),
            i <= iv.len(),
            iv == ids.deep_view(),
            laws == law_refs.deep_view(),
            unchanged_except(old(state), state, set![f_same_law()]),
            state.graph_version == old(state).graph_version,
            state.chunk_versions.deep_view() == old(state).chunk_versions.deep_view(),
            forall|j: int, d: Seq<char>| 0 <= j < i && #[trigger] related_chunk(old(state), laws, iv[j], d)
                ==> list_has(state.same_law.deep_view(), iv[j], d) && list_has(state.same_law.deep_view(), d, iv[j]),
            forall|k: Seq<char>, x: Seq<char>| #[trigger] list_has(old(state).same_law.deep_view(), k, x) ==> list_has(state.same_law.deep_view(), k, x),
            forall|k: Seq<char>, x: Seq<char>| #[trigger] list_has(state.same_law.deep_view(), k, x) ==> list_has(old(state).same_law.deep_view(), k, x)
                || pair_source(old(state), laws, iv, i as int, k, x),
            forall|x: Seq<char>| #[trigger] affected.deep_view().contains(x) ==> touched_upto(old(state), laws, iv, i as int, x),
            forall|j: int, d: Seq<char>| 0 <= j < i && #[trigger] related_chunk(old(state), laws, iv[j], d)
                && !(list_has(old(state).same_law.deep_view(), iv[j], d) && list_has(old(state).same_law.deep_view(), d, iv[j]))
                && !iv.contains(d) ==> affected.deep_view().contains(d),
            affected@.len() > 0 <==> missing_upto(old(state), laws, iv, i as int),
            affected@.len() == 0 ==> state.same_law.deep_view() == old(state).same_law.deep_view(),
        decreases iv.len() - i,
    {
        let ghost c = iv[i as int];
        proof {
            assert(c == ids@[i as int]@);
        }
        let ghost s0 = *state;
        let ghost a0 = affected.deep_view();
        let ghost n0 = affected@.len();
        proof {
            assert(keeps(old(state), &s0, f_cited_by()));
            assert(keeps(old(state), &s0, f_risks()));
            lemma_related_transfer(old(state), &s0, laws, c);
        }
        let d = derive_same_law_edges_in_state(state, law_refs, ids[i].as_str());
        extend_strings(&mut affected, &d);
        proof {
            lemma_concat_contains(a0, d.deep_view());
            assert forall|f: int| 0 <= f < 14 && !set![f_same_law()].contains(f) implies #[trigger] keeps(old(state), state, f) by {
                assert(keeps(old(state), &s0, f));
                assert(keeps(&s0, state, f));
            }
            assert forall|j: int, e: Seq<char>| 0 <= j < i + 1 && #[trigger] related_chunk(old(state), laws, iv[j], e)
                implies list_has(state.same_law.deep_view(), iv[j], e) && list_has(state.same_law.deep_view(), e, iv[j]) by {
                if j < i {
                    assert(list_has(s0.same_law.deep_view(), iv[j], e));
                    assert(list_has(s0.same_law.deep_view(), e, iv[j]));
                } else {
                    assert(related_chunk(&s0, laws, c, e));
                }
            }
            assert forall|k: Seq<char>, x: Seq<char>| #[trigger] list_has(old(state).same_law.deep_view(), k, x) implies list_has(state.same_law.deep_view(), k, x) by {
                assert(list_has(s0.same_law.deep_view(), k, x));
            }
            assert forall|k: Seq<char>, x: Seq<char>| #[trigger] list_has(state.same_law.deep_view(), k, x) implies list_has(old(state).same_law.deep_view(), k, x)
                || pair_source(old(state), laws, iv, i + 1, k, x) by {
                if list_has(s0.same_law.deep_view(), k, x) {
                    if !list_has(old(state).same_law.deep_view(), k, x) {
                        assert(pair_source(old(state), laws, iv, i as int, k, x));
                        let j = choose|j: int| 0 <= j < i && #[trigger] pair_at(old(state), laws, iv, j, k, x);
                        assert(pair_at(old(state), laws, iv, j, k, x));
                    }
                } else {
                    assert(related_chunk(&s0, laws, c, x) == related_chunk(old(state), laws, iv[i as int], x));
                    assert(related_chunk(&s0, laws, c, k) == related_chunk(old(state), laws, iv[i as int], k));
                    assert(pair_at(old(state), laws, iv, i as int, k, x));
                }
            }
            assert forall|x: Seq<char>| #[trigger] affected.deep_view().contains(x) implies touched_upto(old(state), laws, iv, i + 1, x) by {
                if a0.contains(x) {
                    assert(touched_upto(old(state), laws, iv, i as int, x));
                    let j = choose|j: int| 0 <= j < i && #[trigger] touched_at(old(state), laws, iv, j, x);
                    assert(touched_at(old(state), laws, iv, j, x));
                } else {
                    assert(d.deep_view().contains(x));
                    assert(x == c || related_chunk(&s0, laws, c, x));
                    assert(touched_at(old(state), laws, iv, i as int, x));
                }
            }
            assert forall|j: int, e: Seq<char>| 0 <= j < i + 1 && #[trigger] related_chunk(old(state), laws, iv[j], e)
                && !(list_has(old(state).same_law.deep_view(), iv[j], e) && list_has(old(state).same_law.deep_view(), e, iv[j]))
                && !iv.contains(e) implies affected.deep_view().contains(e) by {
                if j < i {
                    assert(a0.contains(e));
                } else {
                    assert(related_chunk(&s0, laws, c, e));
                    if exists|j2: int| 0 <= j2 < i && iv[j2] == c {
                        let j2 = choose|j2: int| 0 <= j2 < i && iv[j2] == c;
                        assert(related_chunk(old(state), laws, iv[j2], e));
                        assert(a0.contains(e));
                    } else {
                        if list_has(s0.same_law.deep_view(), c, e) && !list_has(old(state).same_law.deep_view(), c, e) {
                            assert(pair_source(old(state), laws, iv, i as int, c, e));
                            let j2 = choose|j2: int| 0 <= j2 < i && #[trigger] pair_at(old(state), laws, iv, j2, c, e);
                            if e == iv[j2] {
                                assert(iv.contains(e));
                            }
                        }
                        if list_has(s0.same_law.deep_view(), e, c) && !list_has(old(state).same_law.deep_view(), e, c) {
                            assert(pair_source(old(state), laws, iv, i as int, e, c));
                            let j2 = choose|j2: int| 0 <= j2 < i && #[trigger] pair_at(old(state), laws, iv, j2, e, c);
                            if e == iv[j2] {
                                assert(iv.contains(e));
                            }
                        }
                        assert(d.deep_view().contains(e));
                    }
                }
            }
            if n0 == 0 {
                assert(s0.same_law.deep_view() == old(state).same_law.deep_view());
            }
            if affected@.len() > 0 {
                if n0 > 0 {
                    assert(missing_upto(old(state), laws, iv, i as int));
                    let (j, e) = choose|j: int, e: Seq<char>| 0 <= j < i && #[trigger] related_chunk(old(state), laws, iv[j], e)
                        && !(list_has(old(state).same_law.deep_view(), iv[j], e) && list_has(old(state).same_law.deep_view(), e, iv[j]));
                    assert(related_chunk(old(state), laws, iv[j], e));
                    assert(missing_upto(old(state), laws, iv, i + 1));
                } else {
                    assert(d@.len() > 0);
                    let e = choose|e: Seq<char>| #[trigger] related_chunk(&s0, laws, c, e)
                        && !(list_has(s0.same_law.deep_view(), c, e) && list_has(s0.same_law.deep_view(), e, c));
                    assert(related_chunk(old(state), laws, iv[i as int], e));
                    assert(missing_upto(old(state), laws, iv, i + 1));
                }
            }
            if missing_upto(old(state), laws, iv, i + 1) {
                let (j, e) = choose|j: int, e: Seq<char>| 0 <= j < i + 1 && #[trigger] related_chunk(old(state), laws, iv[j], e)
                    && !(list_has(old(state).same_law.deep_view(), iv[j], e) && list_has(old(state).same_law.deep_view(), e, iv[j]));
                if j < i {
                    assert(missing_upto(old(state), laws, iv, i as int));
                    assert(n0 > 0);
                } else if n0 == 0 {
                    assert(related_chunk(&s0, laws, c, e));
                    assert(d.deep_view().contains(e) || d.deep_view().contains(c));
                    assert(d@.len() > 0);
                }
            }
            if affected@.len() == 0 {
                assert(affected.deep_view().len() == affected@.len());
                assert(d.deep_view().len() == d@.len());
                assert(d@.len() == 0);
            }
        }
        i += 1;
    }
    affected
}

/// Dropping repeats keeps the elements.
pub proof fn lemma_dedup_contains<V>(s: Seq<V>)
    ensures
        forall|x: V| #[trigger] dedup_seq(s).contains(x) <==> s.contains(x),
    decreases s.len(),
{
    if s.len() > 0 {
        lemma_dedup_contains(s.drop_last());
        let prev = dedup_seq(s.drop_last());
        assert forall|x: V| #[trigger] dedup_seq(s).contains(x) <==> s.contains(x) by {
            assert(s == s.drop_last().push(s.last()));
            if s.contains(x) {
                let q = choose|q: int| 0 <= q < s.len() && s[q] == x;
                if q < s.len() - 1 {
                    assert(s.drop_last()[q] == x);
                }
            }
            if !prev.contains(s.last()) {
                assert(prev.push(s.last())[prev.len() as int] == s.last());
                if prev.push(s.last()).contains(x) {
                    let q = choose|q: int| 0 <= q < prev.len() + 1 && prev.push(s.last())[q] == x;
                    if q < prev.len() {
                        assert(prev[q] == x);
                    }
                }
                if prev.contains(x) {
                    let q = choose|q: int| 0 <= q < prev.len() && prev[q] == x;
                    assert(prev.push(s.last())[q] == x);
                }
            }
            if s.drop_last().contains(x) {
                let q = choose|q: int| 0 <= q < s.drop_last().len() && s.drop_last()[q] == x;
                assert(s[q] == x);
            }
        }
    }
}

/// The same-law helpers read `cited_by`, `risks` and `same_law` alone.
pub proof fn lemma_pair_transfer(a: &GraphSnapshot, b: &GraphSnapshot, laws: Seq<Seq<char>>, ids: Seq<Seq<char>>, n: int)
    requires
        a.cited_by.deep_view() == b.cited_by.deep_view(),
        a.risks.deep_view() == b.risks.deep_view(),
    ensures
        forall|k: Seq<char>, x: Seq<char>| #[trigger] pair_source(a, laws, ids, n, k, x) == pair_source(b, laws, ids, n, k, x),
        forall|x: Seq<char>| #[trigger] touched_upto(a, laws, ids, n, x) == touched_upto(b, laws, ids, n, x),
        a.same_law.deep_view() == b.same_law.deep_view() ==> missing_upto(a, laws, ids, n) == missing_upto(b, laws, ids, n),
{
    assert forall|j: int, k: Seq<char>, x: Seq<char>| #[trigger] pair_at(a, laws, ids, j, k, x) == pair_at(b, laws, ids, j, k, x) by {
        lemma_related_transfer(a, b, laws, ids[j]);
    }
    assert forall|j: int, x: Seq<char>| #[trigger] touched_at(a, laws, ids, j, x) == touched_at(b, laws, ids, j, x) by {
        lemma_related_transfer(a, b, laws, ids[j]);
    }
    assert forall|k: Seq<char>, x: Seq<char>| #[trigger] pair_source(a, laws, ids, n, k, x) == pair_source(b, laws, ids, n, k, x) by {
        if pair_source(a, laws, ids, n, k, x) {
            let j = choose|j: int| 0 <= j < n && #[trigger] pair_at(a, laws, ids, j, k, x);
            assert(pair_at(b, laws, ids, j, k, x));
        }
        if pair_source(b, laws, ids, n, k, x) {
            let j = choose|j: int| 0 <= j < n && #[trigger] pair_at(b, laws, ids, j, k, x);
            assert(pair_at(a, laws, ids, j, k, x));
        }
    }
    assert forall|x: Seq<char>| #[trigger] touched_upto(a, laws, ids, n, x) == touched_upto(b, laws, ids, n, x) by {
        if touched_upto(a, laws, ids, n, x) {
            let j = choose|j: int| 0 <= j < n && #[trigger] touched_at(a, laws, ids, j, x);
            assert(touched_at(b, laws, ids, j, x));
        }
        if touched_upto(b, laws, ids, n, x) {
            let j = choose|j: int| 0 <= j < n && #[trigger] touched_at(b, laws, ids, j, x);
            assert(touched_at(a, laws, ids, j, x));
        }
    }
    if a.same_law.deep_view() == b.same_law.deep_view() {
        if missing_upto(a, laws, ids, n) {
            let (i, d) = choose|i: int, d: Seq<char>| 0 <= i < n && #[trigger] related_chunk(a, laws, ids[i], d)
                && !(list_has(a.same_law.deep_view(), ids[i], d) && list_has(a.same_law.deep_view(), d, ids[i]));
            lemma_related_transfer(a, b, laws, ids[i]);
            assert(related_chunk(b, laws, ids[i], d));
        }
        if missing_upto(b, laws, ids, n) {
            let (i, d) = choose|i: int, d: Seq<char>| 0 <= i < n && #[trigger] related_chunk(b, laws, ids[i], d)
                && !(list_has(b.same_law.deep_view(), ids[i], d) && list_has(b.same_law.deep_view(), d, ids[i]));
            lemma_related_transfer(a, b, laws, ids[i]);
            assert(related_chunk(a, laws, ids[i], d));
        }
    }
}

/// Node `n` is already fully written into `g`: stored, indexed, and (unless
/// a hypothesis) with every same-law edge of its clauses present.
pub open spec fn upserted(g: &GraphSnapshot, n: crate::graph_types::RiskNodeView) -> bool {
    &&& g.risks.deep_view().dom().contains(n.finding.risk_id)
    &&& node_indexed(g, n)
    &&& n.finding.finding_role != FindingRole::Hypothesis ==> !missing_upto(g, n.law_refs, n.finding.clause_ids, n.finding.clause_ids.len() as int)
}

/// `has_risk` edge `k → x` is one written for node `n`.
pub open spec fn wrote_has_risk(n: crate::graph_types::RiskNodeView, k: Seq<char>, x: Seq<char>) -> bool {
    x == n.finding.risk_id && n.finding.clause_ids.contains(k)
}

/// `cites` edge `k → x` is one written for node `n`.
pub open spec fn wrote_cites(n: crate::graph_types::RiskNodeView, k: Seq<char>, x: Seq<char>) -> bool {
    k == n.finding.risk_id && n.law_refs.contains(x)
}

/// `cited_by` edge `k → x` is one written for node `n` (not a hypothesis).
pub open spec fn wrote_cited_by(n: crate::graph_types::RiskNodeView, k: Seq<char>, x: Seq<char>) -> bool {
    n.finding.finding_role != FindingRole::Hypothesis && x == n.finding.risk_id && n.law_refs.contains(k)
}

/// Law node `k` is one written for node `n` (not a hypothesis).
pub open spec fn wrote_law(n: crate::graph_types::RiskNodeView, k: Seq<char>) -> bool {
    n.finding.finding_role != FindingRole::Hypothesis && n.law_refs.contains(k)
}

/// Same-law edge `k → x` joins a clause of node `n` (not a hypothesis)
/// with a clause related to it through `n`'s laws in `g`.
pub open spec fn wrote_pair(g: &GraphSnapshot, n: crate::graph_types::RiskNodeView, k: Seq<char>, x: Seq<char>) -> bool {
    n.finding.finding_role != FindingRole::Hypothesis && pair_source(g, n.law_refs, n.finding.clause_ids, n.finding.clause_ids.len() as int, k, x)
}

/// Every edge and law node of `b` is one of `a` or one written for a node
/// of `nodes` (same-law pairs relative to the relations of `b`).
pub open spec fn batch_edges_only(a: &GraphSnapshot, b: &GraphSnapshot, nodes: Seq<crate::graph_types::RiskNodeView>) -> bool {
    &&& forall|k: Seq<char>, x: Seq<char>| #[trigger] list_has(b.has_risk.deep_view(), k, x) ==> list_has(a.has_risk.deep_view(), k, x)
        || exists|j: int| 0 <= j < nodes.len() && #[trigger] wrote_has_risk(nodes[j], k, x)
    &&& forall|k: Seq<char>, x: Seq<char>| #[trigger] list_has(b.cites.deep_view(), k, x) ==> list_has(a.cites.deep_view(), k, x)
        || exists|j: int| 0 <= j < nodes.len() && #[trigger] wrote_cites(nodes[j], k, x)
    &&& forall|k: Seq<char>, x: Seq<char>| #[trigger] list_has(b.cited_by.deep_view(), k, x) ==> list_has(a.cited_by.deep_view(), k, x)
        || exists|j: int| 0 <= j < nodes.len() && #[trigger] wrote_cited_by(nodes[j], k, x)
    &&& forall|k: Seq<char>| #[trigger] b.laws.deep_view().dom().contains(k) ==> a.laws.deep_view().dom().contains(k)
        || exists|j: int| 0 <= j < nodes.len() && #[trigger] wrote_law(nodes[j], k)
    &&& forall|k: Seq<char>, x: Seq<char>| #[trigger] list_has(b.same_law.deep_view(), k, x) ==> list_has(a.same_law.deep_view(), k, x)
        || exists|j: int| 0 <= j < nodes.len() && #[trigger] wrote_pair(b, nodes[j], k, x)
}

/// Some node of `nodes` has the id `y`.
pub open spec fn batch_id(nodes: Seq<crate::graph_types::RiskNodeView>, y: Seq<char>) -> bool {
    exists|j: int| 0 <= j < nodes.len() && #[trigger] nodes[j].finding.risk_id == y
}

/// Some node of `nodes` cites law `l`.
pub open spec fn batch_law(nodes: Seq<crate::graph_types::RiskNodeView>, l: Seq<char>) -> bool {
    exists|j: int| 0 <= j < nodes.len() && #[trigger] nodes[j].law_refs.contains(l)
}

/// Clause `x` of `g` is one that a batch write may invalidate: a clause
/// of a batch node or related to one through its laws, or a clause holding
/// a risk of the batch or a risk linked to a law of the batch.
pub open spec fn batch_touched(g: &GraphSnapshot, nodes: Seq<crate::graph_types::RiskNodeView>, x: Seq<char>) -> bool {
    ||| exists|j: int| 0 <= j < nodes.len() && #[trigger] touched_upto(g, nodes[j].law_refs, nodes[j].finding.clause_ids, nodes[j].finding.clause_ids.len() as int, x)
    ||| exists|y: Seq<char>| #[trigger] list_has(g.has_risk.deep_view(), x, y) && (batch_id(nodes, y) || exists|l: Seq<char>| #[trigger] law_link(g, y, l) && batch_law(nodes, l))
}

/// A relation through laws found in `s` still holds in a graph `t` that
/// grew from it.
pub proof fn lemma_related_grows(s: &GraphSnapshot, t: &GraphSnapshot, laws: Seq<Seq<char>>, c: Seq<char>, d: Seq<char>)
    requires
        grows(s, t),
        related_chunk(s, laws, c, d),
    ensures
        related_chunk(t, laws, c, d),
{
    let (i, r) = choose|i: int, r: Seq<char>| 0 <= i < laws.len() && list_has(s.cited_by.deep_view(), laws[i], r) && risk_has_clause(s, r, d);
    assert(list_has(t.cited_by.deep_view(), laws[i], r));
    assert(s.risks.deep_view().dom().contains(r));
    assert(risk_has_clause(t, r, d));
}

/// Clauses touched in `s` are still touched in a graph `t` that grew from it.
pub proof fn lemma_touched_grows(s: &GraphSnapshot, t: &GraphSnapshot, laws: Seq<Seq<char>>, ids: Seq<Seq<char>>, n: int, x: Seq<char>)
    requires
        grows(s, t),
        touched_upto(s, laws, ids, n, x),
    ensures
        touched_upto(t, laws, ids, n, x),
{
    let j = choose|j: int| 0 <= j < n && #[trigger] touched_at(s, laws, ids, j, x);
    if x != ids[j] {
        lemma_related_grows(s, t, laws, ids[j], x);
    }
    assert(touched_at(t, laws, ids, j, x));
}

/// Pairs sourced in `s` are still sourced in a graph `t` that grew from it.
pub proof fn lemma_pair_source_grows(s: &GraphSnapshot, t: &GraphSnapshot, laws: Seq<Seq<char>>, ids: Seq<Seq<char>>, n: int, k: Seq<char>, x: Seq<char>)
    requires
        grows(s, t),
        pair_source(s, laws, ids, n, k, x),
    ensures
        pair_source(t, laws, ids, n, k, x),
{
    let j = choose|j: int| 0 <= j < n && #[trigger] pair_at(s, laws, ids, j, k, x);
    if k == ids[j] && related_chunk(s, laws, ids[j], x) {
        lemma_related_grows(s, t, laws, ids[j], x);
    } else {
        lemma_related_grows(s, t, laws, ids[j], k);
    }
    assert(pair_at(t, laws, ids, j, k, x));
}


/// Writing node `nv[i]` (from `s` to `t`) after the nodes before it keeps
/// every edge of `t` one of `a` or one written for the first `i + 1` nodes.
pub proof fn lemma_batch_edges_step(a: &GraphSnapshot, s: &GraphSnapshot, t: &GraphSnapshot, nv: Seq<crate::graph_types::RiskNodeView>, i: int)
    requires
        0 <= i < nv.len(),
        batch_edges_only(a, s, nv.take(i)),
        only_node_edges(s, t, t, nv[i]),
        grows(s, t),
    ensures
        batch_edges_only(a, t, nv.take(i + 1)),
{
    let p = nv.take(i);
    let q = nv.take(i + 1);
    let n = nv[i];
    assert(q[i] == n);
    assert forall|k: Seq<char>, x: Seq<char>| #[trigger] list_has(t.has_risk.deep_view(), k, x) implies list_has(a.has_risk.deep_view(), k, x)
        || exists|j: int| 0 <= j < q.len() && #[trigger] wrote_has_risk(q[j], k, x) by {
        if list_has(s.has_risk.deep_view(), k, x) {
            if !list_has(a.has_risk.deep_view(), k, x) {
                let j = choose|j: int| 0 <= j < p.len() && #[trigger] wrote_has_risk(p[j], k, x);
                assert(q[j] == p[j]);
            }
        } else {
            assert(wrote_has_risk(q[i], k, x));
        }
    }
    assert forall|k: Seq<char>, x: Seq<char>| #[trigger] list_has(t.cites.deep_view(), k, x) implies list_has(a.cites.deep_view(), k, x)
        || exists|j: int| 0 <= j < q.len() && #[trigger] wrote_cites(q[j], k, x) by {
        if list_has(s.cites.deep_view(), k, x) {
            if !list_has(a.cites.deep_view(), k, x) {
                let j = choose|j: int| 0 <= j < p.len() && #[trigger] wrote_cites(p[j], k, x);
                assert(q[j] == p[j]);
            }
        } else {
            assert(wrote_cites(q[i], k, x));
        }
    }
    assert forall|k: Seq<char>, x: Seq<char>| #[trigger] list_has(t.cited_by.deep_view(), k, x) implies list_has(a.cited_by.deep_view(), k, x)
        || exists|j: int| 0 <= j < q.len() && #[trigger] wrote_cited_by(q[j], k, x) by {
        if list_has(s.cited_by.deep_view(), k, x) {
            if !list_has(a.cited_by.deep_view(), k, x) {
                let j = choose|j: int| 0 <= j < p.len() && #[trigger] wrote_cited_by(p[j], k, x);
                assert(q[j] == p[j]);
            }
        } else {
            assert(wrote_cited_by(q[i], k, x));
        }
    }
    assert forall|k: Seq<char>| #[trigger] t.laws.deep_view().dom().contains(k) implies a.laws.deep_view().dom().contains(k)
        || exists|j: int| 0 <= j < q.len() && #[trigger] wrote_law(q[j], k) by {
        if s.laws.deep_view().dom().contains(k) {
            if !a.laws.deep_view().dom().contains(k) {
                let j = choose|j: int| 0 <= j < p.len() && #[trigger] wrote_law(p[j], k);
                assert(q[j] == p[j]);
            }
        } else {
            assert(wrote_law(q[i], k));
        }
    }
    assert forall|k: Seq<char>, x: Seq<char>| #[trigger] list_has(t.same_law.deep_view(), k, x) implies list_has(a.same_law.deep_view(), k, x)
        || exists|j: int| 0 <= j < q.len() && #[trigger] wrote_pair(t, q[j], k, x) by {
        if list_has(s.same_law.deep_view(), k, x) {
            if !list_has(a.same_law.deep_view(), k, x) {
                let j = choose|j: int| 0 <= j < p.len() && #[trigger] wrote_pair(s, p[j], k, x);
                assert(q[j] == p[j]);
                lemma_pair_source_grows(s, t, p[j].law_refs, p[j].finding.clause_ids, p[j].finding.clause_ids.len() as int, k, x);
                assert(wrote_pair(t, q[j], k, x));
            }
        } else {
            assert(wrote_pair(t, q[i], k, x));
        }
    }
}


/// A clause that the node writes or the change index report is one that
/// the batch may touch.
pub proof fn lemma_reported_is_touched(
    g: &GraphSnapshot,
    nodes: Seq<crate::graph_types::RiskNodeView>,
    aff: Seq<Seq<char>>,
    ids: Seq<Seq<char>>,
    laws: Seq<Seq<char>>,
    x: Seq<char>,
)
    requires
        forall|y: Seq<char>| #[trigger] aff.contains(y) ==> exists|j: int| 0 <= j < nodes.len() && #[trigger] touched_upto(
            g,
            nodes[j].law_refs,
            nodes[j].finding.clause_ids,
            nodes[j].finding.clause_ids.len() as int,
            y,
        ),
        forall|y: Seq<char>| #[trigger] ids.contains(y) ==> batch_id(nodes, y),
        forall|l: Seq<char>| #[trigger] laws.contains(l) ==> batch_law(nodes, l),
        aff.contains(x) || indexed_for(g, ids, laws, x),
    ensures
        batch_touched(g, nodes, x),
{
    if !aff.contains(x) {
        let y = choose|y: Seq<char>| #[trigger] list_has(g.has_risk.deep_view(), x, y) && (ids.contains(y) || exists|i: int|
            0 <= i < laws.len() && #[trigger] law_link(g, y, laws[i]));
        if ids.contains(y) {
            assert(batch_id(nodes, y));
        } else {
            let i = choose|i: int| 0 <= i < laws.len() && #[trigger] law_link(g, y, laws[i]);
            assert(laws.contains(laws[i]));
            assert(batch_law(nodes, laws[i]));
        }
    }
}

/// The risks and the risk-derived indexes of `g` and `h` are the same.
pub open spec fn same_risk_index(g: &GraphSnapshot, h: &GraphSnapshot) -> bool {
    &&& g.risks.deep_view() == h.risks.deep_view()
    &&& g.has_risk.deep_view() == h.has_risk.deep_view()
    &&& g.cites.deep_view() == h.cites.deep_view()
    &&& g.cited_by.deep_view() == h.cited_by.deep_view()
    &&& g.same_law.deep_view() == h.same_law.deep_view()
    &&& g.laws.deep_view() == h.laws.deep_view()
}

/// Two graphs with the same risk index touch the same clauses.
pub proof fn lemma_touched_same(g: &GraphSnapshot, h: &GraphSnapshot, nodes: Seq<crate::graph_types::RiskNodeView>, x: Seq<char>)
    requires
        same_risk_index(g, h),
        batch_touched(g, nodes, x),
    ensures
        batch_touched(h, nodes, x),
{
    if exists|j: int| 0 <= j < nodes.len() && #[trigger] touched_upto(g, nodes[j].law_refs, nodes[j].finding.clause_ids, nodes[j].finding.clause_ids.len() as int, x) {
        let j = choose|j: int| 0 <= j < nodes.len() && #[trigger] touched_upto(g, nodes[j].law_refs, nodes[j].finding.clause_ids, nodes[j].finding.clause_ids.len() as int, x);
        let q = choose|q: int| 0 <= q < nodes[j].finding.clause_ids.len() && #[trigger] touched_at(g, nodes[j].law_refs, nodes[j].finding.clause_ids, q, x);
        lemma_related_transfer(g, h, nodes[j].law_refs, nodes[j].finding.clause_ids[q]);
        assert(touched_at(h, nodes[j].law_refs, nodes[j].finding.clause_ids, q, x));
        assert(touched_upto(h, nodes[j].law_refs, nodes[j].finding.clause_ids, nodes[j].finding.clause_ids.len() as int, x));
    } else {
        let y = choose|y: Seq<char>| #[trigger] list_has(g.has_risk.deep_view(), x, y) && (batch_id(nodes, y) || exists|l: Seq<char>| #[trigger] law_link(g, y, l) && batch_law(nodes, l));
        assert(list_has(h.has_risk.deep_view(), x, y));
        if !batch_id(nodes, y) {
            let l = choose|l: Seq<char>| #[trigger] law_link(g, y, l) && batch_law(nodes, l);
            assert(law_link(h, y, l));
        }
    }
}

/// Two graphs with the same risk index have the same batch edges.
pub proof fn lemma_batch_edges_same(a: &GraphSnapshot, g: &GraphSnapshot, h: &GraphSnapshot, nodes: Seq<crate::graph_types::RiskNodeView>)
    requires
        same_risk_index(g, h),
        batch_edges_only(a, g, nodes),
    ensures
        batch_edges_only(a, h, nodes),
{
    assert forall|k: Seq<char>, x: Seq<char>| #[trigger] list_has(h.same_law.deep_view(), k, x) implies list_has(a.same_law.deep_view(), k, x)
        || exists|j: int| 0 <= j < nodes.len() && #[trigger] wrote_pair(h, nodes[j], k, x) by {
        assert(list_has(g.same_law.deep_view(), k, x));
        if !list_has(a.same_law.deep_view(), k, x) {
            let j = choose|j: int| 0 <= j < nodes.len() && #[trigger] wrote_pair(g, nodes[j], k, x);
            let n = nodes[j];
            let q = choose|q: int| 0 <= q < n.finding.clause_ids.len() && #[trigger] pair_at(g, n.law_refs, n.finding.clause_ids, q, k, x);
            lemma_related_transfer(g, h, n.law_refs, n.finding.clause_ids[q]);
            assert(pair_at(h, n.law_refs, n.finding.clause_ids, q, k, x));
            assert(wrote_pair(h, nodes[j], k, x));
        }
    }
}


/// Every edge list of `b` is that of `a` plus edges written for node `n`
/// (same-law edges relative to the indexes of `c`).
pub open spec fn only_node_edges(a: &GraphSnapshot, b: &GraphSnapshot, c: &GraphSnapshot, n: crate::graph_types::RiskNodeView) -> bool {
    let id = n.finding.risk_id;
    let hyp = n.finding.finding_role == FindingRole::Hypothesis;
    &&& forall|k: Seq<char>, x: Seq<char>| #[trigger] list_has(b.has_risk.deep_view(), k, x) ==> list_has(a.has_risk.deep_view(), k, x) || (x == id && n.finding.clause_ids.contains(k))
    &&& forall|k: Seq<char>, x: Seq<char>| #[trigger] list_has(b.cites.deep_view(), k, x) ==> list_has(a.cites.deep_view(), k, x) || (k == id && n.law_refs.contains(x))
    &&& forall|k: Seq<char>, x: Seq<char>| #[trigger] list_has(b.cited_by.deep_view(), k, x) ==> list_has(a.cited_by.deep_view(), k, x) || (!hyp && x == id && n.law_refs.contains(k))
    &&& forall|k: Seq<char>| #[trigger] b.laws.deep_view().dom().contains(k) ==> a.laws.deep_view().dom().contains(k) || (!hyp && n.law_refs.contains(k) && b.laws.deep_view()[k] == placeholder_law(k))
    &&& forall|k: Seq<char>, x: Seq<char>| #[trigger] list_has(b.same_law.deep_view(), k, x) ==> list_has(a.same_law.deep_view(), k, x)
        || (!hyp && pair_source(c, n.law_refs, n.finding.clause_ids, n.finding.clause_ids.len() as int, k, x))
}

/// Writes a provisional node idempotently: stores it when its id is new and
/// adds whatever of its edges, law nodes and same-law edges is missing.
/// Returns the clauses to invalidate, the laws whose readers to invalidate,
/// and whether anything was written.
fn upsert_provisional_node_in_state(state: &mut GraphSnapshot, node: &RiskNode) -> (r: (Vec<String>, Vec<String>, bool))
    requires
        old(state).wf(),
    ensures
        final(state).wf(),
        r.2 == !upserted(old(state), node.deep_view()),
        !r.2 ==> same_graph(old(state), final(state)),
        upserted(final(state), node.deep_view()),
        final(state).risks.deep_view() == if old(state).risks.deep_view().dom().contains(node.finding.risk_id@) {
            old(state).risks.deep_view()
        } else {
            old(state).risks.deep_view().insert(node.finding.risk_id@, node.deep_view())
        },
        grows(old(state), final(state)),
        forall|k: Seq<char>, x: Seq<char>| #[trigger] list_has(old(state).same_law.deep_view(), k, x) ==> list_has(final(state).same_law.deep_view(), k, x),
        forall|k: Seq<char>, x: Seq<char>| #[trigger] list_has(old(state).has_risk.deep_view(), k, x) ==> list_has(final(state).has_risk.deep_view(), k, x),
        only_node_edges(old(state), final(state), final(state), node.deep_view()),
        unchanged_except(old(state), final(state), set![f_risks(), f_has_risk(), f_cites(), f_cited_by(), f_laws(), f_same_law()]),
        final(state).graph_version == old(state).graph_version,
        final(state).chunk_versions.deep_view() == old(state).chunk_versions.deep_view(),
        r.2 ==> forall|x: Seq<char>| #[trigger] node.finding.clause_ids.deep_view().contains(x) ==> r.0.deep_view().contains(x),
        forall|x: Seq<char>| #[trigger] r.0.deep_view().contains(x) ==> r.2 && (node.finding.clause_ids.deep_view().contains(x)
            || touched_upto(final(state), node.law_refs.deep_view(), node.finding.clause_ids.deep_view(), node.finding.clause_ids@.len() as int, x)),
        r.1.deep_view() == if r.2 && node.finding.finding_role != FindingRole::Hypothesis {
            node.law_refs.deep_view()
        } else {
            Seq::<Seq<char>>::empty()
        },
        lists_distinct(old(state).has_risk.deep_view()) ==> lists_distinct(final(state).has_risk.deep_view()),
        lists_distinct(old(state).cites.deep_view()) ==> lists_distinct(final(state).cites.deep_view()),
        lists_distinct(old(state).cited_by.deep_view()) ==> lists_distinct(final(state).cited_by.deep_view()),
        forall|k: Seq<char>, x: Seq<char>| #[trigger] list_has(final(state).same_law.deep_view(), k, x) && !list_has(old(state).same_law.deep_view(), k, x)
            ==> r.0.deep_view().contains(k),
{
    let ghost nv = node.deep_view();
    let ghost id = node.finding.risk_id@;
    let ghost laws = node.law_refs.deep_view();
    let ghost ids = node.finding.clause_ids.deep_view();
    let hyp = matches!(node.finding.finding_role, FindingRole::Hypothesis);
    let mut changed = false;
    if !state.risks.contains_key(node.finding.risk_id.as_str()) {
        state.risks.insert(node.finding.risk_id.clone(), node.dup());
        changed = true;
        proof {
            assert(state.risks.deep_view() =~= old(state).risks.deep_view().insert(id, nv));
        }
    }
    let ghost s1 = *state;
    let c_has = push_into_each(&mut state.has_risk, &node.finding.clause_ids, node.finding.risk_id.as_str());
    let ghost s2 = *state;
    let c_cites = push_each_into(&mut state.cites, node.finding.risk_id.as_str(), &node.law_refs);
    let ghost s3 = *state;
    let mut c_back = false;
    let mut c_laws = false;
    if !hyp {
        c_back = push_into_each(&mut state.cited_by, &node.law_refs, node.finding.risk_id.as_str());
    }
    let ghost s4 = *state;
    if !hyp {
        c_laws = ensure_law_nodes(state, &node.law_refs);
    }
    let ghost s5 = *state;
    proof {
        assert(keeps(&s4, &s5, f_risks()));
        assert(keeps(&s4, &s5, f_has_risk()));
        assert(keeps(&s4, &s5, f_cites()));
        assert(keeps(&s4, &s5, f_cited_by()));
        assert(keeps(&s4, &s5, f_same_law()));
        assert forall|f: int| 0 <= f < 14 && !set![f_risks(), f_has_risk(), f_cites(), f_cited_by(), f_laws(), f_same_law()].contains(f) implies #[trigger] keeps(old(state), &s5, f) by {
            assert(keeps(&s4, &s5, f));
        }
    }
    let pre_changed = changed || c_has || c_cites || c_back || c_laws;
    let mut derived: Vec<String> = Vec::new();
    if !hyp {
        derived = derive_for_clauses(state, &node.law_refs, &node.finding.clause_ids);
    }
    let ghost s6 = *state;
    proof {
        assert(keeps(&s5, &s6, f_risks()));
        assert(keeps(&s5, &s6, f_has_risk()));
        assert(keeps(&s5, &s6, f_cites()));
        assert(keeps(&s5, &s6, f_cited_by()));
        assert(keeps(&s5, &s6, f_laws()));
        lemma_related_transfer(&s5, &s6, laws, id);
        assert forall|f: int| 0 <= f < 14 && !set![f_risks(), f_has_risk(), f_cites(), f_cited_by(), f_laws(), f_same_law()].contains(f) implies #[trigger] keeps(old(state), &s6, f) by {
            assert(keeps(&s4, &s5, f));
            assert(keeps(&s5, &s6, f));
        }
    }
    let changed = pre_changed || derived.len() > 0;
    let mut affected: Vec<String> = Vec::new();
    if changed {
        extend_strings(&mut affected, &derived);
        extend_strings(&mut affected, &node.finding.clause_ids);
    }
    let law_out: Vec<String> = if changed && !hyp {
        node.law_refs.dup()
    } else {
        Vec::new()
    };
    let out = deduplicate_strings(&affected);
    proof {
        let n = ids.len() as int;
        lemma_dedup_contains(affected.deep_view());
        lemma_pair_transfer(&s5, &s6, laws, ids, n);
        assert forall|f: int| 0 <= f < 14 && !set![f_risks(), f_has_risk(), f_cites(), f_cited_by(), f_laws(), f_same_law()].contains(f) implies #[trigger] keeps(old(state), &s6, f) by {
            assert(keeps(old(state), &s5, f));
            assert(keeps(&s5, &s6, f));
        }
        // the steps before the derivation
        assert(s1.has_risk.deep_view() == old(state).has_risk.deep_view());
        assert(s2.cites.deep_view() == old(state).cites.deep_view());
        assert(s3.cited_by.deep_view() == old(state).cited_by.deep_view());
        assert(s4.laws.deep_view() == old(state).laws.deep_view());
        if hyp {
            assert(s4.cited_by.deep_view() == s3.cited_by.deep_view());
            assert(s5.laws.deep_view() == s4.laws.deep_view());
            assert(s6.same_law.deep_view() == s5.same_law.deep_view());
        }
        assert(s5.same_law.deep_view() == old(state).same_law.deep_view());
        assert(s6.risks.deep_view() == s1.risks.deep_view());
        assert(s6.has_risk.deep_view() == s2.has_risk.deep_view());
        assert(s6.cites.deep_view() == s3.cites.deep_view());
        assert(s6.cited_by.deep_view() == s4.cited_by.deep_view());
        assert(s6.laws.deep_view() == s5.laws.deep_view());
        // indexed after the call
        assert forall|i: int| 0 <= i < ids.len() implies #[trigger] list_has(s6.has_risk.deep_view(), ids[i], id) by {}
        assert forall|i: int| 0 <= i < laws.len() implies #[trigger] list_has(s6.cites.deep_view(), id, laws[i]) by {}
        if !hyp {
            assert forall|i: int| 0 <= i < laws.len() implies #[trigger] list_has(s6.cited_by.deep_view(), laws[i], id) by {}
            assert forall|i: int| 0 <= i < laws.len() implies #[trigger] s6.laws.deep_view().dom().contains(laws[i]) by {}
            assert(!missing_upto(&s6, laws, ids, n)) by {
                if missing_upto(&s6, laws, ids, n) {
                    let (i, d) = choose|i: int, d: Seq<char>| 0 <= i < n && #[trigger] related_chunk(&s6, laws, ids[i], d)
                        && !(list_has(s6.same_law.deep_view(), ids[i], d) && list_has(s6.same_law.deep_view(), d, ids[i]));
                    lemma_related_transfer(&s5, &s6, laws, ids[i]);
                    assert(related_chunk(&s5, laws, ids[i], d));
                }
            }
        }
        assert(upserted(&s6, nv));
        // what was written is exactly what was missing
        if !pre_changed {
            assert(s1.risks.deep_view() == old(state).risks.deep_view());
            assert(s5.has_risk.deep_view() == old(state).has_risk.deep_view());
            assert(s5.cites.deep_view() == old(state).cites.deep_view());
            assert(s5.cited_by.deep_view() == old(state).cited_by.deep_view());
            assert(s5.laws.deep_view() == old(state).laws.deep_view());
            assert(s5.risks.deep_view() == old(state).risks.deep_view());
            lemma_pair_transfer(old(state), &s5, laws, ids, n);
            assert(old(state).risks.deep_view().dom().contains(id));
            assert forall|i: int| 0 <= i < ids.len() implies #[trigger] list_has(old(state).has_risk.deep_view(), ids[i], id) by {}
            assert forall|i: int| 0 <= i < laws.len() implies #[trigger] list_has(old(state).cites.deep_view(), id, laws[i]) by {}
            if !hyp {
                assert forall|i: int| 0 <= i < laws.len() implies #[trigger] list_has(old(state).cited_by.deep_view(), laws[i], id) by {}
                assert forall|i: int| 0 <= i < laws.len() implies #[trigger] old(state).laws.deep_view().dom().contains(laws[i]) by {}
                assert(missing_upto(old(state), laws, ids, n) == missing_upto(&s5, laws, ids, n));
            }
            if !changed {
                assert(upserted(old(state), nv));
                assert(s6.same_law.deep_view() == old(state).same_law.deep_view());
                assert(keeps(old(state), &s6, 0));
                assert(keeps(old(state), &s6, 3));
                assert(keeps(old(state), &s6, 4));
                assert(keeps(old(state), &s6, 7));
                assert(keeps(old(state), &s6, 9));
                assert(keeps(old(state), &s6, 11));
                assert(keeps(old(state), &s6, 12));
                assert(keeps(old(state), &s6, 13));
                assert(same_graph(old(state), &s6));
            } else {
                assert(!upserted(old(state), nv));
            }
        } else {
            if c_has {
                let i = choose|i: int| 0 <= i < ids.len() && !#[trigger] list_has(old(state).has_risk.deep_view(), ids[i], id);
            }
            if c_cites {
                let i = choose|i: int| 0 <= i < laws.len() && !#[trigger] list_has(old(state).cites.deep_view(), id, laws[i]);
            }
            if c_back {
                let i = choose|i: int| 0 <= i < laws.len() && !#[trigger] list_has(old(state).cited_by.deep_view(), laws[i], id);
            }
            if c_laws {
                let i = choose|i: int| 0 <= i < laws.len() && !#[trigger] old(state).laws.deep_view().dom().contains(laws[i]);
            }
            assert(!upserted(old(state), nv));
        }
        // growth and the edges written
        assert forall|k: Seq<char>, x: Seq<char>| #[trigger] list_has(old(state).has_risk.deep_view(), k, x) implies list_has(s6.has_risk.deep_view(), k, x) by {}
        assert forall|k: Seq<char>, x: Seq<char>| #[trigger] list_has(old(state).cites.deep_view(), k, x) implies list_has(s6.cites.deep_view(), k, x) by {}
        assert forall|k: Seq<char>, x: Seq<char>| #[trigger] list_has(old(state).cited_by.deep_view(), k, x) implies list_has(s6.cited_by.deep_view(), k, x) by {}
        assert forall|k: Seq<char>, x: Seq<char>| #[trigger] list_has(old(state).same_law.deep_view(), k, x) implies list_has(s6.same_law.deep_view(), k, x) by {}
        assert forall|k: Seq<char>| #[trigger] old(state).laws.deep_view().dom().contains(k) implies s6.laws.deep_view().dom().contains(k) by {}
        assert(grows(old(state), &s6));
        assert forall|k: Seq<char>, x: Seq<char>| #[trigger] list_has(s6.same_law.deep_view(), k, x) implies list_has(old(state).same_law.deep_view(), k, x)
            || (!hyp && pair_source(&s6, laws, ids, n, k, x)) by {
            if !hyp {
                assert(list_has(s6.same_law.deep_view(), k, x) ==> list_has(s5.same_law.deep_view(), k, x) || pair_source(&s5, laws, ids, n, k, x));
            }
        }
        assert(only_node_edges(old(state), &s6, &s6, nv));
        assert forall|f: int| 0 <= f < 14 && !set![f_risks(), f_has_risk(), f_cites(), f_cited_by(), f_laws(), f_same_law()].contains(f) implies #[trigger] keeps(old(state), &s6, f) by {
            assert(keeps(old(state), &s5, f));
            assert(keeps(&s5, &s6, f));
        }
        // what is returned
        if changed {
            lemma_concat_contains(derived.deep_view(), ids);
        } else {
            assert(affected.deep_view() =~= Seq::<Seq<char>>::empty());
        }
        assert forall|x: Seq<char>| #[trigger] out.deep_view().contains(x) implies changed && (ids.contains(x)
            || touched_upto(&s6, laws, ids, n, x)) by {
            if !hyp && derived.deep_view().contains(x) {
                assert(touched_upto(&s5, laws, ids, n, x));
            }
            if hyp {
                assert(derived.deep_view() =~= Seq::<Seq<char>>::empty());
            }
        }
    }
    proof {
        assert(s1.has_risk.deep_view() == old(state).has_risk.deep_view());
        assert(s2.cites.deep_view() == s1.cites.deep_view());
        assert(s3.cited_by.deep_view() == s2.cited_by.deep_view());
        assert(state.has_risk.deep_view() == s2.has_risk.deep_view());
        assert(state.cites.deep_view() == s3.cites.deep_view());
        assert(state.cited_by.deep_view() == s4.cited_by.deep_view());
        assert(s5.same_law.deep_view() == old(state).same_law.deep_view());
        lemma_dedup_contains(affected.deep_view());
        assert forall|k: Seq<char>, x: Seq<char>| #[trigger] list_has(state.same_law.deep_view(), k, x) && !list_has(old(state).same_law.deep_view(), k, x)
            implies out.deep_view().contains(k) by {
            if hyp {
                assert(s6.same_law.deep_view() == s5.same_law.deep_view());
            }
            assert(!hyp);
            assert(derived@.len() > 0);
            assert(changed);
            lemma_concat_contains(derived.deep_view(), ids);
            assert(pair_source(&s5, laws, ids, ids.len() as int, k, x));
            let j = choose|j: int| 0 <= j < ids.len() && #[trigger] pair_at(&s5, laws, ids, j, k, x);
            if k == ids[j] {
                assert(ids.contains(k));
            } else {
                assert(related_chunk(&s5, laws, ids[j], k));
                assert(!list_has(s5.same_law.deep_view(), k, ids[j]));
                if !ids.contains(k) {
                    assert(derived.deep_view().contains(k));
                }
            }
            assert(affected.deep_view().contains(k));
        }
    }
    (out, law_out, changed)
}

/// `grows` composes.
pub proof fn lemma_grows_trans(a: &GraphSnapshot, b: &GraphSnapshot, c: &GraphSnapshot)
    requires
        grows(a, b),
        grows(b, c),
    ensures
        grows(a, c),
{
    assert forall|k: Seq<char>, x: Seq<char>| #[trigger] list_has(a.has_risk.deep_view(), k, x) implies list_has(c.has_risk.deep_view(), k, x) by {
        assert(list_has(b.has_risk.deep_view(), k, x));
    }
    assert forall|k: Seq<char>, x: Seq<char>| #[trigger] list_has(a.cites.deep_view(), k, x) implies list_has(c.cites.deep_view(), k, x) by {
        assert(list_has(b.cites.deep_view(), k, x));
    }
    assert forall|k: Seq<char>, x: Seq<char>| #[trigger] list_has(a.cited_by.deep_view(), k, x) implies list_has(c.cited_by.deep_view(), k, x) by {
        assert(list_has(b.cited_by.deep_view(), k, x));
    }
    assert forall|k: Seq<char>, x: Seq<char>| #[trigger] list_has(a.same_law.deep_view(), k, x) implies list_has(c.same_law.deep_view(), k, x) by {
        assert(list_has(b.same_law.deep_view(), k, x));
    }
    assert forall|k: Seq<char>| #[trigger] a.laws.deep_view().dom().contains(k) implies c.laws.deep_view().dom().contains(k) by {
        assert(b.laws.deep_view().dom().contains(k));
    }
    assert forall|k: Seq<char>| #[trigger] a.risks.deep_view().dom().contains(k) implies c.risks.deep_view().dom().contains(k) && c.risks.deep_view()[k] == a.risks.deep_view()[k] by {
        assert(b.risks.deep_view().dom().contains(k));
    }
}

/// Indexing survives growth.
pub proof fn lemma_indexed_grows(a: &GraphSnapshot, b: &GraphSnapshot, n: crate::graph_types::RiskNodeView)
    requires
        grows(a, b),
        node_indexed(a, n),
    ensures
        node_indexed(b, n),
{
    let id = n.finding.risk_id;
    assert forall|i: int| 0 <= i < n.finding.clause_ids.len() implies #[trigger] list_has(b.has_risk.deep_view(), n.finding.clause_ids[i], id) by {
        assert(list_has(a.has_risk.deep_view(), n.finding.clause_ids[i], id));
    }
    assert forall|i: int| 0 <= i < n.law_refs.len() implies #[trigger] list_has(b.cites.deep_view(), id, n.law_refs[i]) by {
        assert(list_has(a.cites.deep_view(), id, n.law_refs[i]));
    }
    if n.finding.finding_role != FindingRole::Hypothesis {
        assert forall|i: int| 0 <= i < n.law_refs.len() implies #[trigger] list_has(b.cited_by.deep_view(), n.law_refs[i], id) by {
            assert(list_has(a.cited_by.deep_view(), n.law_refs[i], id));
        }
        assert forall|i: int| 0 <= i < n.law_refs.len() implies #[trigger] b.laws.deep_view().dom().contains(n.law_refs[i]) by {
            assert(a.laws.deep_view().dom().contains(n.law_refs[i]));
        }
    }
}

/// The commit record of `affected`: the graph version and the current
/// version of every affected chunk that has one.
pub fn build_graph_commit(state: &GraphSnapshot, graph_version: u64, affected: &Vec<String>) -> (r: GraphCommit)
    requires
        state.wf(),
    ensures
        r.graph_version == graph_version,
        r.chunk_versions.wf(),
        forall|k: Seq<char>| #[trigger] r.chunk_versions.deep_view().dom().contains(k) <==> affected.deep_view().contains(k)
            && state.chunk_versions.deep_view().dom().contains(k),
        forall|k: Seq<char>| #[trigger] r.chunk_versions.deep_view().dom().contains(k) ==> r.chunk_versions.deep_view()[k]
            == state.chunk_versions.deep_view()[k],
{
    let mut cv: StrMap<u64> = StrMap::new();
    let mut i: usize = 0;
    while i < affected.len()
        invariant
            state.wf(),
            cv.wf(),
            i <= affected@.len(),
            forall|k: Seq<char>| #[trigger] cv.deep_view().dom().contains(k) <==> affected.deep_view().take(i as int).contains(k)
                && state.chunk_versions.deep_view().dom().contains(k),
            forall|k: Seq<char>| #[trigger] cv.deep_view().dom().contains(k) ==> cv.deep_view()[k] == state.chunk_versions.deep_view()[k],
        decreases affected@.len() - i,
    {
        let ghost a = affected.deep_view()[i as int];
        proof {
            assert(a == affected@[i as int]@);
            assert(affected.deep_view().take(i + 1) =~= affected.deep_view().take(i as int).push(a));
            lemma_concat_contains(affected.deep_view().take(i as int), seq![a]);
            assert(affected.deep_view().take(i as int).push(a) =~= affected.deep_view().take(i as int) + seq![a]);
            assert(seq![a][0] == a);
        }
        let ghost c0 = cv.deep_view();
        match state.chunk_versions.get(affected[i].as_str()) {
            Some(v) => {
                proof {
                    assert(state.chunk_versions.deep_view()[a] == *v);
                }
                cv.insert(affected[i].clone(), *v);
                proof {
                    assert(cv.deep_view() =~= c0.insert(a, *v));
                }
            },
            None => {},
        }
        i += 1;
    }
    proof {
        assert(affected.deep_view().take(affected@.len() as int) =~= affected.deep_view());
    }
    GraphCommit { graph_version, chunk_versions: cv }
}

/// The provisional nodes a batch of findings is stored as, in order.
pub open spec fn batch_nodes(fs: Seq<RiskFinding>) -> Seq<crate::graph_types::RiskNodeView> {
    Seq::new(real_findings(fs).len(), |i: int| provisional_node(real_findings(fs)[i].deep_view()))
}

/// `commit` reports exactly the chunks whose version moved from `a` to `b`,
/// with their new versions, and `b`'s graph version.
pub open spec fn commit_matches(a: &GraphSnapshot, b: &GraphSnapshot, commit: &GraphCommit) -> bool {
    &&& commit.graph_version == b.graph_version
    &&& versions_bumped(a, b, |x: Seq<char>| commit.chunk_versions.deep_view().dom().contains(x))
    &&& forall|k: Seq<char>| #[trigger] commit.chunk_versions.deep_view().dom().contains(k) ==> commit.chunk_versions.deep_view()[k]
        == version_of(b.chunk_versions.deep_view(), k)
}

impl SessionGraph {
    /// Writes a batch of provisional findings idempotently (the path without
    /// a review attempt). Refuses the whole batch, changing nothing, when a
    /// real finding has a blank id, no clause or a repeated id, or when a
    /// node clashes with a stored risk of the same id. A batch that is
    /// already fully written changes nothing and reports no chunk. On
    /// success every edge is an old one or one written for a batch node,
    /// no edge list gains a repeat, every clause that gained a `has_risk`
    /// or same-law edge is bumped, and every bumped clause is one the batch
    /// touches.
    pub fn upsert_provisional_findings(&mut self, findings: &Vec<RiskFinding>) -> (r: Result<GraphCommit, String>)
        requires
            old(self).wf(),
        ensures
            final(self).wf(),
            final(self).search_cache() == old(self).search_cache(),
            final(self).issued_risk_ids() == old(self).issued_risk_ids(),
            final(self).scout_done() == old(self).scout_done(),
            r is Err <==> !provisional_batch_ok(findings@) || !no_conflict(&old(self).graph(), batch_nodes(findings@)),
            r is Err ==> same_graph(&old(self).graph(), &final(self).graph()),
            r is Ok && citations_stored(&old(self).graph()) ==> citations_stored(&final(self).graph()) && forall|i: int|
                0 <= i < batch_nodes(findings@).len() ==> #[trigger] upserted(&final(self).graph(), batch_nodes(findings@)[i]),
            r matches Ok(commit) ==> {
                let a = old(self).graph();
                let b = final(self).graph();
                let nodes = batch_nodes(findings@);
                &&& forall|i: int| 0 <= i < nodes.len() ==> #[trigger] node_indexed(&b, nodes[i])
                &&& forall|i: int| 0 <= i < nodes.len() ==> b.risks.deep_view()[#[trigger] nodes[i].finding.risk_id] == nodes[i]
                &&& forall|k: Seq<char>| #[trigger] b.risks.deep_view().dom().contains(k) ==> a.risks.deep_view().dom().contains(k)
                    || exists|i: int| 0 <= i < nodes.len() && #[trigger] nodes[i].finding.risk_id == k
                &&& grows(&a, &b)
                &&& unchanged_except(&a, &b, set![f_risks(), f_has_risk(), f_cites(), f_cited_by(), f_laws(), f_same_law()])
                &&& (forall|i: int| 0 <= i < nodes.len() ==> #[trigger] upserted(&a, nodes[i])) ==> {
                    &&& same_graph(&a, &b)
                    &&& commit.graph_version == a.graph_version
                    &&& commit.chunk_versions.deep_view() == Map::<Seq<char>, u64>::empty()
                }
                &&& !(forall|i: int| 0 <= i < nodes.len() ==> #[trigger] upserted(&a, nodes[i])) ==> commit_matches(&a, &b, &commit)
                &&& forall|i: int, x: Seq<char>| 0 <= i < nodes.len() && !a.risks.deep_view().dom().contains(nodes[i].finding.risk_id)
                    && #[trigger] nodes[i].finding.clause_ids.contains(x) ==> commit.chunk_versions.deep_view().dom().contains(x)
                &&& batch_edges_only(&a, &b, nodes)
                &&& forall|x: Seq<char>| #[trigger] commit.chunk_versions.deep_view().dom().contains(x) ==> batch_touched(&b, nodes, x)
                &&& lists_distinct(a.has_risk.deep_view()) ==> lists_distinct(b.has_risk.deep_view())
                &&& lists_distinct(a.cites.deep_view()) ==> lists_distinct(b.cites.deep_view())
                &&& lists_distinct(a.cited_by.deep_view()) ==> lists_distinct(b.cited_by.deep_view())
                &&& forall|k: Seq<char>, x: Seq<char>| #[trigger] list_has(b.has_risk.deep_view(), k, x) && !list_has(a.has_risk.deep_view(), k, x)
                    ==> commit.chunk_versions.deep_view().dom().contains(k)
                &&& forall|k: Seq<char>, x: Seq<char>| #[trigger] list_has(b.same_law.deep_view(), k, x) && !list_has(a.same_law.deep_view(), k, x)
                    ==> commit.chunk_versions.deep_view().dom().contains(k)
            },
    {
        let nodes = match normalize_provisional_findings(findings) {
            Ok(n) => n,
            Err(e) => {
                return Err(e);
            },
        };
        let ghost nv = batch_nodes(findings@);
        proof {
            assert(nodes.deep_view() =~= nv);
        }
        match validate_risk_conflicts(&self.state, &nodes) {
            Ok(()) => {},
            Err(e) => {
                return Err(e);
            },
        }
        let ghost a = self.state;
        proof {
            assert forall|p: int, q: int| 0 <= p < nv.len() && 0 <= q < nv.len() && p != q implies nv[p].finding.risk_id != nv[q].finding.risk_id by {
                lemma_real_ids_distinct(findings@, p);
            }
        }
        let (mut affected, law_out, changed_ids, changed) = upsert_nodes_in_state(&mut self.state, &nodes);
        if !changed {
            proof {
                assert forall|j: int| 0 <= j < nv.len() implies #[trigger] upserted(&a, nv[j]) by {
                    assert(!(exists|j2: int| 0 <= j2 < nv.len() && !#[trigger] upserted(&a, nv[j2])));
                }
                assert forall|j: int, x: Seq<char>| 0 <= j < nv.len() && !a.risks.deep_view().dom().contains(nv[j].finding.risk_id)
                    && #[trigger] nv[j].finding.clause_ids.contains(x) implies false by {
                    assert(upserted(&a, nv[j]));
                }
            }
            let empty: StrMap<u64> = StrMap::new();
            proof {
                assert(empty.deep_view() =~= Map::<Seq<char>, u64>::empty());
            }
            return Ok(GraphCommit { graph_version: self.state.graph_version, chunk_versions: empty });
        }
        let ghost after_nodes = self.state;
        let ids_u = deduplicate_strings(&changed_ids);
        let laws_u = deduplicate_strings(&law_out);
        let idx = indexed_chunks_for_changes_in_state(&self.state, &ids_u, &laws_u);
        let ghost af0 = affected.deep_view();
        extend_strings(&mut affected, &idx);
        let unique = deduplicate_strings(&affected);
        let ghost mid = self.state;
        let gv = bump_versions(&mut self.state, &unique);
        let commit = build_graph_commit(&self.state, gv, &unique);
        proof {
            lemma_concat_contains(af0, idx.deep_view());
            lemma_dedup_contains(affected.deep_view());
            assert forall|x: Seq<char>| #[trigger] unique.deep_view().contains(x) implies self.state.chunk_versions.deep_view().dom().contains(x) by {}
            let p = |x: Seq<char>| commit.chunk_versions.deep_view().dom().contains(x);
            assert forall|x: Seq<char>| #[trigger] unique.deep_view().contains(x) <==> p(x) by {}
            lemma_bumped_by_members(&a, &self.state, unique.deep_view(), p);
            assert forall|k: Seq<char>| #[trigger] commit.chunk_versions.deep_view().dom().contains(k) implies commit.chunk_versions.deep_view()[k]
                == version_of(self.state.chunk_versions.deep_view(), k) by {}
            assert forall|f: int| 0 <= f < 14 && !set![f_risks(), f_has_risk(), f_cites(), f_cited_by(), f_laws(), f_same_law()].contains(f) implies #[trigger] keeps(&a, &self.state, f) by {
                assert(keeps(&a, &mid, f));
            }
            let j = choose|j: int| 0 <= j < nv.len() && !#[trigger] upserted(&a, nv[j]);
            assert(!(forall|j2: int| 0 <= j2 < nv.len() ==> #[trigger] upserted(&a, nv[j2])));
            assert forall|j2: int, x: Seq<char>| 0 <= j2 < nv.len() && !a.risks.deep_view().dom().contains(nv[j2].finding.risk_id)
                && #[trigger] nv[j2].finding.clause_ids.contains(x) implies commit.chunk_versions.deep_view().dom().contains(x) by {
                assert(affected.deep_view().contains(x));
            }
            assert forall|j2: int| 0 <= j2 < nv.len() implies #[trigger] node_indexed(&self.state, nv[j2]) by {
                assert(node_indexed(&mid, nv[j2]));
            }
            assert forall|j2: int| 0 <= j2 < nv.len() implies self.state.risks.deep_view()[#[trigger] nv[j2].finding.risk_id] == nv[j2] by {
                assert(mid.risks.deep_view()[nv[j2].finding.risk_id] == nv[j2]);
            }
            assert(grows(&a, &mid));
            assert(grows(&a, &self.state));
            assert(commit_matches(&a, &self.state, &commit));
            assert forall|k: Seq<char>, x: Seq<char>| #[trigger] list_has(self.state.has_risk.deep_view(), k, x) && !list_has(a.has_risk.deep_view(), k, x)
                implies commit.chunk_versions.deep_view().dom().contains(k) by {
                assert(list_has(mid.has_risk.deep_view(), k, x));
                assert(af0.contains(k));
                assert(affected.deep_view().contains(k));
                assert(unique.deep_view().contains(k));
            }
            assert forall|k: Seq<char>, x: Seq<char>| #[trigger] list_has(self.state.same_law.deep_view(), k, x) && !list_has(a.same_law.deep_view(), k, x)
                implies commit.chunk_versions.deep_view().dom().contains(k) by {
                assert(list_has(mid.same_law.deep_view(), k, x));
                assert(af0.contains(k));
                assert(affected.deep_view().contains(k));
                assert(unique.deep_view().contains(k));
            }
            lemma_batch_edges_same(&a, &mid, &self.state, nv);
            assert forall|x: Seq<char>| #[trigger] commit.chunk_versions.deep_view().dom().contains(x) implies batch_touched(&self.state, nv, x) by {
                assert(unique.deep_view().contains(x));
                assert(affected.deep_view().contains(x));
                lemma_dedup_contains(changed_ids.deep_view());
                lemma_dedup_contains(law_out.deep_view());
                lemma_reported_is_touched(&mid, nv, af0, ids_u.deep_view(), laws_u.deep_view(), x);
                lemma_touched_same(&mid, &self.state, nv, x);
            }
            if citations_stored(&a) {
                assert(citations_stored(&after_nodes));
                assert forall|l: Seq<char>, r: Seq<char>| #[trigger] list_has(self.state.cited_by.deep_view(), l, r) implies self.state.risks.deep_view().dom().contains(r) by {
                    assert(list_has(after_nodes.cited_by.deep_view(), l, r));
                }
                assert forall|j: int| 0 <= j < nv.len() implies #[trigger] upserted(&self.state, nv[j]) by {
                    assert(upserted(&after_nodes, nv[j]));
                    lemma_pair_transfer(&after_nodes, &self.state, nv[j].law_refs, nv[j].finding.clause_ids, nv[j].finding.clause_ids.len() as int);
                    assert(node_indexed(&self.state, nv[j]));
                }
            }
        }
        Ok(commit)
    }
}

/// The real findings of a batch that passes the checks have pairwise
/// different ids, and their nodes keep those ids.
pub proof fn lemma_real_ids_distinct(fs: Seq<RiskFinding>, i: int)
    requires
        provisional_batch_ok(fs),
        0 <= i < batch_nodes(fs).len(),
    ensures
        forall|j: int| 0 <= j < batch_nodes(fs).len() && j != i ==> #[trigger] batch_nodes(fs)[j].finding.risk_id != batch_nodes(fs)[i].finding.risk_id,
{
    let reals = real_findings(fs);
    assert forall|j: int| 0 <= j < batch_nodes(fs).len() && j != i implies #[trigger] batch_nodes(fs)[j].finding.risk_id != batch_nodes(fs)[i].finding.risk_id by {
        assert(batch_nodes(fs)[j].finding.risk_id == reals[j].risk_id@);
        assert(batch_nodes(fs)[i].finding.risk_id == reals[i].risk_id@);
        if j < i {
            assert(reals[j].risk_id@ != reals[i].risk_id@);
        } else {
            assert(reals[i].risk_id@ != reals[j].risk_id@);
        }
    }
}

/// Every risk listed under a law in `cited_by` is a stored risk.
pub open spec fn citations_stored(g: &GraphSnapshot) -> bool {
    forall|l: Seq<char>, r: Seq<char>| #[trigger] list_has(g.cited_by.deep_view(), l, r) ==> g.risks.deep_view().dom().contains(r)
}

/// Writing node `n` (from `s` to `t`) leaves in place every same-law pair
/// of a stored finding `m` that had all its pairs: a pair new in `t` joins a
/// clause of `m` with a clause of `n` through a law both cite, and `n`'s
/// own pairs are all in place.
proof fn lemma_pairs_stay_complete(
    s: &GraphSnapshot,
    t: &GraphSnapshot,
    n: crate::graph_types::RiskNodeView,
    m: crate::graph_types::RiskNodeView,
)
    requires
        citations_stored(s),
        grows(s, t),
        only_node_edges(s, t, t, n),
        upserted(t, n),
        t.risks.deep_view()[n.finding.risk_id] == n,
        t.risks.deep_view() == (if s.risks.deep_view().dom().contains(n.finding.risk_id) {
            s.risks.deep_view()
        } else {
            s.risks.deep_view().insert(n.finding.risk_id, n)
        }),
        m.finding.finding_role != FindingRole::Hypothesis,
        upserted(s, m),
        s.risks.deep_view()[m.finding.risk_id] == m,
    ensures
        !missing_upto(t, m.law_refs, m.finding.clause_ids, m.finding.clause_ids.len() as int),
{
    let lm = m.law_refs;
    let im = m.finding.clause_ids;
    if missing_upto(t, lm, im, im.len() as int) {
        let (k, d) = choose|k: int, d: Seq<char>|
            0 <= k < im.len() && #[trigger] related_chunk(t, lm, im[k], d) && !(list_has(t.same_law.deep_view(), im[k], d)
                && list_has(t.same_law.deep_view(), d, im[k]));
        let c = im[k];
        let (q, r) = choose|q: int, r: Seq<char>|
            #![trigger list_has(t.cited_by.deep_view(), lm[q], r), risk_has_clause(t, r, d)]
            0 <= q < lm.len() && list_has(t.cited_by.deep_view(), lm[q], r) && risk_has_clause(t, r, d);
        let l = lm[q];
        if list_has(s.cited_by.deep_view(), l, r) {
            assert(s.risks.deep_view().dom().contains(r));
            assert(t.risks.deep_view()[r] == s.risks.deep_view()[r]);
            assert(risk_has_clause(s, r, d));
            assert(related_chunk(s, lm, im[k], d));
            assert(!missing_upto(s, lm, im, im.len() as int));
            assert(list_has(s.same_law.deep_view(), im[k], d) && list_has(s.same_law.deep_view(), d, im[k]));
            assert(false);
        } else {
            let id = n.finding.risk_id;
            assert(r == id && n.law_refs.contains(l) && n.finding.finding_role != FindingRole::Hypothesis);
            assert(n.finding.clause_ids.contains(d));
            let kk = choose|kk: int| 0 <= kk < n.finding.clause_ids.len() && n.finding.clause_ids[kk] == d;
            let qq = choose|qq: int| 0 <= qq < n.law_refs.len() && n.law_refs[qq] == l;
            assert(node_indexed(s, m));
            assert(list_has(s.cited_by.deep_view(), lm[q], m.finding.risk_id));
            assert(list_has(t.cited_by.deep_view(), n.law_refs[qq], m.finding.risk_id));
            assert(s.risks.deep_view().dom().contains(m.finding.risk_id));
            assert(t.risks.deep_view()[m.finding.risk_id] == m);
            assert(risk_has_clause(t, m.finding.risk_id, c));
            assert(related_chunk(t, n.law_refs, n.finding.clause_ids[kk], c));
            assert(!missing_upto(t, n.law_refs, n.finding.clause_ids, n.finding.clause_ids.len() as int));
            assert(list_has(t.same_law.deep_view(), d, c) && list_has(t.same_law.deep_view(), c, d));
            assert(false);
        }
    }
}

/// Writes `nodes` one after the other (see
/// `upsert_provisional_node_in_state`); returns the clauses to invalidate,
/// the laws whose readers to invalidate, the ids of the nodes that changed
/// something, and whether any did.
fn upsert_nodes_in_state(state: &mut GraphSnapshot, nodes: &Vec<RiskNode>) -> (r: (Vec<String>, Vec<String>, Vec<String>, bool))
    requires
        old(state).wf(),
        forall|p: int, q: int| 0 <= p < nodes@.len() && 0 <= q < nodes@.len() && p != q ==> nodes.deep_view()[p].finding.risk_id != nodes.deep_view()[q].finding.risk_id,
        no_conflict(old(state), nodes.deep_view()),
    ensures
        final(state).wf(),
        r.3 <==> exists|j: int| 0 <= j < nodes@.len() && !#[trigger] upserted(old(state), nodes.deep_view()[j]),
        !r.3 ==> same_graph(old(state), final(state)),
        forall|j: int| 0 <= j < nodes@.len() ==> #[trigger] node_indexed(final(state), nodes.deep_view()[j]),
        forall|j: int| 0 <= j < nodes@.len() ==> final(state).risks.deep_view()[#[trigger] nodes.deep_view()[j].finding.risk_id] == nodes.deep_view()[j],
        forall|k: Seq<char>| #[trigger] final(state).risks.deep_view().dom().contains(k) ==> old(state).risks.deep_view().dom().contains(k)
            || exists|j: int| 0 <= j < nodes@.len() && #[trigger] nodes.deep_view()[j].finding.risk_id == k,
        grows(old(state), final(state)),
        unchanged_except(old(state), final(state), set![f_risks(), f_has_risk(), f_cites(), f_cited_by(), f_laws(), f_same_law()]),
        final(state).graph_version == old(state).graph_version,
        final(state).chunk_versions.deep_view() == old(state).chunk_versions.deep_view(),
        forall|j: int, x: Seq<char>| 0 <= j < nodes@.len() && !old(state).risks.deep_view().dom().contains(nodes.deep_view()[j].finding.risk_id)
            && #[trigger] nodes.deep_view()[j].finding.clause_ids.contains(x) ==> r.0.deep_view().contains(x),
        citations_stored(old(state)) ==> citations_stored(final(state)) && forall|j: int|
            0 <= j < nodes@.len() ==> #[trigger] upserted(final(state), nodes.deep_view()[j]),
        batch_edges_only(old(state), final(state), nodes.deep_view()),
        forall|x: Seq<char>| #[trigger] r.0.deep_view().contains(x) ==> exists|j: int| 0 <= j < nodes@.len() && #[trigger] touched_upto(
            final(state),
            nodes.deep_view()[j].law_refs,
            nodes.deep_view()[j].finding.clause_ids,
            nodes.deep_view()[j].finding.clause_ids.len() as int,
            x,
        ),
        forall|x: Seq<char>| #[trigger] r.2.deep_view().contains(x) ==> batch_id(nodes.deep_view(), x),
        forall|l: Seq<char>| #[trigger] r.1.deep_view().contains(l) ==> batch_law(nodes.deep_view(), l),
        lists_distinct(old(state).has_risk.deep_view()) ==> lists_distinct(final(state).has_risk.deep_view()),
        lists_distinct(old(state).cites.deep_view()) ==> lists_distinct(final(state).cites.deep_view()),
        lists_distinct(old(state).cited_by.deep_view()) ==> lists_distinct(final(state).cited_by.deep_view()),
        forall|k: Seq<char>, x: Seq<char>| #[trigger] list_has(final(state).has_risk.deep_view(), k, x) && !list_has(old(state).has_risk.deep_view(), k, x)
            ==> r.0.deep_view().contains(k),
        forall|k: Seq<char>, x: Seq<char>| #[trigger] list_has(final(state).same_law.deep_view(), k, x) && !list_has(old(state).same_law.deep_view(), k, x)
            ==> r.0.deep_view().contains(k),
{
    let ghost nv = nodes.deep_view();
    let ghost a = *state;
    let mut affected: Vec<String> = Vec::new();
    let mut law_out: Vec<String> = Vec::new();
    let mut changed_ids: Vec<String> = Vec::new();
    let mut changed = false;
    let mut i: usize = 0;
    proof {
        assert(nv.take(0) =~= Seq::<crate::graph_types::RiskNodeView>::empty());
    }
    while i < nodes.len()
        invariant
            state.wf(),
            a == *old(state),
            nodes.deep_view() == nv,
            forall|p: int, q: int| 0 <= p < nv.len() && 0 <= q < nv.len() && p != q ==> nv[p].finding.risk_id != nv[q].finding.risk_id,
            no_conflict(&a, nv),
            i <= nv.len(),
            changed <==> exists|j: int| 0 <= j < i && !#[trigger] upserted(&a, nv[j]),
            !changed ==> same_graph(&a, &*state),
            forall|j: int| 0 <= j < i ==> #[trigger] node_indexed(&*state, nv[j]),
            forall|j: int| 0 <= j < i ==> state.risks.deep_view()[#[trigger] nv[j].finding.risk_id] == nv[j],
            forall|k: Seq<char>| #[trigger] state.risks.deep_view().dom().contains(k) ==> a.risks.deep_view().dom().contains(k)
                || exists|j: int| 0 <= j < i && #[trigger] nv[j].finding.risk_id == k,
            grows(&a, &*state),
            unchanged_except(&a, &*state, set![f_risks(), f_has_risk(), f_cites(), f_cited_by(), f_laws(), f_same_law()]),
            state.graph_version == a.graph_version,
            state.chunk_versions.deep_view() == a.chunk_versions.deep_view(),
            forall|j: int, x: Seq<char>| 0 <= j < i && !a.risks.deep_view().dom().contains(nv[j].finding.risk_id)
                && #[trigger] nv[j].finding.clause_ids.contains(x) ==> affected.deep_view().contains(x),
            citations_stored(&a) ==> citations_stored(&*state) && forall|j: int| 0 <= j < i ==> #[trigger] upserted(&*state, nv[j]),
            batch_edges_only(&a, &*state, nv.take(i as int)),
            forall|x: Seq<char>| #[trigger] affected.deep_view().contains(x) ==> exists|j: int| 0 <= j < i && #[trigger] touched_upto(
                &*state,
                nv[j].law_refs,
                nv[j].finding.clause_ids,
                nv[j].finding.clause_ids.len() as int,
                x,
            ),
            forall|x: Seq<char>| #[trigger] changed_ids.deep_view().contains(x) ==> batch_id(nv, x),
            forall|l: Seq<char>| #[trigger] law_out.deep_view().contains(l) ==> batch_law(nv, l),
            lists_distinct(a.has_risk.deep_view()) ==> lists_distinct(state.has_risk.deep_view()),
            lists_distinct(a.cites.deep_view()) ==> lists_distinct(state.cites.deep_view()),
            lists_distinct(a.cited_by.deep_view()) ==> lists_distinct(state.cited_by.deep_view()),
            forall|k: Seq<char>, x: Seq<char>| #[trigger] list_has(state.has_risk.deep_view(), k, x) && !list_has(a.has_risk.deep_view(), k, x)
                ==> affected.deep_view().contains(k),
            forall|k: Seq<char>, x: Seq<char>| #[trigger] list_has(state.same_law.deep_view(), k, x) && !list_has(a.same_law.deep_view(), k, x)
                ==> affected.deep_view().contains(k),
        decreases nv.len() - i,
    {
        let ghost s0 = *state;
        let ghost aff0 = affected.deep_view();
        let ghost ch0 = changed;
        let ghost n = nv[i as int];
        proof {
            assert(nodes@[i as int].deep_view() == n);
        }
        let ghost law0 = law_out.deep_view();
        let ghost ids0 = changed_ids.deep_view();
        let (aff, laws_i, ch) = upsert_provisional_node_in_state(state, &nodes[i]);
        proof {
            lemma_batch_edges_step(&a, &s0, &*state, nv, i as int);
        }
        extend_strings(&mut affected, &aff);
        extend_strings(&mut law_out, &laws_i);
        if ch {
            changed_ids.push(nodes[i].finding.risk_id.clone());
            proof {
                assert(changed_ids.deep_view() =~= ids0.push(n.finding.risk_id));
            }
        }
        changed = changed || ch;
        proof {
            lemma_concat_contains(aff0, aff.deep_view());
            lemma_grows_trans(&a, &s0, &*state);
            assert forall|f: int| 0 <= f < 14 && !set![f_risks(), f_has_risk(), f_cites(), f_cited_by(), f_laws(), f_same_law()].contains(f) implies #[trigger] keeps(&a, &*state, f) by {
                assert(keeps(&a, &s0, f));
                assert(keeps(&s0, &*state, f));
            }
            // the node's id was stored by no earlier node of the batch
            assert(s0.risks.deep_view().dom().contains(n.finding.risk_id) ==> a.risks.deep_view().dom().contains(n.finding.risk_id)) by {
                if s0.risks.deep_view().dom().contains(n.finding.risk_id) && !a.risks.deep_view().dom().contains(n.finding.risk_id) {
                    let j = choose|j: int| 0 <= j < i && #[trigger] nv[j].finding.risk_id == n.finding.risk_id;
                }
            }
            if a.risks.deep_view().dom().contains(n.finding.risk_id) {
                assert(a.risks.deep_view()[nv[i as int].finding.risk_id] == nv[i as int]);
            }
            if !ch0 {
                assert(upserted(&s0, n) == upserted(&a, n)) by {
                    lemma_pair_transfer(&a, &s0, n.law_refs, n.finding.clause_ids, n.finding.clause_ids.len() as int);
                }
            }
            assert forall|j: int| 0 <= j < i + 1 implies #[trigger] node_indexed(&*state, nv[j]) by {
                if j < i {
                    lemma_indexed_grows(&s0, &*state, nv[j]);
                }
            }
            assert forall|j: int| 0 <= j < i + 1 implies state.risks.deep_view()[#[trigger] nv[j].finding.risk_id] == nv[j] by {
                if j < i {
                    assert(node_indexed(&s0, nv[j]));
                    assert(s0.risks.deep_view().dom().contains(nv[j].finding.risk_id));
                    assert(nv[j].finding.risk_id != n.finding.risk_id);
                    assert(s0.risks.deep_view()[nv[j].finding.risk_id] == nv[j]);
                }
            }
            if citations_stored(&a) {
                assert forall|l: Seq<char>, r: Seq<char>| #[trigger] list_has(state.cited_by.deep_view(), l, r) implies state.risks.deep_view().dom().contains(r) by {
                    if !list_has(s0.cited_by.deep_view(), l, r) {
                        assert(r == n.finding.risk_id);
                    }
                }
                assert forall|j: int| 0 <= j < i + 1 implies #[trigger] upserted(&*state, nv[j]) by {
                    if j < i {
                        assert(upserted(&s0, nv[j]));
                        assert(node_indexed(&*state, nv[j]));
                        if nv[j].finding.finding_role != FindingRole::Hypothesis {
                            lemma_pairs_stay_complete(&s0, &*state, n, nv[j]);
                        }
                    }
                }
            }
            assert forall|k: Seq<char>| #[trigger] state.risks.deep_view().dom().contains(k) implies a.risks.deep_view().dom().contains(k)
                || exists|j: int| 0 <= j < i + 1 && #[trigger] nv[j].finding.risk_id == k by {
                if s0.risks.deep_view().dom().contains(k) && !a.risks.deep_view().dom().contains(k) {
                    let j = choose|j: int| 0 <= j < i && #[trigger] nv[j].finding.risk_id == k;
                    assert(0 <= j < i + 1);
                }
                if !s0.risks.deep_view().dom().contains(k) {
                    assert(nv[i as int].finding.risk_id == k);
                }
            }
            assert forall|j: int, x: Seq<char>| 0 <= j < i + 1 && !a.risks.deep_view().dom().contains(nv[j].finding.risk_id)
                && #[trigger] nv[j].finding.clause_ids.contains(x) implies affected.deep_view().contains(x) by {
                if j < i {
                    assert(aff0.contains(x));
                } else {
                    assert(!s0.risks.deep_view().dom().contains(n.finding.risk_id));
                    assert(ch);
                    assert(aff.deep_view().contains(x));
                }
            }
            if ch && !ch0 {
                assert(!upserted(&a, nv[i as int]));
            }
            if changed {
                if ch0 {
                    let j = choose|j: int| 0 <= j < i && !#[trigger] upserted(&a, nv[j]);
                    assert(0 <= j < i + 1);
                }
            } else {
                assert forall|j: int| 0 <= j < i + 1 implies #[trigger] upserted(&a, nv[j]) by {
                    if j < i {
                        assert(!(exists|j2: int| 0 <= j2 < i && !#[trigger] upserted(&a, nv[j2])));
                    }
                }
                assert(same_graph(&a, &*state));
            }
        }
        proof {
            lemma_concat_contains(law0, laws_i.deep_view());
            assert forall|x: Seq<char>| #[trigger] affected.deep_view().contains(x) implies exists|j: int| 0 <= j < i + 1 && #[trigger] touched_upto(
                &*state,
                nv[j].law_refs,
                nv[j].finding.clause_ids,
                nv[j].finding.clause_ids.len() as int,
                x,
            ) by {
                if aff0.contains(x) {
                    let j = choose|j: int| 0 <= j < i && #[trigger] touched_upto(&s0, nv[j].law_refs, nv[j].finding.clause_ids, nv[j].finding.clause_ids.len() as int, x);
                    lemma_touched_grows(&s0, &*state, nv[j].law_refs, nv[j].finding.clause_ids, nv[j].finding.clause_ids.len() as int, x);
                } else {
                    assert(aff.deep_view().contains(x));
                    if n.finding.clause_ids.contains(x) {
                        let q = choose|q: int| 0 <= q < n.finding.clause_ids.len() && n.finding.clause_ids[q] == x;
                        assert(touched_at(&*state, n.law_refs, n.finding.clause_ids, q, x));
                    }
                    assert(touched_upto(&*state, nv[i as int].law_refs, nv[i as int].finding.clause_ids, nv[i as int].finding.clause_ids.len() as int, x));
                }
            }
            assert forall|k: Seq<char>, x: Seq<char>| #[trigger] list_has(state.has_risk.deep_view(), k, x) && !list_has(a.has_risk.deep_view(), k, x)
                implies affected.deep_view().contains(k) by {
                if list_has(s0.has_risk.deep_view(), k, x) {
                    assert(aff0.contains(k));
                } else {
                    assert(ch);
                    assert(aff.deep_view().contains(k));
                }
            }
            assert forall|k: Seq<char>, x: Seq<char>| #[trigger] list_has(state.same_law.deep_view(), k, x) && !list_has(a.same_law.deep_view(), k, x)
                implies affected.deep_view().contains(k) by {
                if list_has(s0.same_law.deep_view(), k, x) {
                    assert(aff0.contains(k));
                } else {
                    assert(aff.deep_view().contains(k));
                }
            }
            assert forall|x: Seq<char>| #[trigger] changed_ids.deep_view().contains(x) implies batch_id(nv, x) by {
                if !ids0.contains(x) {
                    assert(x == nv[i as int].finding.risk_id);
                    assert(nv[i as int].finding.risk_id == x);
                }
            }
            assert forall|l: Seq<char>| #[trigger] law_out.deep_view().contains(l) implies batch_law(nv, l) by {
                if !law0.contains(l) {
                    assert(laws_i.deep_view().contains(l));
                    assert(nv[i as int].law_refs.contains(l));
                }
            }
        }
        i += 1;
    }
    proof {
        assert(nv.take(nv.len() as int) =~= nv);
    }
    (affected, law_out, changed_ids, changed)
}

/// A fresh random attempt id: the text of `uuid::Uuid::new_v4()`, which the
/// crate writes in the hyphenated lower-case form of 36 characters. Nothing
/// else is promised of it: it is random.
#[verifier::external_body]
fn new_attempt_id() -> (r: String)
    ensures
        r@.len() == 36,
{
    uuid::Uuid::new_v4().to_string()
}

/// The current UTC time as RFC 3339 text (`chrono::Utc::now().to_rfc3339()`).
/// It reads the clock, so nothing is promised of its value.
#[verifier::external_body]
fn now_rfc3339() -> (r: String) {
    chrono::Utc::now().to_rfc3339()
}

/// Attempt `a` after its successful completion.
pub open spec fn completed_attempt(
    a: crate::graph_types::AttemptView,
    outcome: ReviewAttemptOutcome,
    ids: Seq<Seq<char>>,
    finished: Seq<char>,
) -> crate::graph_types::AttemptView {
    crate::graph_types::AttemptView {
        status: ReviewAttemptStatus::Completed,
        outcome: Some(outcome),
        finding_ids: ids,
        finished_at: Some(finished),
        ..a
    }
}

/// Attempt `a` after it failed.
pub open spec fn failed_attempt(
    a: crate::graph_types::AttemptView,
    code: ReviewAttemptErrorCode,
    message: Seq<char>,
    finished: Seq<char>,
) -> crate::graph_types::AttemptView {
    crate::graph_types::AttemptView {
        status: ReviewAttemptStatus::Failed,
        error_code: Some(code),
        error_message: Some(message),
        finished_at: Some(finished),
        ..a
    }
}

/// `g` holds attempt `id` and it is still running.
pub open spec fn attempt_started(g: &GraphSnapshot, id: Seq<char>) -> bool {
    g.review_attempts.deep_view().dom().contains(id) && g.review_attempts.deep_view()[id].status == ReviewAttemptStatus::Started
}

impl SessionGraph {
    /// Opens a review attempt of `agent_id` on `chunk_id` under a fresh id and
    /// bumps the clause.
    pub fn start_review_attempt(&mut self, agent_id: AgentId, chunk_id: &str) -> (r: Result<String, String>)
        requires
            old(self).wf(),
        ensures
            final(self).wf(),
            r is Ok,
            r matches Ok(id) ==> {
                let a = old(self).graph();
                let b = final(self).graph();
                &&& id@.len() == 36
                &&& b.review_attempts.deep_view() == a.review_attempts.deep_view().insert(
                    id@,
                    crate::graph_types::AttemptView {
                        attempt_id: id@,
                        agent_id,
                        chunk_id: chunk_id@,
                        status: ReviewAttemptStatus::Started,
                        outcome: None,
                        finding_ids: Seq::empty(),
                        error_code: None,
                        error_message: None,
                        started_at: b.review_attempts.deep_view()[id@].started_at,
                        finished_at: None,
                    },
                )
                &&& unchanged_except(&a, &b, set![f_review_attempts()])
                &&& version_step(&a, &b, true, seq![chunk_id@])
            },
            final(self).search_cache() == old(self).search_cache(),
            final(self).issued_risk_ids() == old(self).issued_risk_ids(),
            final(self).scout_done() == old(self).scout_done(),
    {
        let attempt_id = new_attempt_id();
        let attempt = ReviewAttempt {
            attempt_id: attempt_id.clone(),
            agent_id,
            chunk_id: to_owned_string(chunk_id),
            status: ReviewAttemptStatus::Started,
            outcome: None,
            finding_ids: Vec::new(),
            error_code: None,
            error_message: None,
            started_at: now_rfc3339(),
            finished_at: None,
        };
        let ghost av = attempt.deep_view();
        self.state.review_attempts.insert(attempt_id.clone(), attempt);
        let ghost mid = self.state;
        self.bump_one(chunk_id);
        proof {
            assert(av.finding_ids =~= Seq::<Seq<char>>::empty());
            assert(mid.review_attempts.deep_view() =~= old(self).state.review_attempts.deep_view().insert(attempt_id@, av));
            assert(keeps(&mid, &self.state, f_review_attempts()));
            assert forall|f: int| 0 <= f < 14 && !set![f_review_attempts()].contains(f) implies #[trigger] keeps(
                &old(self).graph(),
                &self.graph(),
                f,
            ) by {
                assert(keeps(&mid, &self.state, f));
            }
        }
        Ok(attempt_id)
    }

    /// Closes a running attempt as successful without findings (a
    /// `Findings` outcome must go through `commit_review_result`), records
    /// the agent in `reviewed_by` and bumps the clause. Refuses, changing
    /// nothing, a `Findings` outcome, a `NoRisk` outcome with finding ids, an
    /// unknown attempt and one that is no longer running.
    pub fn complete_review_attempt(&mut self, attempt_id: &str, outcome: ReviewAttemptOutcome, finding_ids: Vec<String>) -> (r: Result<(), String>)
        requires
            old(self).wf(),
        ensures
            final(self).wf(),
            r is Err <==> outcome == ReviewAttemptOutcome::Findings || finding_ids@.len() > 0 || !attempt_started(&old(self).graph(), attempt_id@),
            r is Err ==> same_graph(&old(self).graph(), &final(self).graph()),
            r is Ok ==> {
                let a = old(self).graph();
                let b = final(self).graph();
                let at = a.review_attempts.deep_view()[attempt_id@];
                &&& b.review_attempts.deep_view() == a.review_attempts.deep_view().insert(
                    attempt_id@,
                    completed_attempt(at, outcome, finding_ids.deep_view(), b.review_attempts.deep_view()[attempt_id@].finished_at->0),
                )
                &&& b.reviewed_by.deep_view() == a.reviewed_by.deep_view().insert(
                    at.chunk_id,
                    entry_pushed(a.reviewed_by.deep_view(), at.chunk_id, at.agent_id),
                )
                &&& unchanged_except(&a, &b, set![f_review_attempts(), f_reviewed_by()])
                &&& version_step(&a, &b, true, seq![at.chunk_id])
            },
            final(self).search_cache() == old(self).search_cache(),
            final(self).issued_risk_ids() == old(self).issued_risk_ids(),
            final(self).scout_done() == old(self).scout_done(),
    {
        if matches!(outcome, ReviewAttemptOutcome::Findings) {
            return Err(to_owned_string("Findings 结果必须使用 commit_review_result 原子提交 finding 与审查状态"));
        }
        if finding_ids.len() > 0 {
            return Err(to_owned_string("NoRisk 结果的 finding_ids 必须为空"));
        }
        let (agent, chunk, mut attempt) = match self.state.review_attempts.get(attempt_id) {
            Some(at) => {
                proof {
                    assert(self.state.review_attempts.deep_view()[attempt_id@] == at.deep_view());
                }
                if !matches!(at.status, ReviewAttemptStatus::Started) {
                    let mut msg = to_owned_string("审查尝试 ");
                    push_str(&mut msg, attempt_id);
                    push_str(&mut msg, " 已结束，禁止重复流转");
                    return Err(msg);
                }
                (at.agent_id, at.chunk_id.clone(), at.dup())
            },
            None => {
                let mut msg = to_owned_string("审查尝试不存在: ");
                push_str(&mut msg, attempt_id);
                return Err(msg);
            },
        };
        let ghost at0 = attempt.deep_view();
        attempt.status = ReviewAttemptStatus::Completed;
        attempt.outcome = Some(outcome);
        attempt.finding_ids = finding_ids;
        attempt.finished_at = Some(now_rfc3339());
        let ghost av = attempt.deep_view();
        self.state.review_attempts.insert(to_owned_string(attempt_id), attempt);
        let ghost s1 = self.state;
        entry_push_unique(&mut self.state.reviewed_by, chunk.as_str(), agent);
        let ghost mid = self.state;
        self.bump_one(chunk.as_str());
        proof {
            assert(av == completed_attempt(at0, outcome, av.finding_ids, av.finished_at->0));
            assert(s1.review_attempts.deep_view() =~= old(self).state.review_attempts.deep_view().insert(attempt_id@, av));
            assert(keeps(&mid, &self.state, f_review_attempts()));
            assert(keeps(&mid, &self.state, f_reviewed_by()));
            assert forall|f: int| 0 <= f < 14 && !set![f_review_attempts(), f_reviewed_by()].contains(f) implies #[trigger] keeps(
                &old(self).graph(),
                &self.graph(),
                f,
            ) by {
                assert(keeps(&mid, &self.state, f));
            }
        }
        Ok(())
    }

    /// Closes a running attempt as failed and bumps its clause; a failed
    /// attempt does not count as a review. Refuses, changing nothing, an
    /// unknown attempt and one that is no longer running.
    pub fn fail_review_attempt(&mut self, attempt_id: &str, error_code: ReviewAttemptErrorCode, error_message: &str) -> (r: Result<(), String>)
        requires
            old(self).wf(),
        ensures
            final(self).wf(),
            r is Err <==> !attempt_started(&old(self).graph(), attempt_id@),
            r is Err ==> same_graph(&old(self).graph(), &final(self).graph()),
            r is Ok ==> {
                let a = old(self).graph();
                let b = final(self).graph();
                let at = a.review_attempts.deep_view()[attempt_id@];
                &&& b.review_attempts.deep_view() == a.review_attempts.deep_view().insert(
                    attempt_id@,
                    failed_attempt(at, error_code, error_message@, b.review_attempts.deep_view()[attempt_id@].finished_at->0),
                )
                &&& unchanged_except(&a, &b, set![f_review_attempts()])
                &&& version_step(&a, &b, true, seq![at.chunk_id])
            },
            final(self).search_cache() == old(self).search_cache(),
            final(self).issued_risk_ids() == old(self).issued_risk_ids(),
            final(self).scout_done() == old(self).scout_done(),
    {
        let (chunk, mut attempt) = match self.state.review_attempts.get(attempt_id) {
            Some(at) => {
                proof {
                    assert(self.state.review_attempts.deep_view()[attempt_id@] == at.deep_view());
                }
                if !matches!(at.status, ReviewAttemptStatus::Started) {
                    let mut msg = to_owned_string("审查尝试 ");
                    push_str(&mut msg, attempt_id);
                    push_str(&mut msg, " 已结束，禁止重复流转");
                    return Err(msg);
                }
                (at.chunk_id.clone(), at.dup())
            },
            None => {
                let mut msg = to_owned_string("审查尝试不存在: ");
                push_str(&mut msg, attempt_id);
                return Err(msg);
            },
        };
        let ghost at0 = attempt.deep_view();
        attempt.status = ReviewAttemptStatus::Failed;
        attempt.error_code = Some(error_code);
        attempt.error_message = Some(to_owned_string(error_message));
        attempt.finished_at = Some(now_rfc3339());
        let ghost av = attempt.deep_view();
        self.state.review_attempts.insert(to_owned_string(attempt_id), attempt);
        let ghost mid = self.state;
        self.bump_one(chunk.as_str());
        proof {
            assert(av == failed_attempt(at0, error_code, error_message@, av.finished_at->0));
            assert(mid.review_attempts.deep_view() =~= old(self).state.review_attempts.deep_view().insert(attempt_id@, av));
            assert(keeps(&mid, &self.state, f_review_attempts()));
            assert forall|f: int| 0 <= f < 14 && !set![f_review_attempts()].contains(f) implies #[trigger] keeps(
                &old(self).graph(),
                &self.graph(),
                f,
            ) by {
                assert(keeps(&mid, &self.state, f));
            }
        }
        Ok(())
    }
}

/// Attempt `a` is running, belongs to `agent` and reviews one of `chunks`.
pub open spec fn closes(a: crate::graph_types::AttemptView, agent: AgentId, chunks: Seq<Seq<char>>) -> bool {
    a.status == ReviewAttemptStatus::Started && a.agent_id == agent && chunks.contains(a.chunk_id)
}

/// How many of the first `n` stored attempts `closes` selects.
pub open spec fn closing_upto(g: &GraphSnapshot, agent: AgentId, chunks: Seq<Seq<char>>, n: nat) -> nat
    decreases n,
{
    if n == 0 {
        0
    } else {
        closing_upto(g, agent, chunks, (n - 1) as nat) + if closes(
            g.review_attempts.deep_view()[g.review_attempts.key_seq()[n - 1]],
            agent,
            chunks,
        ) {
            1nat
        } else {
            0nat
        }
    }
}

impl SessionGraph {
    /// Closes as failed every running attempt of `agent_id` on one of
    /// `chunk_ids`; returns how many it closed and bumps their clauses.
    pub fn fail_started_attempts(
        &mut self,
        agent_id: AgentId,
        chunk_ids: &Vec<String>,
        error_code: ReviewAttemptErrorCode,
        error_message: &str,
    ) -> (r: Result<usize, String>)
        requires
            old(self).wf(),
        ensures
            final(self).wf(),
            r matches Ok(n) && {
                let a = old(self).graph();
                let b = final(self).graph();
                let ra = a.review_attempts.deep_view();
                let rb = b.review_attempts.deep_view();
                &&& n == closing_upto(&a, agent_id, chunk_ids.deep_view(), a.review_attempts.key_seq().len())
                &&& rb.dom() == ra.dom()
                &&& forall|k: Seq<char>| #[trigger] ra.dom().contains(k) && closes(ra[k], agent_id, chunk_ids.deep_view())
                    ==> rb[k] == failed_attempt(ra[k], error_code, error_message@, rb[k].finished_at->0)
                &&& forall|k: Seq<char>| #[trigger] ra.dom().contains(k) && !closes(ra[k], agent_id, chunk_ids.deep_view()) ==> rb[k] == ra[k]
                &&& unchanged_except(&a, &b, set![f_review_attempts()])
                &&& if n > 0 {
                    versions_bumped(&a, &b, |x: Seq<char>| exists|k: Seq<char>| #[trigger] ra.dom().contains(k)
                        && closes(ra[k], agent_id, chunk_ids.deep_view()) && ra[k].chunk_id == x)
                } else {
                    &&& b.graph_version == a.graph_version
                    &&& b.chunk_versions.deep_view() == a.chunk_versions.deep_view()
                }
            },
            final(self).search_cache() == old(self).search_cache(),
            final(self).issued_risk_ids() == old(self).issued_risk_ids(),
            final(self).scout_done() == old(self).scout_done(),
    {
        let finished_at = now_rfc3339();
        let ghost cs = chunk_ids.deep_view();
        let ghost a = self.state;
        let ghost ra = a.review_attempts.deep_view();
        proof {
            a.review_attempts.lemma_view_facts();
        }
        let mut closed: usize = 0;
        let mut affected: Vec<String> = Vec::new();
        let n = self.state.review_attempts.len();
        let mut i: usize = 0;
        while i < n
            invariant
                self.state.wf(),
                self.search_results == old(self).search_results,
                self.risk_id_counter == old(self).risk_id_counter,
                self.scout_complete == old(self).scout_complete,
                a == old(self).state,
                a.wf(),
                ra == a.review_attempts.deep_view(),
                cs == chunk_ids.deep_view(),
                n == a.review_attempts.key_seq().len(),
                self.state.review_attempts.key_seq() == a.review_attempts.key_seq(),
                i <= n,
                closed == closing_upto(&a, agent_id, cs, i as nat),
                closed <= i,
                unchanged_except(&a, &self.state, set![f_review_attempts()]),
                self.state.graph_version == a.graph_version,
                self.state.chunk_versions.deep_view() == a.chunk_versions.deep_view(),
                forall|j: int| 0 <= j < n ==> #[trigger] self.state.review_attempts.deep_view()[a.review_attempts.key_seq()[j]] == if j < i
                    && closes(ra[a.review_attempts.key_seq()[j]], agent_id, cs) {
                    failed_attempt(ra[a.review_attempts.key_seq()[j]], error_code, error_message@, finished_at@)
                } else {
                    ra[a.review_attempts.key_seq()[j]]
                },
                forall|x: Seq<char>| #[trigger] affected.deep_view().contains(x) <==> exists|j: int| 0 <= j < i
                    && closes(ra[a.review_attempts.key_seq()[j]], agent_id, cs) && #[trigger] ra[a.review_attempts.key_seq()[j]].chunk_id == x,
            decreases n - i,
        {
            proof {
                a.review_attempts.lemma_view_facts();
                self.state.review_attempts.lemma_view_facts();
            }
            let ghost k = a.review_attempts.key_seq()[i as int];
            let ghost s0 = self.state;
            let ghost aff0 = affected.deep_view();
            let (_key, at) = self.state.review_attempts.entry_at(i);
            proof {
                assert(a.review_attempts.key_seq().contains(k));
                assert(self.state.review_attempts@[k] == self.state.review_attempts.value_at(i as int));
                assert(self.state.review_attempts.deep_view()[k] == self.state.review_attempts@[k].deep_view());
                assert(self.state.review_attempts.deep_view()[a.review_attempts.key_seq()[i as int]] == ra[k]);
                assert(at.deep_view() == ra[k]);
            }
            let sel = matches!(at.status, ReviewAttemptStatus::Started) && at.agent_id == agent_id
                && contains_deep(chunk_ids, &at.chunk_id);
            if sel {
                let mut upd = at.dup();
                let chunk = at.chunk_id.clone();
                upd.status = ReviewAttemptStatus::Failed;
                upd.error_code = Some(error_code);
                upd.error_message = Some(to_owned_string(error_message));
                upd.finished_at = Some(finished_at.clone());
                let ghost uv = upd.deep_view();
                self.state.review_attempts.set_at(i, upd);
                affected.push(chunk);
                closed = closed + 1;
                proof {
                    assert(uv == failed_attempt(ra[k], error_code, error_message@, finished_at@));
                    self.state.review_attempts.lemma_view_facts();
                    assert forall|j: int| 0 <= j < n implies #[trigger] self.state.review_attempts.deep_view()[a.review_attempts.key_seq()[j]] == if j < i + 1
                        && closes(ra[a.review_attempts.key_seq()[j]], agent_id, cs) {
                        failed_attempt(ra[a.review_attempts.key_seq()[j]], error_code, error_message@, finished_at@)
                    } else {
                        ra[a.review_attempts.key_seq()[j]]
                    } by {
                        let kj = a.review_attempts.key_seq()[j];
                        assert(a.review_attempts.key_seq().contains(kj));
                        if j != i {
                            a.review_attempts.lemma_key_seq_unique(i as int, j);
                            assert(s0.review_attempts.deep_view()[kj] == self.state.review_attempts.deep_view()[kj]);
                        }
                    }
                    assert(affected.deep_view() =~= aff0.push(ra[k].chunk_id));
                }
            } else {
                proof {
                    assert forall|j: int| 0 <= j < n implies #[trigger] self.state.review_attempts.deep_view()[a.review_attempts.key_seq()[j]] == if j < i + 1
                        && closes(ra[a.review_attempts.key_seq()[j]], agent_id, cs) {
                        failed_attempt(ra[a.review_attempts.key_seq()[j]], error_code, error_message@, finished_at@)
                    } else {
                        ra[a.review_attempts.key_seq()[j]]
                    } by {}
                }
            }
            proof {
                assert forall|x: Seq<char>| #[trigger] affected.deep_view().contains(x) <==> exists|j: int| 0 <= j < i + 1
                    && closes(ra[a.review_attempts.key_seq()[j]], agent_id, cs) && #[trigger] ra[a.review_attempts.key_seq()[j]].chunk_id == x by {
                    if sel {
                        lemma_concat_contains(aff0, seq![ra[k].chunk_id]);
                        assert(aff0.push(ra[k].chunk_id) =~= aff0 + seq![ra[k].chunk_id]);
                        assert(seq![ra[k].chunk_id][0] == ra[k].chunk_id);
                    }
                    if exists|j: int| 0 <= j < i + 1 && closes(ra[a.review_attempts.key_seq()[j]], agent_id, cs) && #[trigger] ra[a.review_attempts.key_seq()[j]].chunk_id == x {
                        let j = choose|j: int| 0 <= j < i + 1 && closes(ra[a.review_attempts.key_seq()[j]], agent_id, cs) && #[trigger] ra[a.review_attempts.key_seq()[j]].chunk_id == x;
                        if j < i {
                            assert(aff0.contains(x));
                        }
                    }
                }
                assert(keeps(&s0, &self.state, 0));
                assert forall|f: int| 0 <= f < 14 && !set![f_review_attempts()].contains(f) implies #[trigger] keeps(&a, &self.state, f) by {
                    assert(keeps(&a, &s0, f));
                    assert(keeps(&s0, &self.state, f));
                }
            }
            i += 1;
        }
        let ghost mid = self.state;
        if closed > 0 {
            bump_versions(&mut self.state, &affected);
        }
        proof {
            self.state.review_attempts.lemma_view_facts();
            mid.review_attempts.lemma_view_facts();
            a.review_attempts.lemma_view_facts();
            let rb = self.state.review_attempts.deep_view();
            assert forall|k: Seq<char>| rb.dom().contains(k) <==> ra.dom().contains(k) by {}
            assert(rb.dom() =~= ra.dom());
            assert forall|k: Seq<char>| #[trigger] ra.dom().contains(k) && closes(ra[k], agent_id, cs) implies rb[k]
                == failed_attempt(ra[k], error_code, error_message@, rb[k].finished_at->0) by {
                let j = choose|j: int| 0 <= j < a.review_attempts.key_seq().len() && a.review_attempts.key_seq()[j] == k;
                assert(self.state.review_attempts.deep_view()[a.review_attempts.key_seq()[j]] == mid.review_attempts.deep_view()[a.review_attempts.key_seq()[j]]);
            }
            assert forall|k: Seq<char>| #[trigger] ra.dom().contains(k) && !closes(ra[k], agent_id, cs) implies rb[k] == ra[k] by {
                let j = choose|j: int| 0 <= j < a.review_attempts.key_seq().len() && a.review_attempts.key_seq()[j] == k;
                assert(self.state.review_attempts.deep_view()[a.review_attempts.key_seq()[j]] == mid.review_attempts.deep_view()[a.review_attempts.key_seq()[j]]);
            }
            assert forall|f: int| 0 <= f < 14 && !set![f_review_attempts()].contains(f) implies #[trigger] keeps(&a, &self.state, f) by {
                assert(keeps(&a, &mid, f));
                assert(keeps(&mid, &self.state, f));
            }
            if closed > 0 {
                let p = |x: Seq<char>| exists|k: Seq<char>| #[trigger] ra.dom().contains(k) && closes(ra[k], agent_id, cs) && ra[k].chunk_id == x;
                assert forall|x: Seq<char>| #[trigger] affected.deep_view().contains(x) <==> p(x) by {
                    if affected.deep_view().contains(x) {
                        let j = choose|j: int| 0 <= j < n && closes(ra[a.review_attempts.key_seq()[j]], agent_id, cs) && #[trigger] ra[a.review_attempts.key_seq()[j]].chunk_id == x;
                        let kj = a.review_attempts.key_seq()[j];
                        assert(a.review_attempts.key_seq().contains(kj));
                        assert(ra.dom().contains(kj));
                    }
                    if p(x) {
                        let k = choose|k: Seq<char>| #[trigger] ra.dom().contains(k) && closes(ra[k], agent_id, cs) && ra[k].chunk_id == x;
                        let j = choose|j: int| 0 <= j < a.review_attempts.key_seq().len() && a.review_attempts.key_seq()[j] == k;
                        assert(closes(ra[a.review_attempts.key_seq()[j]], agent_id, cs) && ra[a.review_attempts.key_seq()[j]].chunk_id == x);
                    }
                }
                lemma_bumped_by_members(&a, &self.state, affected.deep_view(), p);
            }
        }
        Ok(closed)
    }
}

/// The ids of `nodes`, in order.
pub open spec fn node_ids(nodes: Seq<crate::graph_types::RiskNodeView>) -> Seq<Seq<char>> {
    Seq::new(nodes.len(), |i: int| nodes[i].finding.risk_id)
}

impl SessionGraph {
    /// Commits the successful result of one review attempt in one step: the
    /// real findings as provisional nodes with their edges, the attempt
    /// closed as completed with the nodes' ids, the agent recorded in
    /// `reviewed_by`, and the affected clauses bumped. Refuses, changing
    /// nothing, a batch with a blank id, no clause or a repeated id, a
    /// `Findings` outcome without a real finding, a `NoRisk` outcome with
    /// one, an attempt that is unknown or no longer running, and a node that
    /// clashes with a stored risk. On success every edge is an old one or
    /// one written for a batch node, no edge list gains a repeat, the
    /// attempt's clause and every clause that gained a `has_risk` or
    /// same-law edge are bumped, and every other bumped clause is one the
    /// batch touches.
    pub fn commit_review_result(&mut self, attempt_id: &str, outcome: ReviewAttemptOutcome, findings: &Vec<RiskFinding>) -> (r: Result<GraphCommit, String>)
        requires
            old(self).wf(),
        ensures
            final(self).wf(),
            final(self).search_cache() == old(self).search_cache(),
            final(self).issued_risk_ids() == old(self).issued_risk_ids(),
            final(self).scout_done() == old(self).scout_done(),
            r is Err <==> !provisional_batch_ok(findings@)
                || (outcome == ReviewAttemptOutcome::Findings && batch_nodes(findings@).len() == 0)
                || (outcome == ReviewAttemptOutcome::NoRisk && batch_nodes(findings@).len() > 0)
                || !attempt_started(&old(self).graph(), attempt_id@)
                || !no_conflict(&old(self).graph(), batch_nodes(findings@)),
            r is Err ==> same_graph(&old(self).graph(), &final(self).graph()),
            r matches Ok(commit) ==> {
                let a = old(self).graph();
                let b = final(self).graph();
                let nodes = batch_nodes(findings@);
                let at = a.review_attempts.deep_view()[attempt_id@];
                &&& forall|i: int| 0 <= i < nodes.len() ==> #[trigger] node_indexed(&b, nodes[i])
                &&& forall|i: int| 0 <= i < nodes.len() ==> b.risks.deep_view()[#[trigger] nodes[i].finding.risk_id] == nodes[i]
                &&& forall|k: Seq<char>| #[trigger] b.risks.deep_view().dom().contains(k) ==> a.risks.deep_view().dom().contains(k)
                    || exists|i: int| 0 <= i < nodes.len() && #[trigger] nodes[i].finding.risk_id == k
                &&& grows(&a, &b)
                &&& b.review_attempts.deep_view() == a.review_attempts.deep_view().insert(
                    attempt_id@,
                    completed_attempt(at, outcome, node_ids(nodes), b.review_attempts.deep_view()[attempt_id@].finished_at->0),
                )
                &&& b.reviewed_by.deep_view() == a.reviewed_by.deep_view().insert(
                    at.chunk_id,
                    entry_pushed(a.reviewed_by.deep_view(), at.chunk_id, at.agent_id),
                )
                &&& unchanged_except(&a, &b, set![f_risks(), f_has_risk(), f_cites(), f_cited_by(), f_laws(), f_same_law(), f_review_attempts(), f_reviewed_by()])
                &&& commit_matches(&a, &b, &commit)
                &&& commit.chunk_versions.deep_view().dom().contains(at.chunk_id)
                &&& forall|i: int, x: Seq<char>| 0 <= i < nodes.len() && !a.risks.deep_view().dom().contains(nodes[i].finding.risk_id)
                    && #[trigger] nodes[i].finding.clause_ids.contains(x) ==> commit.chunk_versions.deep_view().dom().contains(x)
                &&& batch_edges_only(&a, &b, nodes)
                &&& forall|x: Seq<char>| #[trigger] commit.chunk_versions.deep_view().dom().contains(x) ==> x == at.chunk_id
                    || batch_touched(&b, nodes, x)
                &&& lists_distinct(a.has_risk.deep_view()) ==> lists_distinct(b.has_risk.deep_view())
                &&& lists_distinct(a.cites.deep_view()) ==> lists_distinct(b.cites.deep_view())
                &&& lists_distinct(a.cited_by.deep_view()) ==> lists_distinct(b.cited_by.deep_view())
                &&& forall|k: Seq<char>, x: Seq<char>| #[trigger] list_has(b.has_risk.deep_view(), k, x) && !list_has(a.has_risk.deep_view(), k, x)
                    ==> commit.chunk_versions.deep_view().dom().contains(k)
                &&& forall|k: Seq<char>, x: Seq<char>| #[trigger] list_has(b.same_law.deep_view(), k, x) && !list_has(a.same_law.deep_view(), k, x)
                    ==> commit.chunk_versions.deep_view().dom().contains(k)
            },
    {
        let nodes = match normalize_provisional_findings(findings) {
            Ok(n) => n,
            Err(e) => {
                return Err(e);
            },
        };
        let ghost nv = batch_nodes(findings@);
        proof {
            assert(nodes.deep_view() =~= nv);
        }
        if matches!(outcome, ReviewAttemptOutcome::Findings) && nodes.len() == 0 {
            return Err(to_owned_string("Findings 结果必须包含至少一个真实 finding"));
        }
        if matches!(outcome, ReviewAttemptOutcome::NoRisk) && nodes.len() > 0 {
            return Err(to_owned_string("NoRisk 结果不得包含真实 finding"));
        }
        let (agent, chunk, attempt) = match self.state.review_attempts.get(attempt_id) {
            Some(at) => {
                proof {
                    assert(self.state.review_attempts.deep_view()[attempt_id@] == at.deep_view());
                }
                if !matches!(at.status, ReviewAttemptStatus::Started) {
                    let mut msg = to_owned_string("审查尝试 ");
                    push_str(&mut msg, attempt_id);
                    push_str(&mut msg, " 已结束，禁止重复流转");
                    return Err(msg);
                }
                (at.agent_id, at.chunk_id.clone(), at.dup())
            },
            None => {
                let mut msg = to_owned_string("审查尝试不存在: ");
                push_str(&mut msg, attempt_id);
                return Err(msg);
            },
        };
        match validate_risk_conflicts(&self.state, &nodes) {
            Ok(()) => {},
            Err(e) => {
                return Err(e);
            },
        }
        let ghost a = self.state;
        proof {
            assert forall|p: int, q: int| 0 <= p < nv.len() && 0 <= q < nv.len() && p != q implies nv[p].finding.risk_id != nv[q].finding.risk_id by {
                lemma_real_ids_distinct(findings@, p);
            }
        }
        let (node_aff, law_out, changed_ids, _changed) = upsert_nodes_in_state(&mut self.state, &nodes);
        let ghost s1 = self.state;
        let mut affected = vec![chunk.clone()];
        let ghost af0 = affected.deep_view();
        extend_strings(&mut affected, &node_aff);
        let ghost af1 = affected.deep_view();
        let ids_u = deduplicate_strings(&changed_ids);
        let laws_u = deduplicate_strings(&law_out);
        let idx = indexed_chunks_for_changes_in_state(&self.state, &ids_u, &laws_u);
        extend_strings(&mut affected, &idx);
        let mut finding_ids: Vec<String> = Vec::new();
        let mut i: usize = 0;
        while i < nodes.len()
            invariant
                i <= nodes@.len(),
                nodes.deep_view() == nv,
                nv.len() == nodes@.len(),
                finding_ids.deep_view() == node_ids(nv).take(i as int),
            decreases nodes@.len() - i,
        {
            let ghost f0 = finding_ids.deep_view();
            let id_i = nodes[i].finding.risk_id.clone();
            finding_ids.push(id_i);
            proof {
                assert(nodes.deep_view()[i as int] == nodes@[i as int].deep_view());
                assert(nodes@[i as int].deep_view() == nv[i as int]);
                assert(id_i@ == nv[i as int].finding.risk_id);
                assert(finding_ids.deep_view() =~= f0.push(id_i@));
                assert(node_ids(nv).take(i + 1) =~= node_ids(nv).take(i as int).push(node_ids(nv)[i as int]));
                assert(finding_ids.deep_view() =~= node_ids(nv).take(i + 1));
            }
            i += 1;
        }
        proof {
            assert(node_ids(nv).take(nv.len() as int) =~= node_ids(nv));
        }
        let ghost at0 = attempt.deep_view();
        let mut attempt = attempt;
        attempt.status = ReviewAttemptStatus::Completed;
        attempt.outcome = Some(outcome);
        attempt.finding_ids = finding_ids;
        attempt.finished_at = Some(now_rfc3339());
        let ghost av = attempt.deep_view();
        self.state.review_attempts.insert(to_owned_string(attempt_id), attempt);
        let ghost s2 = self.state;
        entry_push_unique(&mut self.state.reviewed_by, chunk.as_str(), agent);
        let unique = deduplicate_strings(&affected);
        let ghost mid = self.state;
        let gv = bump_versions(&mut self.state, &unique);
        let commit = build_graph_commit(&self.state, gv, &unique);
        proof {
            assert(av == completed_attempt(at0, outcome, node_ids(nv), av.finished_at->0));
            assert(s1.review_attempts.deep_view() == a.review_attempts.deep_view()) by {
                assert(keeps(&a, &s1, f_review_attempts()));
            }
            assert(s1.reviewed_by.deep_view() == a.reviewed_by.deep_view()) by {
                assert(keeps(&a, &s1, f_reviewed_by()));
            }
            assert(s2.review_attempts.deep_view() =~= a.review_attempts.deep_view().insert(attempt_id@, av));
            assert(af0 =~= seq![chunk@]);
            assert(af0[0] == chunk@);
            lemma_concat_contains(af0, node_aff.deep_view());
            lemma_concat_contains(af1, idx.deep_view());
            lemma_dedup_contains(affected.deep_view());
            assert forall|x: Seq<char>| #[trigger] unique.deep_view().contains(x) implies self.state.chunk_versions.deep_view().dom().contains(x) by {}
            let p = |x: Seq<char>| commit.chunk_versions.deep_view().dom().contains(x);
            assert forall|x: Seq<char>| #[trigger] unique.deep_view().contains(x) <==> p(x) by {}
            lemma_bumped_by_members(&a, &self.state, unique.deep_view(), p);
            assert forall|f: int| 0 <= f < 14 && !set![f_risks(), f_has_risk(), f_cites(), f_cited_by(), f_laws(), f_same_law(), f_review_attempts(), f_reviewed_by()].contains(f) implies #[trigger] keeps(&a, &self.state, f) by {
                assert(keeps(&a, &s1, f));
            }
            assert(keeps(&s1, &self.state, f_risks()));
            assert(keeps(&s1, &self.state, f_has_risk()));
            assert(keeps(&s1, &self.state, f_cites()));
            assert(keeps(&s1, &self.state, f_cited_by()));
            assert(keeps(&s1, &self.state, f_laws()));
            assert(keeps(&s1, &self.state, f_same_law()));
            assert forall|j2: int| 0 <= j2 < nv.len() implies #[trigger] node_indexed(&self.state, nv[j2]) by {
                assert(node_indexed(&s1, nv[j2]));
            }
            assert forall|j2: int| 0 <= j2 < nv.len() implies self.state.risks.deep_view()[#[trigger] nv[j2].finding.risk_id] == nv[j2] by {
                assert(s1.risks.deep_view()[nv[j2].finding.risk_id] == nv[j2]);
            }
            assert(grows(&a, &s1));
            assert(grows(&a, &self.state));
            assert forall|j2: int, x: Seq<char>| 0 <= j2 < nv.len() && !a.risks.deep_view().dom().contains(nv[j2].finding.risk_id)
                && #[trigger] nv[j2].finding.clause_ids.contains(x) implies commit.chunk_versions.deep_view().dom().contains(x) by {
                assert(node_aff.deep_view().contains(x));
            }
            assert(commit.chunk_versions.deep_view().dom().contains(chunk@));
            assert(same_risk_index(&s1, &self.state));
            assert forall|k: Seq<char>, x: Seq<char>| #[trigger] list_has(self.state.has_risk.deep_view(), k, x) && !list_has(a.has_risk.deep_view(), k, x)
                implies commit.chunk_versions.deep_view().dom().contains(k) by {
                assert(list_has(s1.has_risk.deep_view(), k, x));
                assert(node_aff.deep_view().contains(k));
                assert(affected.deep_view().contains(k));
                assert(unique.deep_view().contains(k));
            }
            assert forall|k: Seq<char>, x: Seq<char>| #[trigger] list_has(self.state.same_law.deep_view(), k, x) && !list_has(a.same_law.deep_view(), k, x)
                implies commit.chunk_versions.deep_view().dom().contains(k) by {
                assert(list_has(s1.same_law.deep_view(), k, x));
                assert(node_aff.deep_view().contains(k));
                assert(affected.deep_view().contains(k));
                assert(unique.deep_view().contains(k));
            }
            lemma_batch_edges_same(&a, &s1, &self.state, nv);
            assert forall|x: Seq<char>| #[trigger] commit.chunk_versions.deep_view().dom().contains(x) implies x == chunk@
                || batch_touched(&self.state, nv, x) by {
                assert(unique.deep_view().contains(x));
                assert(affected.deep_view().contains(x));
                if x != chunk@ {
                    lemma_dedup_contains(changed_ids.deep_view());
                    lemma_dedup_contains(law_out.deep_view());
                    if af1.contains(x) {
                        assert(node_aff.deep_view().contains(x));
                    }
                    lemma_reported_is_touched(&s1, nv, node_aff.deep_view(), ids_u.deep_view(), laws_u.deep_view(), x);
                    lemma_touched_same(&s1, &self.state, nv, x);
                }
            }
        }
        Ok(commit)
    }
}

/// A final finding as the audit stores it: clause ids and legal basis
/// without repeats.
pub open spec fn normalized(f: crate::graph_types::FindingView) -> crate::graph_types::FindingView {
    crate::graph_types::FindingView { clause_ids: dedup_seq(f.clause_ids), legal_basis: dedup_seq(f.legal_basis), ..f }
}

/// Every final finding is a real, non-hypothesis finding with a non-blank
/// id and at least one clause, and no id repeats.
pub open spec fn finals_ok(fs: Seq<RiskFinding>) -> bool {
    &&& forall|i: int| 0 <= i < fs.len() ==> !(#[trigger] fs[i]).no_risk && !all_white(fs[i].risk_id@)
        && fs[i].finding_role != FindingRole::Hypothesis && fs[i].clause_ids@.len() > 0
    &&& forall|i: int, j: int| 0 <= i < j < fs.len() ==> fs[i].risk_id@ != fs[j].risk_id@
}

/// A sequence is empty exactly when its repeat-free form is.
pub proof fn lemma_dedup_empty<V>(s: Seq<V>)
    ensures
        (dedup_seq(s).len() == 0) == (s.len() == 0),
{
    lemma_dedup_contains(s);
    if s.len() > 0 {
        assert(s.contains(s[0]));
        assert(dedup_seq(s).contains(s[0]));
    }
}

/// Checks and normalizes the final findings of an audit.
pub fn normalize_final_findings(fs: &Vec<RiskFinding>) -> (r: Result<Vec<RiskFinding>, String>)
    ensures
        r is Ok <==> finals_ok(fs@),
        r matches Ok(v) ==> v.deep_view() == Seq::new(fs@.len(), |i: int| normalized(fs@[i].deep_view())),
{
    let mut out: Vec<RiskFinding> = Vec::new();
    let mut i: usize = 0;
    while i < fs.len()
        invariant
            i <= fs@.len(),
            out.deep_view() == Seq::new(i as nat, |k: int| normalized(fs@[k].deep_view())),
            forall|k: int| 0 <= k < i ==> !(#[trigger] fs@[k]).no_risk && !all_white(fs@[k].risk_id@)
                && fs@[k].finding_role != FindingRole::Hypothesis && fs@[k].clause_ids@.len() > 0,
            forall|a: int, b: int| 0 <= a < b < i ==> fs@[a].risk_id@ != fs@[b].risk_id@,
        decreases fs@.len() - i,
    {
        let f = &fs[i];
        if f.no_risk {
            return Err(to_owned_string("最终 finding 不得为 no_risk"));
        }
        if is_blank(f.risk_id.as_str()) {
            return Err(to_owned_string("最终 finding 的 risk_id 不得为空"));
        }
        if matches!(f.finding_role, FindingRole::Hypothesis) {
            let mut msg = to_owned_string("最终 finding ");
            push_str(&mut msg, f.risk_id.as_str());
            push_str(&mut msg, " 不得为 Hypothesis");
            return Err(msg);
        }
        let clause_ids = deduplicate_strings(&f.clause_ids);
        proof {
            lemma_dedup_empty(f.clause_ids.deep_view());
        }
        if clause_ids.len() == 0 {
            let mut msg = to_owned_string("最终 finding ");
            push_str(&mut msg, f.risk_id.as_str());
            push_str(&mut msg, " 的 clause_ids 不得为空");
            return Err(msg);
        }
        let mut j: usize = 0;
        while j < i
            invariant
                j <= i < fs@.len(),
                forall|a: int| 0 <= a < j ==> fs@[a].risk_id@ != fs@[i as int].risk_id@,
            decreases i - j,
        {
            if str_eq(fs[j].risk_id.as_str(), fs[i].risk_id.as_str()) {
                let mut msg = to_owned_string("最终 findings 包含重复 risk_id: ");
                push_str(&mut msg, fs[i].risk_id.as_str());
                return Err(msg);
            }
            j += 1;
        }
        let legal_basis = deduplicate_strings(&f.legal_basis);
        let finding = RiskFinding {
            risk_id: f.risk_id.clone(),
            clause_ids,
            agent: f.agent.clone(),
            no_risk: f.no_risk,
            severity: f.severity,
            is_critical: f.is_critical,
            risk_type: f.risk_type.clone(),
            source_quote: f.source_quote.clone(),
            legal_basis,
            reason: f.reason.clone(),
            suggestion: f.suggestion.clone(),
            finding_role: f.finding_role,
        };
        let ghost o0 = out.deep_view();
        let ghost fv = finding.deep_view();
        proof {
            assert(fv == normalized(f.deep_view()));
        }
        out.push(finding);
        proof {
            assert(out.deep_view() =~= o0.push(fv));
            assert(out.deep_view() =~= Seq::new((i + 1) as nat, |k: int| normalized(fs@[k].deep_view())));
        }
        i += 1;
    }
    Ok(out)
}

/// `k` is the id of one of the final findings `nf`.
pub open spec fn final_id(nf: Seq<crate::graph_types::FindingView>, k: Seq<char>) -> bool {
    exists|i: int| 0 <= i < nf.len() && #[trigger] nf[i].risk_id == k
}

/// Confirmed, merged and rejected ids are pairwise disjoint.
pub open spec fn sets_ok(nf: Seq<crate::graph_types::FindingView>, mg: Map<Seq<char>, Seq<char>>, rj: Map<Seq<char>, Seq<char>>) -> bool {
    forall|k: Seq<char>| #![trigger final_id(nf, k)] #![trigger mg.dom().contains(k)] #![trigger rj.dom().contains(k)]
        !(final_id(nf, k) && mg.dom().contains(k)) && !(final_id(nf, k) && rj.dom().contains(k)) && !(mg.dom().contains(k) && rj.dom().contains(k))
}

/// Every rejection carries a non-blank reason.
pub open spec fn reasons_ok(rj: Map<Seq<char>, Seq<char>>) -> bool {
    forall|k: Seq<char>| #[trigger] rj.dom().contains(k) ==> !all_white(rj[k])
}

/// Position of the final finding with id `id`, if any.
pub fn find_final(finals: &Vec<RiskFinding>, id: &str) -> (r: Option<usize>)
    ensures
        match r {
            Some(i) => i < finals@.len() && finals@[i as int].risk_id@ == id@,
            None => !final_id(finals.deep_view(), id@),
        },
{
    let mut i: usize = 0;
    while i < finals.len()
        invariant
            i <= finals@.len(),
            forall|j: int| 0 <= j < i ==> finals@[j].risk_id@ != id@,
        decreases finals@.len() - i,
    {
        if str_eq(finals[i].risk_id.as_str(), id) {
            return Some(i);
        }
        i += 1;
    }
    proof {
        if final_id(finals.deep_view(), id@) {
            let j = choose|j: int| 0 <= j < finals.deep_view().len() && #[trigger] finals.deep_view()[j].risk_id == id@;
            assert(finals.deep_view()[j] == finals@[j].deep_view());
        }
    }
    None
}

/// Whether confirmed, merged and rejected ids are pairwise disjoint.
pub fn check_sets(finals: &Vec<RiskFinding>, merged: &StrMap<String>, rejected: &StrMap<String>) -> (r: bool)
    requires
        merged.wf(),
        rejected.wf(),
    ensures
        r == sets_ok(finals.deep_view(), merged.deep_view(), rejected.deep_view()),
{
    let ghost nf = finals.deep_view();
    let ghost mg = merged.deep_view();
    let ghost rj = rejected.deep_view();
    let mut i: usize = 0;
    while i < finals.len()
        invariant
            i <= finals@.len(),
            nf == finals.deep_view(),
            mg == merged.deep_view(),
            rj == rejected.deep_view(),
            merged.wf(),
            rejected.wf(),
            forall|j: int| 0 <= j < i ==> !mg.dom().contains(#[trigger] nf[j].risk_id) && !rj.dom().contains(nf[j].risk_id),
        decreases finals@.len() - i,
    {
        proof {
            assert(nf[i as int] == finals@[i as int].deep_view());
        }
        if merged.contains_key(finals[i].risk_id.as_str()) || rejected.contains_key(finals[i].risk_id.as_str()) {
            proof {
                assert(final_id(nf, nf[i as int].risk_id));
            }
            return false;
        }
        i += 1;
    }
    proof {
        merged.lemma_view_facts();
    }
    let n = merged.len();
    let mut k: usize = 0;
    while k < n
        invariant
            k <= n,
            n == merged.key_seq().len(),
            merged.wf(),
            rejected.wf(),
            mg == merged.deep_view(),
            rj == rejected.deep_view(),
            forall|j: int| 0 <= j < k ==> !rj.dom().contains(#[trigger] merged.key_seq()[j]),
        decreases n - k,
    {
        let (key, _v) = merged.entry_at(k);
        if rejected.contains_key(key.as_str()) {
            proof {
                merged.lemma_view_facts();
                assert(merged.key_seq().contains(key@));
                assert(mg.dom().contains(key@));
            }
            return false;
        }
        k += 1;
    }
    proof {
        merged.lemma_view_facts();
        assert forall|x: Seq<char>| #![trigger final_id(nf, x)] #![trigger mg.dom().contains(x)] #![trigger rj.dom().contains(x)]
            !(final_id(nf, x) && mg.dom().contains(x)) && !(final_id(nf, x) && rj.dom().contains(x)) && !(mg.dom().contains(x) && rj.dom().contains(x)) by {
            if final_id(nf, x) {
                let j = choose|j: int| 0 <= j < nf.len() && #[trigger] nf[j].risk_id == x;
                assert(!mg.dom().contains(nf[j].risk_id));
            }
            if mg.dom().contains(x) {
                assert(merged.key_seq().contains(x));
                let j = choose|j: int| 0 <= j < merged.key_seq().len() && merged.key_seq()[j] == x;
                assert(!rj.dom().contains(merged.key_seq()[j]));
            }
        }
    }
    true
}

/// Whether every rejection carries a non-blank reason.
pub fn check_reasons(rejected: &StrMap<String>) -> (r: Result<(), String>)
    requires
        rejected.wf(),
    ensures
        r is Ok <==> reasons_ok(rejected.deep_view()),
{
    proof {
        rejected.lemma_view_facts();
    }
    let n = rejected.len();
    let mut k: usize = 0;
    while k < n
        invariant
            k <= n,
            n == rejected.key_seq().len(),
            rejected.wf(),
            forall|j: int| 0 <= j < k ==> !all_white(rejected.deep_view()[#[trigger] rejected.key_seq()[j]]),
        decreases n - k,
    {
        proof {
            rejected.lemma_view_facts();
        }
        let (key, reason) = rejected.entry_at(k);
        proof {
            assert(rejected.key_seq().contains(key@));
            assert(rejected@[key@] == rejected.value_at(k as int));
            assert(rejected.deep_view()[key@] == reason@);
            assert(rejected.deep_view().dom().contains(key@));
        }
        if is_blank(reason.as_str()) {
            let mut msg = to_owned_string("rejected finding ");
            push_str(&mut msg, key.as_str());
            push_str(&mut msg, " 的裁决原因不得为空");
            return Err(msg);
        }
        k += 1;
    }
    proof {
        rejected.lemma_view_facts();
        assert forall|x: Seq<char>| #[trigger] rejected.deep_view().dom().contains(x) implies !all_white(rejected.deep_view()[x]) by {
            assert(rejected.key_seq().contains(x));
            let j = choose|j: int| 0 <= j < rejected.key_seq().len() && rejected.key_seq()[j] == x;
            assert(!all_white(rejected.deep_view()[rejected.key_seq()[j]]));
        }
    }
    Ok(())
}

/// The reason recorded for a finding merged into `target`.
pub open spec fn merge_reason(target: Seq<char>) -> Seq<char> {
    seq!['合', '并', '至', ' '] + target
}

/// Every finding the audit names exists, and its clauses exist and are not
/// blank; every merge target is a final finding.
pub open spec fn refs_ok(g: &GraphSnapshot, nf: Seq<crate::graph_types::FindingView>, mg: Map<Seq<char>, Seq<char>>, rj: Map<Seq<char>, Seq<char>>) -> bool {
    let rv = g.risks.deep_view();
    &&& forall|i: int| 0 <= i < nf.len() ==> rv.dom().contains(#[trigger] nf[i].risk_id) && clause_refs_ok(g, nf[i].clause_ids)
    &&& forall|s: Seq<char>| #[trigger] mg.dom().contains(s) ==> rv.dom().contains(s) && rv.dom().contains(mg[s]) && final_id(nf, mg[s])
        && clause_refs_ok(g, rv[s].finding.clause_ids)
    &&& forall|s: Seq<char>| #[trigger] rj.dom().contains(s) ==> rv.dom().contains(s) && clause_refs_ok(g, rv[s].finding.clause_ids)
}

/// Every finding the audit names is provisional or already holds exactly
/// the decision asked for.
pub open spec fn terminal_ok(g: &GraphSnapshot, nf: Seq<crate::graph_types::FindingView>, mg: Map<Seq<char>, Seq<char>>, rj: Map<Seq<char>, Seq<char>>) -> bool {
    let rv = g.risks.deep_view();
    &&& forall|i: int| 0 <= i < nf.len() ==> {
        let n = rv[#[trigger] nf[i].risk_id];
        n.state == FindingState::Provisional || (n.state == FindingState::Confirmed && n.finding == nf[i]
            && n.law_refs == nf[i].legal_basis && n.merged_into is None && n.decision_reason is None)
    }
    &&& forall|s: Seq<char>| #[trigger] mg.dom().contains(s) ==> {
        let n = rv[s];
        n.state == FindingState::Provisional || (n.state == FindingState::Merged && n.merged_into == Some(mg[s])
            && n.decision_reason == Some(merge_reason(mg[s])))
    }
    &&& forall|s: Seq<char>| #[trigger] rj.dom().contains(s) ==> {
        let n = rv[s];
        n.state == FindingState::Provisional || (n.state == FindingState::Rejected && n.decision_reason == Some(rj[s])
            && n.merged_into is None)
    }
}

/// Checks that every finding the audit names exists with valid clauses.
pub fn check_refs(g: &GraphSnapshot, finals: &Vec<RiskFinding>, merged: &StrMap<String>, rejected: &StrMap<String>) -> (r: Result<(), String>)
    requires
        g.wf(),
        merged.wf(),
        rejected.wf(),
    ensures
        r is Ok <==> refs_ok(g, finals.deep_view(), merged.deep_view(), rejected.deep_view()),
{
    let ghost nf = finals.deep_view();
    let ghost mg = merged.deep_view();
    let ghost rj = rejected.deep_view();
    let ghost rv = g.risks.deep_view();
    let mut i: usize = 0;
    while i < finals.len()
        invariant
            g.wf(),
            i <= finals@.len(),
            nf == finals.deep_view(),
            rv == g.risks.deep_view(),
            forall|j: int| 0 <= j < i ==> rv.dom().contains(#[trigger] nf[j].risk_id) && clause_refs_ok(g, nf[j].clause_ids),
        decreases finals@.len() - i,
    {
        proof {
            assert(nf[i as int] == finals@[i as int].deep_view());
        }
        proof {
            assert(0 <= i < nf.len());
            assert(nf[i as int].risk_id == finals@[i as int].risk_id@);
            assert(nf[i as int].clause_ids == finals@[i as int].clause_ids.deep_view());
            assert(rv.dom().contains(nf[i as int].risk_id) == g.risks@.dom().contains(nf[i as int].risk_id));
        }
        if !g.risks.contains_key(finals[i].risk_id.as_str()) {
            let mut msg = to_owned_string("最终 finding 在工作图中不存在: ");
            push_str(&mut msg, finals[i].risk_id.as_str());
            return Err(msg);
        }
        match validate_finding_clause_refs(g, "最终 finding", &finals[i]) {
            Ok(()) => {},
            Err(e) => {
                return Err(e);
            },
        }
        proof {
            assert(rv.dom().contains(nf[i as int].risk_id));
            assert(clause_refs_ok(g, nf[i as int].clause_ids));
            assert forall|j: int| 0 <= j < i + 1 implies rv.dom().contains(#[trigger] nf[j].risk_id) && clause_refs_ok(g, nf[j].clause_ids) by {
                if j < i {
                    assert(rv.dom().contains(nf[j].risk_id));
                }
            }
        }
        i += 1;
    }
    proof {
        merged.lemma_view_facts();
    }
    let n = merged.len();
    let mut k: usize = 0;
    while k < n
        invariant
            g.wf(),
            merged.wf(),
            k <= n,
            n == merged.key_seq().len(),
            nf == finals.deep_view(),
            mg == merged.deep_view(),
            rv == g.risks.deep_view(),
            forall|j: int| 0 <= j < k ==> {
                let s = #[trigger] merged.key_seq()[j];
                rv.dom().contains(s) && rv.dom().contains(mg[s]) && final_id(nf, mg[s]) && clause_refs_ok(g, rv[s].finding.clause_ids)
            },
        decreases n - k,
    {
        proof {
            merged.lemma_view_facts();
        }
        let (source, target) = merged.entry_at(k);
        proof {
            assert(merged.key_seq().contains(source@));
            assert(merged@[source@] == merged.value_at(k as int));
            assert(mg[source@] == target@);
            assert(mg.dom().contains(source@));
        }
        let node = match g.risks.get(source.as_str()) {
            Some(node) => node,
            None => {
                let mut msg = to_owned_string("merged 源 finding 不存在: ");
                push_str(&mut msg, source.as_str());
                return Err(msg);
            },
        };
        proof {
            assert(rv[source@] == node.deep_view());
        }
        if !g.risks.contains_key(target.as_str()) {
            let mut msg = to_owned_string("merged 目标 finding 不存在: ");
            push_str(&mut msg, target.as_str());
            return Err(msg);
        }
        match find_final(finals, target.as_str()) {
            Some(fi) => {
                proof {
                    assert(nf[fi as int] == finals@[fi as int].deep_view());
                    assert(nf[fi as int].risk_id == target@);
                    assert(final_id(nf, mg[source@]));
                }
            },
            None => {
                let mut msg = to_owned_string("merged 目标必须属于最终 findings: ");
                push_str(&mut msg, target.as_str());
                return Err(msg);
            },
        }
        match validate_finding_clause_refs(g, "merged 源 finding", &node.finding) {
            Ok(()) => {},
            Err(e) => {
                return Err(e);
            },
        }
        k += 1;
    }
    proof {
        rejected.lemma_view_facts();
    }
    let n2 = rejected.len();
    let mut q: usize = 0;
    while q < n2
        invariant
            g.wf(),
            rejected.wf(),
            q <= n2,
            n2 == rejected.key_seq().len(),
            rj == rejected.deep_view(),
            rv == g.risks.deep_view(),
            forall|j: int| 0 <= j < q ==> {
                let s = #[trigger] rejected.key_seq()[j];
                rv.dom().contains(s) && clause_refs_ok(g, rv[s].finding.clause_ids)
            },
        decreases n2 - q,
    {
        proof {
            rejected.lemma_view_facts();
        }
        let (source, _reason) = rejected.entry_at(q);
        proof {
            assert(rejected.key_seq().contains(source@));
            assert(rj.dom().contains(source@));
        }
        let node = match g.risks.get(source.as_str()) {
            Some(node) => node,
            None => {
                let mut msg = to_owned_string("rejected 源 finding 不存在: ");
                push_str(&mut msg, source.as_str());
                return Err(msg);
            },
        };
        proof {
            assert(rv[source@] == node.deep_view());
        }
        match validate_finding_clause_refs(g, "rejected 源 finding", &node.finding) {
            Ok(()) => {},
            Err(e) => {
                return Err(e);
            },
        }
        q += 1;
    }
    proof {
        merged.lemma_view_facts();
        rejected.lemma_view_facts();
        assert forall|s: Seq<char>| #[trigger] mg.dom().contains(s) implies rv.dom().contains(s) && rv.dom().contains(mg[s]) && final_id(nf, mg[s])
            && clause_refs_ok(g, rv[s].finding.clause_ids) by {
            assert(merged.key_seq().contains(s));
            let j = choose|j: int| 0 <= j < merged.key_seq().len() && merged.key_seq()[j] == s;
            assert(rv.dom().contains(merged.key_seq()[j]));
        }
        assert forall|s: Seq<char>| #[trigger] rj.dom().contains(s) implies rv.dom().contains(s) && clause_refs_ok(g, rv[s].finding.clause_ids) by {
            assert(rejected.key_seq().contains(s));
            let j = choose|j: int| 0 <= j < rejected.key_seq().len() && rejected.key_seq()[j] == s;
            assert(rv.dom().contains(rejected.key_seq()[j]));
        }
    }
    Ok(())
}

/// Some stored risk already holds a final decision (a confirmation, a
/// merge with a target, or a rejection with a reason).
pub open spec fn has_existing_terminal(g: &GraphSnapshot) -> bool {
    exists|k: Seq<char>| #[trigger] g.risks.deep_view().dom().contains(k) && existing_decision(g, k)
}

/// Stored risk `k` holds a final decision.
pub open spec fn existing_decision(g: &GraphSnapshot, k: Seq<char>) -> bool {
    let n = g.risks.deep_view()[k];
    n.state == FindingState::Confirmed || (n.state == FindingState::Merged && n.merged_into is Some) || (
    n.state == FindingState::Rejected && n.decision_reason is Some)
}

/// A retry names exactly the decisions already taken: the confirmed ids
/// are the final findings, the merges and rejections are those asked for.
pub open spec fn retry_ok(g: &GraphSnapshot, nf: Seq<crate::graph_types::FindingView>, mg: Map<Seq<char>, Seq<char>>, rj: Map<Seq<char>, Seq<char>>) -> bool {
    let rv = g.risks.deep_view();
    has_existing_terminal(g) ==> {
        &&& forall|k: Seq<char>| #![trigger rv.dom().contains(k)] #![trigger final_id(nf, k)]
            (rv.dom().contains(k) && rv[k].state == FindingState::Confirmed) <==> final_id(nf, k)
        &&& forall|k: Seq<char>| #![trigger rv.dom().contains(k)] #![trigger mg.dom().contains(k)]
            (rv.dom().contains(k) && rv[k].state == FindingState::Merged && rv[k].merged_into is Some) <==> mg.dom().contains(k)
        &&& forall|k: Seq<char>| #[trigger] mg.dom().contains(k) && rv.dom().contains(k) && rv[k].state == FindingState::Merged
            && rv[k].merged_into is Some ==> rv[k].merged_into->0 == mg[k]
        &&& forall|k: Seq<char>| #![trigger rv.dom().contains(k)] #![trigger rj.dom().contains(k)]
            (rv.dom().contains(k) && rv[k].state == FindingState::Rejected && rv[k].decision_reason is Some) <==> rj.dom().contains(k)
        &&& forall|k: Seq<char>| #[trigger] rj.dom().contains(k) && rv.dom().contains(k) && rv[k].state == FindingState::Rejected
            && rv[k].decision_reason is Some ==> rv[k].decision_reason->0 == rj[k]
    }
}

/// The text "合并至 " followed by `target`.
pub fn merge_reason_text(target: &str) -> (r: String)
    ensures
        r@ == merge_reason(target@),
{
    let mut r = to_owned_string("合并至 ");
    proof {
        reveal_strlit("合并至 ");
        assert(r@ =~= seq!['合', '并', '至', ' ']);
    }
    push_str(&mut r, target);
    r
}

/// Checks that every named finding is provisional or already holds the
/// decision asked for.
pub fn check_terminal(g: &GraphSnapshot, finals: &Vec<RiskFinding>, merged: &StrMap<String>, rejected: &StrMap<String>) -> (r: Result<(), String>)
    requires
        g.wf(),
        merged.wf(),
        rejected.wf(),
        refs_ok(g, finals.deep_view(), merged.deep_view(), rejected.deep_view()),
    ensures
        r is Ok <==> terminal_ok(g, finals.deep_view(), merged.deep_view(), rejected.deep_view()),
{
    let ghost nf = finals.deep_view();
    let ghost mg = merged.deep_view();
    let ghost rj = rejected.deep_view();
    let ghost rv = g.risks.deep_view();
    let mut i: usize = 0;
    while i < finals.len()
        invariant
            g.wf(),
            i <= finals@.len(),
            nf == finals.deep_view(),
            rv == g.risks.deep_view(),
            refs_ok(g, nf, mg, rj),
            forall|j: int| 0 <= j < i ==> {
                let n = rv[#[trigger] nf[j].risk_id];
                n.state == FindingState::Provisional || (n.state == FindingState::Confirmed && n.finding == nf[j]
                    && n.law_refs == nf[j].legal_basis && n.merged_into is None && n.decision_reason is None)
            },
        decreases finals@.len() - i,
    {
        proof {
            assert(nf[i as int] == finals@[i as int].deep_view());
            assert(rv.dom().contains(nf[i as int].risk_id));
        }
        let node = match g.risks.get(finals[i].risk_id.as_str()) {
            Some(n) => n,
            None => {
                return Err(to_owned_string("最终 finding 在工作图中不存在"));
            },
        };
        proof {
            assert(rv[nf[i as int].risk_id] == node.deep_view());
        }
        let ok = match node.state {
            FindingState::Provisional => true,
            FindingState::Confirmed => {
                if finding_eq(&node.finding, &finals[i]) && strings_eq(&node.law_refs, &finals[i].legal_basis)
                    && node.merged_into.is_none() && node.decision_reason.is_none() {
                    true
                } else {
                    let mut msg = to_owned_string("已 confirmed finding ");
                    push_str(&mut msg, finals[i].risk_id.as_str());
                    push_str(&mut msg, " 内容不同");
                    return Err(msg);
                }
            },
            _ => false,
        };
        if !ok {
            let mut msg = to_owned_string("finding ");
            push_str(&mut msg, finals[i].risk_id.as_str());
            push_str(&mut msg, " 已处于冲突终态");
            return Err(msg);
        }
        proof {
            assert forall|j: int| 0 <= j < i + 1 implies {
                let n = rv[#[trigger] nf[j].risk_id];
                n.state == FindingState::Provisional || (n.state == FindingState::Confirmed && n.finding == nf[j]
                    && n.law_refs == nf[j].legal_basis && n.merged_into is None && n.decision_reason is None)
            } by {
                if j < i {
                    assert(rv.dom().contains(nf[j].risk_id));
                }
            }
        }
        i += 1;
    }
    proof {
        merged.lemma_view_facts();
    }
    let n = merged.len();
    let mut k: usize = 0;
    while k < n
        invariant
            g.wf(),
            merged.wf(),
            k <= n,
            n == merged.key_seq().len(),
            mg == merged.deep_view(),
            rv == g.risks.deep_view(),
            refs_ok(g, nf, mg, rj),
            forall|j: int| 0 <= j < k ==> {
                let s = #[trigger] merged.key_seq()[j];
                let nd = rv[s];
                nd.state == FindingState::Provisional || (nd.state == FindingState::Merged && nd.merged_into == Some(mg[s])
                    && nd.decision_reason == Some(merge_reason(mg[s])))
            },
        decreases n - k,
    {
        proof {
            merged.lemma_view_facts();
        }
        let (source, target) = merged.entry_at(k);
        proof {
            assert(merged.key_seq().contains(source@));
            assert(merged@[source@] == merged.value_at(k as int));
            assert(mg[source@] == target@);
            assert(mg.dom().contains(source@));
        }
        let node = match g.risks.get(source.as_str()) {
            Some(n) => n,
            None => {
                return Err(to_owned_string("merged 源 finding 不存在"));
            },
        };
        proof {
            assert(rv[source@] == node.deep_view());
        }
        let reason = merge_reason_text(target.as_str());
        let ok = match node.state {
            FindingState::Provisional => true,
            FindingState::Merged => match (&node.merged_into, &node.decision_reason) {
                (Some(t), Some(d)) => str_eq(t.as_str(), target.as_str()) && str_eq(d.as_str(), reason.as_str()),
                _ => false,
            },
            _ => false,
        };
        if !ok {
            let mut msg = to_owned_string("finding ");
            push_str(&mut msg, source.as_str());
            push_str(&mut msg, " 已处于冲突终态");
            return Err(msg);
        }
        k += 1;
    }
    proof {
        rejected.lemma_view_facts();
    }
    let n2 = rejected.len();
    let mut q: usize = 0;
    while q < n2
        invariant
            g.wf(),
            rejected.wf(),
            q <= n2,
            n2 == rejected.key_seq().len(),
            rj == rejected.deep_view(),
            rv == g.risks.deep_view(),
            refs_ok(g, nf, mg, rj),
            forall|j: int| 0 <= j < q ==> {
                let s = #[trigger] rejected.key_seq()[j];
                let nd = rv[s];
                nd.state == FindingState::Provisional || (nd.state == FindingState::Rejected && nd.decision_reason == Some(rj[s])
                    && nd.merged_into is None)
            },
        decreases n2 - q,
    {
        proof {
            rejected.lemma_view_facts();
        }
        let (source, reason) = rejected.entry_at(q);
        proof {
            assert(rejected.key_seq().contains(source@));
            assert(rejected@[source@] == rejected.value_at(q as int));
            assert(rj[source@] == reason@);
            assert(rj.dom().contains(source@));
        }
        let node = match g.risks.get(source.as_str()) {
            Some(n) => n,
            None => {
                return Err(to_owned_string("rejected 源 finding 不存在"));
            },
        };
        proof {
            assert(rv[source@] == node.deep_view());
        }
        let ok = match node.state {
            FindingState::Provisional => true,
            FindingState::Rejected => match &node.decision_reason {
                Some(d) => str_eq(d.as_str(), reason.as_str()) && node.merged_into.is_none(),
                None => false,
            },
            _ => false,
        };
        if !ok {
            let mut msg = to_owned_string("finding ");
            push_str(&mut msg, source.as_str());
            push_str(&mut msg, " 已处于冲突终态");
            return Err(msg);
        }
        q += 1;
    }
    proof {
        merged.lemma_view_facts();
        rejected.lemma_view_facts();
        assert forall|s: Seq<char>| #[trigger] mg.dom().contains(s) implies {
            let nd = rv[s];
            nd.state == FindingState::Provisional || (nd.state == FindingState::Merged && nd.merged_into == Some(mg[s])
                && nd.decision_reason == Some(merge_reason(mg[s])))
        } by {
            assert(merged.key_seq().contains(s));
            let j = choose|j: int| 0 <= j < merged.key_seq().len() && merged.key_seq()[j] == s;
            assert(merged.key_seq()[j] == s);
        }
        assert forall|s: Seq<char>| #[trigger] rj.dom().contains(s) implies {
            let nd = rv[s];
            nd.state == FindingState::Provisional || (nd.state == FindingState::Rejected && nd.decision_reason == Some(rj[s])
                && nd.merged_into is None)
        } by {
            assert(rejected.key_seq().contains(s));
            let j = choose|j: int| 0 <= j < rejected.key_seq().len() && rejected.key_seq()[j] == s;
            assert(rejected.key_seq()[j] == s);
        }
    }
    Ok(())
}

/// Whether a retry names exactly the decisions already taken.
pub fn check_retry(g: &GraphSnapshot, finals: &Vec<RiskFinding>, merged: &StrMap<String>, rejected: &StrMap<String>) -> (r: bool)
    requires
        g.wf(),
        merged.wf(),
        rejected.wf(),
        refs_ok(g, finals.deep_view(), merged.deep_view(), rejected.deep_view()),
    ensures
        r == retry_ok(g, finals.deep_view(), merged.deep_view(), rejected.deep_view()),
{
    let ghost nf = finals.deep_view();
    let ghost mg = merged.deep_view();
    let ghost rj = rejected.deep_view();
    let ghost rv = g.risks.deep_view();
    let ghost ks = g.risks.key_seq();
    proof {
        g.risks.lemma_view_facts();
    }
    let n = g.risks.len();
    let mut existing = false;
    let mut all_match = true;
    let mut i: usize = 0;
    while i < n
        invariant
            g.wf(),
            merged.wf(),
            rejected.wf(),
            i <= n,
            n == ks.len(),
            ks == g.risks.key_seq(),
            rv == g.risks.deep_view(),
            nf == finals.deep_view(),
            mg == merged.deep_view(),
            rj == rejected.deep_view(),
            existing <==> exists|j: int| 0 <= j < i && #[trigger] existing_decision(g, ks[j]),
            all_match <==> forall|j: int| 0 <= j < i ==> #[trigger] stored_matches(g, nf, mg, rj, ks[j]),
        decreases n - i,
    {
        proof {
            g.risks.lemma_view_facts();
        }
        let (key, node) = g.risks.entry_at(i);
        proof {
            assert(ks.contains(key@));
            assert(g.risks@[key@] == g.risks.value_at(i as int));
            assert(rv[key@] == node.deep_view());
        }
        let confirmed = matches!(node.state, FindingState::Confirmed);
        let is_merged = matches!(node.state, FindingState::Merged) && node.merged_into.is_some();
        let is_rejected = matches!(node.state, FindingState::Rejected) && node.decision_reason.is_some();
        let ghost e0 = existing;
        let ghost a0 = all_match;
        existing = existing || confirmed || is_merged || is_rejected;
        let in_finals = match find_final(finals, key.as_str()) {
            Some(fi) => {
                proof {
                    assert(nf[fi as int] == finals@[fi as int].deep_view());
                    assert(nf[fi as int].risk_id == key@);
                }
                true
            },
            None => false,
        };
        proof {
            assert(in_finals == final_id(nf, key@));
        }
        let m_ok = match merged.get(key.as_str()) {
            Some(t) => {
                proof {
                    assert(mg.dom().contains(key@));
                    assert(mg[key@] == t@);
                }
                match &node.merged_into {
                    Some(x) => is_merged && str_eq(x.as_str(), t.as_str()),
                    None => false,
                }
            },
            None => {
                proof {
                    assert(!mg.dom().contains(key@));
                }
                !is_merged
            },
        };
        let r_ok = match rejected.get(key.as_str()) {
            Some(t) => {
                proof {
                    assert(rj.dom().contains(key@));
                    assert(rj[key@] == t@);
                }
                match &node.decision_reason {
                    Some(x) => is_rejected && str_eq(x.as_str(), t.as_str()),
                    None => false,
                }
            },
            None => {
                proof {
                    assert(!rj.dom().contains(key@));
                }
                !is_rejected
            },
        };
        let this_ok = (confirmed == in_finals) && m_ok && r_ok;
        all_match = all_match && this_ok;
        proof {
            assert(this_ok == stored_matches(g, nf, mg, rj, key@));
            assert(ks[i as int] == key@);
            if existing && !e0 {
                assert(existing_decision(g, ks[i as int]));
            }
            if e0 {
                let j = choose|j: int| 0 <= j < i && #[trigger] existing_decision(g, ks[j]);
                assert(0 <= j < i + 1);
            }
            if !existing {
                assert forall|j: int| 0 <= j < i + 1 implies !#[trigger] existing_decision(g, ks[j]) by {
                    if j < i {
                        assert(!(exists|j2: int| 0 <= j2 < i && #[trigger] existing_decision(g, ks[j2])));
                    }
                }
            }
            if !all_match {
                if !a0 {
                    let j = choose|j: int| 0 <= j < i && !#[trigger] stored_matches(g, nf, mg, rj, ks[j]);
                    assert(0 <= j < i + 1);
                }
            }
        }
        i += 1;
    }
    if !existing {
        proof {
            assert forall|k: Seq<char>| #[trigger] rv.dom().contains(k) implies !existing_decision(g, k) by {
                assert(ks.contains(k));
                let j = choose|j: int| 0 <= j < ks.len() && ks[j] == k;
                assert(!existing_decision(g, ks[j]));
            }
        }
        return true;
    }
    proof {
        g.risks.lemma_view_facts();
        let j = choose|j: int| 0 <= j < n && #[trigger] existing_decision(g, ks[j]);
        assert(ks.contains(ks[j]));
        assert(rv.dom().contains(ks[j]));
        assert(has_existing_terminal(g));
    }
    if !all_match {
        proof {
            let j = choose|j: int| 0 <= j < n && !#[trigger] stored_matches(g, nf, mg, rj, ks[j]);
            assert(ks.contains(ks[j]));
            assert(rv.dom().contains(ks[j]));
            let x = ks[j];
            if (rv[x].state == FindingState::Confirmed) != final_id(nf, x) {
                assert(!retry_ok(g, nf, mg, rj));
            } else if mg.dom().contains(x) {
                assert(!retry_ok(g, nf, mg, rj));
            } else if rv[x].state == FindingState::Merged && rv[x].merged_into is Some {
                assert(!retry_ok(g, nf, mg, rj));
            } else {
                assert(!retry_ok(g, nf, mg, rj));
            }
        }
        return false;
    }
    // every stored decision is named; now every named decision must be stored
    let mut p: usize = 0;
    while p < finals.len()
        invariant
            g.wf(),
            p <= finals@.len(),
            nf == finals.deep_view(),
            rv == g.risks.deep_view(),
            has_existing_terminal(g),
            forall|j: int| 0 <= j < p ==> rv[#[trigger] nf[j].risk_id].state == FindingState::Confirmed,
        decreases finals@.len() - p,
    {
        proof {
            assert(nf[p as int] == finals@[p as int].deep_view());
            assert(final_id(nf, nf[p as int].risk_id));
        }
        match g.risks.get(finals[p].risk_id.as_str()) {
            Some(node) => {
                proof {
                    assert(rv[nf[p as int].risk_id] == node.deep_view());
                }
                if !matches!(node.state, FindingState::Confirmed) {
                    return false;
                }
            },
            None => {
                return false;
            },
        }
        p += 1;
    }
    proof {
        merged.lemma_view_facts();
    }
    let nm = merged.len();
    let mut k: usize = 0;
    while k < nm
        invariant
            g.wf(),
            merged.wf(),
            k <= nm,
            nm == merged.key_seq().len(),
            mg == merged.deep_view(),
            rv == g.risks.deep_view(),
            has_existing_terminal(g),
            forall|j: int| 0 <= j < k ==> {
                let s = #[trigger] merged.key_seq()[j];
                rv.dom().contains(s) && rv[s].state == FindingState::Merged && rv[s].merged_into is Some
            },
        decreases nm - k,
    {
        proof {
            merged.lemma_view_facts();
        }
        let (source, _t) = merged.entry_at(k);
        proof {
            assert(merged.key_seq().contains(source@));
            assert(mg.dom().contains(source@));
        }
        match g.risks.get(source.as_str()) {
            Some(node) => {
                proof {
                    assert(rv[source@] == node.deep_view());
                }
                if !(matches!(node.state, FindingState::Merged) && node.merged_into.is_some()) {
                    return false;
                }
            },
            None => {
                return false;
            },
        }
        k += 1;
    }
    proof {
        rejected.lemma_view_facts();
    }
    let nr = rejected.len();
    let mut q: usize = 0;
    while q < nr
        invariant
            g.wf(),
            rejected.wf(),
            q <= nr,
            nr == rejected.key_seq().len(),
            rj == rejected.deep_view(),
            rv == g.risks.deep_view(),
            has_existing_terminal(g),
            forall|j: int| 0 <= j < q ==> {
                let s = #[trigger] rejected.key_seq()[j];
                rv.dom().contains(s) && rv[s].state == FindingState::Rejected && rv[s].decision_reason is Some
            },
        decreases nr - q,
    {
        proof {
            rejected.lemma_view_facts();
        }
        let (source, _t) = rejected.entry_at(q);
        proof {
            assert(rejected.key_seq().contains(source@));
            assert(rj.dom().contains(source@));
        }
        match g.risks.get(source.as_str()) {
            Some(node) => {
                proof {
                    assert(rv[source@] == node.deep_view());
                }
                if !(matches!(node.state, FindingState::Rejected) && node.decision_reason.is_some()) {
                    return false;
                }
            },
            None => {
                return false;
            },
        }
        q += 1;
    }
    proof {
        merged.lemma_view_facts();
        rejected.lemma_view_facts();
        g.risks.lemma_view_facts();
        assert forall|x: Seq<char>| #[trigger] rv.dom().contains(x) implies stored_matches(g, nf, mg, rj, x) by {
            assert(ks.contains(x));
            let j = choose|j: int| 0 <= j < ks.len() && ks[j] == x;
            assert(stored_matches(g, nf, mg, rj, ks[j]));
        }
        assert forall|x: Seq<char>| #[trigger] mg.dom().contains(x) implies rv.dom().contains(x) && rv[x].state == FindingState::Merged && rv[x].merged_into is Some by {
            assert(merged.key_seq().contains(x));
            let j = choose|j: int| 0 <= j < merged.key_seq().len() && merged.key_seq()[j] == x;
            assert(merged.key_seq()[j] == x);
        }
        assert forall|x: Seq<char>| #[trigger] rj.dom().contains(x) implies rv.dom().contains(x) && rv[x].state == FindingState::Rejected && rv[x].decision_reason is Some by {
            assert(rejected.key_seq().contains(x));
            let j = choose|j: int| 0 <= j < rejected.key_seq().len() && rejected.key_seq()[j] == x;
            assert(rejected.key_seq()[j] == x);
        }
        assert forall|x: Seq<char>| #[trigger] final_id(nf, x) implies rv.dom().contains(x) && rv[x].state == FindingState::Confirmed by {
            let j = choose|j: int| 0 <= j < nf.len() && #[trigger] nf[j].risk_id == x;
            assert(rv.dom().contains(nf[j].risk_id));
        }
    }
    true
}

/// Stored risk `k` is decided as asked: confirmed exactly when final,
/// merged (with the asked target) exactly when asked, rejected (with the
/// asked reason) exactly when asked.
pub open spec fn stored_matches(g: &GraphSnapshot, nf: Seq<crate::graph_types::FindingView>, mg: Map<Seq<char>, Seq<char>>, rj: Map<Seq<char>, Seq<char>>, k: Seq<char>) -> bool {
    let n = g.risks.deep_view()[k];
    let is_merged = n.state == FindingState::Merged && n.merged_into is Some;
    let is_rejected = n.state == FindingState::Rejected && n.decision_reason is Some;
    &&& (n.state == FindingState::Confirmed) == final_id(nf, k)
    &&& if mg.dom().contains(k) {
        is_merged && n.merged_into->0 == mg[k]
    } else {
        !is_merged
    }
    &&& if rj.dom().contains(k) {
        is_rejected && n.decision_reason->0 == rj[k]
    } else {
        !is_rejected
    }
}

/// `m1` and `m2` disagree on the list stored under `c` (one has it and the
/// other not, or both have different lists).
pub open spec fn index_differs(m1: Map<Seq<char>, Seq<Seq<char>>>, m2: Map<Seq<char>, Seq<Seq<char>>>, c: Seq<char>) -> bool {
    m1.dom().contains(c) != m2.dom().contains(c) || (m1.dom().contains(c) && m1[c] != m2[c])
}

/// The keys on which two indexes disagree, without repeats.
pub fn changed_index_keys(before: &StrMap<Vec<String>>, after: &StrMap<Vec<String>>) -> (r: Vec<String>)
    requires
        before.wf(),
        after.wf(),
    ensures
        forall|c: Seq<char>| #[trigger] r.deep_view().contains(c) <==> index_differs(before.deep_view(), after.deep_view(), c),
{
    let ghost bv = before.deep_view();
    let ghost av = after.deep_view();
    let mut out: Vec<String> = Vec::new();
    let mut pass: usize = 0;
    while pass < 2
        invariant
            before.wf(),
            after.wf(),
            bv == before.deep_view(),
            av == after.deep_view(),
            pass <= 2,
            forall|c: Seq<char>| #[trigger] out.deep_view().contains(c) ==> index_differs(bv, av, c),
            pass >= 1 ==> forall|c: Seq<char>| #[trigger] bv.dom().contains(c) && index_differs(bv, av, c) ==> out.deep_view().contains(c),
            pass >= 2 ==> forall|c: Seq<char>| #[trigger] av.dom().contains(c) && index_differs(bv, av, c) ==> out.deep_view().contains(c),
        decreases 2 - pass,
    {
        let src: &StrMap<Vec<String>> = if pass == 0 { before } else { after };
        proof {
            src.lemma_view_facts();
        }
        let n = src.len();
        let mut i: usize = 0;
        while i < n
            invariant
                before.wf(),
                after.wf(),
                src.wf(),
                bv == before.deep_view(),
                av == after.deep_view(),
                pass < 2,
                pass == 0 ==> src == before,
                pass == 1 ==> src == after,
                n == src.key_seq().len(),
                i <= n,
                forall|c: Seq<char>| #[trigger] out.deep_view().contains(c) ==> index_differs(bv, av, c),
                pass >= 1 ==> forall|c: Seq<char>| #[trigger] bv.dom().contains(c) && index_differs(bv, av, c) ==> out.deep_view().contains(c),
                forall|j: int| 0 <= j < i && index_differs(bv, av, src.key_seq()[j]) ==> #[trigger] out.deep_view().contains(src.key_seq()[j]),
            decreases n - i,
        {
            let (key, _l) = src.entry_at(i);
            let ghost kv = key@;
            let differs = match (before.get(key.as_str()), after.get(key.as_str())) {
                (Some(x), Some(y)) => {
                    proof {
                        assert(bv[kv] == x.deep_view());
                        assert(av[kv] == y.deep_view());
                    }
                    !strings_eq(x, y)
                },
                (None, None) => false,
                _ => true,
            };
            let ghost o0 = out.deep_view();
            if differs {
                out.push(key.clone());
                proof {
                    assert(out.deep_view() =~= o0.push(kv));
                    assert(out.deep_view()[o0.len() as int] == kv);
                    assert forall|c: Seq<char>| #[trigger] o0.contains(c) implies out.deep_view().contains(c) by {
                        let q = choose|q: int| 0 <= q < o0.len() && o0[q] == c;
                        assert(out.deep_view()[q] == c);
                    }
                    assert forall|c: Seq<char>| #[trigger] out.deep_view().contains(c) implies index_differs(bv, av, c) by {
                        let q = choose|q: int| 0 <= q < out.deep_view().len() && out.deep_view()[q] == c;
                        if q < o0.len() {
                            assert(o0[q] == c);
                            assert(o0.contains(c));
                        }
                    }
                }
            }
            proof {
                assert(differs == index_differs(bv, av, kv));
                assert forall|j: int| 0 <= j < i + 1 && index_differs(bv, av, src.key_seq()[j]) implies #[trigger] out.deep_view().contains(src.key_seq()[j]) by {
                    if j < i {
                        assert(o0.contains(src.key_seq()[j]));
                    } else {
                        assert(src.key_seq()[j] == kv);
                    }
                }
            }
            i += 1;
        }
        proof {
            src.lemma_view_facts();
            assert forall|c: Seq<char>| #[trigger] src.deep_view().dom().contains(c) && index_differs(bv, av, c) implies out.deep_view().contains(c) by {
                assert(src.key_seq().contains(c));
                let j = choose|j: int| 0 <= j < src.key_seq().len() && src.key_seq()[j] == c;
                assert(index_differs(bv, av, src.key_seq()[j]));
            }
        }
        pass += 1;
    }
    out
}

/// Every transition of `s` comes no later, by risk id, than the next ones.
pub open spec fn sorted_by_risk(s: Seq<<FindingTransition as DeepView>::V>) -> bool {
    forall|i: int, j: int| 0 <= i < j < s.len() ==> lex_le(s[i].0, s[j].0)
}

/// No two transitions of `s` are about the same risk.
pub open spec fn distinct_ids(s: Seq<<FindingTransition as DeepView>::V>) -> bool {
    forall|i: int, j: int| 0 <= i < j < s.len() ==> s[i].0 != s[j].0
}

/// The transitions of `v` ordered by risk id (transitions with the same id
/// keep their order): the same transitions, each as often as in `v`.
pub fn sort_transitions(v: &Vec<FindingTransition>) -> (r: Vec<FindingTransition>)
    ensures
        sorted_by_risk(r.deep_view()),
        r.deep_view().to_multiset() == v.deep_view().to_multiset(),
        forall|x| #[trigger] r.deep_view().contains(x) <==> v.deep_view().contains(x),
{
    broadcast use vstd::seq_lib::to_multiset_insert, vstd::seq_lib::to_multiset_build;

    let ghost vv = v.deep_view();
    let mut out: Vec<FindingTransition> = Vec::new();
    let mut j: usize = 0;
    proof {
        assert(out.deep_view() =~= Seq::<<FindingTransition as DeepView>::V>::empty());
        assert(vv.take(0) =~= Seq::<<FindingTransition as DeepView>::V>::empty());
    }
    while j < v.len()
        invariant
            j <= v@.len(),
            vv == v.deep_view(),
            sorted_by_risk(out.deep_view()),
            out.deep_view().to_multiset() == vv.take(j as int).to_multiset(),
        decreases v@.len() - j,
    {
        let x = &v[j];
        let ghost xv = x.deep_view();
        proof {
            assert(vv[j as int] == xv);
        }
        let ghost ov = out.deep_view();
        let mut q: usize = 0;
        while q < out.len() && crate::text::str_le(out[q].risk_id.as_str(), x.risk_id.as_str())
            invariant
                q <= out@.len(),
                ov == out.deep_view(),
                xv == x.deep_view(),
                forall|b: int| 0 <= b < q ==> lex_le(#[trigger] ov[b].0, xv.0),
            decreases out@.len() - q,
        {
            proof {
                assert(ov[q as int] == out@[q as int].deep_view());
                assert(lex_le(ov[q as int].0, xv.0));
            }
            q += 1;
        }
        proof {
            if q < out@.len() {
                assert(ov[q as int] == out@[q as int].deep_view());
                assert(!lex_le(ov[q as int].0, xv.0));
                crate::text::lemma_lex_total(ov[q as int].0, xv.0);
            }
        }
        out.insert(q, x.dup());
        proof {
            let nv = ov.insert(q as int, xv);
            assert(out.deep_view() =~= nv);
            assert forall|a: int, b: int| 0 <= a < b < nv.len() implies lex_le(nv[a].0, nv[b].0) by {
                if b < q {
                } else if b == q {
                    assert(nv[a] == ov[a]);
                } else if a < q {
                    assert(nv[b] == ov[b - 1]);
                    assert(lex_le(xv.0, ov[q as int].0));
                    assert(lex_le(ov[q as int].0, ov[b - 1].0) || q == b - 1);
                    if q < b - 1 {
                        crate::text::lemma_lex_trans(xv.0, ov[q as int].0, ov[b - 1].0);
                    }
                    crate::text::lemma_lex_trans(ov[a].0, xv.0, ov[b - 1].0);
                } else if a == q {
                    assert(nv[b] == ov[b - 1]);
                    if q < b - 1 {
                        crate::text::lemma_lex_trans(xv.0, ov[q as int].0, ov[b - 1].0);
                    }
                } else {
                    assert(nv[a] == ov[a - 1]);
                    assert(nv[b] == ov[b - 1]);
                }
            }
            assert(vv.take(j + 1) =~= vv.take(j as int).push(xv));
            vstd::seq_lib::to_multiset_insert(ov, q as int, xv);
            vstd::seq_lib::to_multiset_build(vv.take(j as int), xv);
        }
        j += 1;
    }
    proof {
        assert(vv.take(v@.len() as int) =~= vv);
        vv.to_multiset_ensures();
        out.deep_view().to_multiset_ensures();
        assert forall|x| #[trigger] out.deep_view().contains(x) <==> vv.contains(x) by {
            assert(out.deep_view().contains(x) <==> out.deep_view().to_multiset().count(x) > 0);
            assert(vv.contains(x) <==> vv.to_multiset().count(x) > 0);
        }
    }
    out
}

/// The reason recorded for a confirmed finding.
pub open spec fn confirm_reason() -> Seq<char> {
    seq!['最', '终', '审', '计', '确', '认']
}

/// Risk `k` is named by the audit and still provisional, so the audit
/// decides it now.
pub open spec fn decision_changes(g: &GraphSnapshot, nf: Seq<crate::graph_types::FindingView>, mg: Map<Seq<char>, Seq<char>>, rj: Map<Seq<char>, Seq<char>>, k: Seq<char>) -> bool {
    &&& final_id(nf, k) || mg.dom().contains(k) || rj.dom().contains(k)
    &&& g.risks.deep_view().dom().contains(k)
    &&& g.risks.deep_view()[k].state == FindingState::Provisional
}

/// The final finding with id `k`.
pub open spec fn final_at(nf: Seq<crate::graph_types::FindingView>, k: Seq<char>) -> crate::graph_types::FindingView {
    nf[choose|i: int| 0 <= i < nf.len() && #[trigger] nf[i].risk_id == k]
}

/// Risk `k` after the audit.
pub open spec fn decided_node(g: &GraphSnapshot, nf: Seq<crate::graph_types::FindingView>, mg: Map<Seq<char>, Seq<char>>, rj: Map<Seq<char>, Seq<char>>, k: Seq<char>) -> crate::graph_types::RiskNodeView {
    let n = g.risks.deep_view()[k];
    if !decision_changes(g, nf, mg, rj, k) {
        n
    } else if final_id(nf, k) {
        let f = final_at(nf, k);
        crate::graph_types::RiskNodeView {
            finding: f,
            law_refs: f.legal_basis,
            state: FindingState::Confirmed,
            merged_into: None,
            decision_reason: None,
        }
    } else if mg.dom().contains(k) {
        crate::graph_types::RiskNodeView {
            state: FindingState::Merged,
            merged_into: Some(mg[k]),
            decision_reason: Some(merge_reason(mg[k])),
            ..n
        }
    } else {
        crate::graph_types::RiskNodeView { state: FindingState::Rejected, merged_into: None, decision_reason: Some(rj[k]), ..n }
    }
}

/// `x` is the transition the audit records for the risk it decides, at
/// time `t`.
pub open spec fn transition_for(
    g: &GraphSnapshot,
    nf: Seq<crate::graph_types::FindingView>,
    mg: Map<Seq<char>, Seq<char>>,
    rj: Map<Seq<char>, Seq<char>>,
    x: <FindingTransition as DeepView>::V,
    t: Seq<char>,
) -> bool {
    let k = x.0;
    &&& decision_changes(g, nf, mg, rj, k)
    &&& x.1 == FindingState::Provisional
    &&& x.5 == t
    &&& if final_id(nf, k) {
        x.2 == FindingState::Confirmed && x.3 == confirm_reason() && x.4 is None
    } else if mg.dom().contains(k) {
        x.2 == FindingState::Merged && x.3 == merge_reason(mg[k]) && x.4 == Some(mg[k])
    } else {
        x.2 == FindingState::Rejected && x.3 == rj[k] && x.4 is None
    }
}

/// Clause `c` belongs (before or after) to a risk the audit decides now.
pub open spec fn decided_clause(a: &GraphSnapshot, b: &GraphSnapshot, nf: Seq<crate::graph_types::FindingView>, mg: Map<Seq<char>, Seq<char>>, rj: Map<Seq<char>, Seq<char>>, c: Seq<char>) -> bool {
    exists|k: Seq<char>| #[trigger] decision_changes(a, nf, mg, rj, k) && (a.risks.deep_view()[k].finding.clause_ids.contains(c)
        || b.risks.deep_view()[k].finding.clause_ids.contains(c))
}

/// The final findings have pairwise different ids.
pub open spec fn finals_distinct(nf: Seq<crate::graph_types::FindingView>) -> bool {
    forall|i: int, j: int| 0 <= i < nf.len() && 0 <= j < nf.len() && i != j ==> nf[i].risk_id != nf[j].risk_id
}

/// Applies the audit decisions to the risk nodes; returns the clauses of the
/// decided risks (before and after) and the transitions recorded at
/// `decided_at`.
fn apply_decisions(
    state: &mut GraphSnapshot,
    finals: &Vec<RiskFinding>,
    merged: &StrMap<String>,
    rejected: &StrMap<String>,
    decided_at: &String,
) -> (r: (Vec<String>, Vec<FindingTransition>))
    requires
        old(state).wf(),
        merged.wf(),
        rejected.wf(),
        finals_distinct(finals.deep_view()),
        sets_ok(finals.deep_view(), merged.deep_view(), rejected.deep_view()),
        refs_ok(old(state), finals.deep_view(), merged.deep_view(), rejected.deep_view()),
    ensures
        final(state).wf(),
        final(state).risks.deep_view().dom() == old(state).risks.deep_view().dom(),
        forall|k: Seq<char>| #[trigger] final(state).risks.deep_view().dom().contains(k) ==> final(state).risks.deep_view()[k]
            == decided_node(old(state), finals.deep_view(), merged.deep_view(), rejected.deep_view(), k),
        unchanged_except(old(state), final(state), set![f_risks()]),
        final(state).graph_version == old(state).graph_version,
        final(state).chunk_versions.deep_view() == old(state).chunk_versions.deep_view(),
        forall|c: Seq<char>| #[trigger] r.0.deep_view().contains(c) <==> decided_clause(old(state), final(state), finals.deep_view(), merged.deep_view(), rejected.deep_view(), c),
        forall|x| #[trigger] r.1.deep_view().contains(x) <==> transition_for(old(state), finals.deep_view(), merged.deep_view(), rejected.deep_view(), x, decided_at@),
        distinct_ids(r.1.deep_view()),
{
    let ghost a = *state;
    let ghost nf = finals.deep_view();
    let ghost mg = merged.deep_view();
    let ghost rj = rejected.deep_view();
    let ghost t = decided_at@;
    let ghost rv = a.risks.deep_view();
    let mut affected: Vec<String> = Vec::new();
    let mut trans: Vec<FindingTransition> = Vec::new();
    // confirmations
    let mut i: usize = 0;
    while i < finals.len()
        invariant
            state.wf(),
            a == *old(state),
            a.wf(),
            nf == finals.deep_view(),
            mg == merged.deep_view(),
            rj == rejected.deep_view(),
            t == decided_at@,
            rv == a.risks.deep_view(),
            i <= nf.len(),
            finals_distinct(nf),
            sets_ok(nf, mg, rj),
            refs_ok(&a, nf, mg, rj),
            state.risks.deep_view().dom() == rv.dom(),
            forall|k: Seq<char>| #[trigger] state.risks.deep_view().dom().contains(k) ==> state.risks.deep_view()[k] == if in_prefix_ids(nf, i as int, k) {
                decided_node(&a, nf, mg, rj, k)
            } else {
                rv[k]
            },
            unchanged_except(&a, state, set![f_risks()]),
            state.graph_version == a.graph_version,
            state.chunk_versions.deep_view() == a.chunk_versions.deep_view(),
            forall|c: Seq<char>| #[trigger] affected.deep_view().contains(c) <==> exists|k: Seq<char>| #[trigger] decided_upto(&a, nf, mg, rj, k, c) && in_prefix_ids(nf, i as int, k),
            forall|x| #[trigger] trans.deep_view().contains(x) <==> transition_for(&a, nf, mg, rj, x, t) && in_prefix_ids(nf, i as int, x.0),
            distinct_ids(trans.deep_view()),
        decreases nf.len() - i,
    {
        let f = &finals[i];
        let ghost k = nf[i as int].risk_id;
        proof {
            assert(nf[i as int] == f.deep_view());
            assert(rv.dom().contains(k));
            assert(!in_prefix_ids(nf, i as int, k)) by {
                if in_prefix_ids(nf, i as int, k) {
                    let j = choose|j: int| 0 <= j < i && #[trigger] nf[j].risk_id == k;
                }
            }
            assert(final_id(nf, k));
            assert(final_at(nf, k) == nf[i as int]) by {
                let j = choose|j: int| 0 <= j < nf.len() && #[trigger] nf[j].risk_id == k;
            }
            assert forall|x: Seq<char>| #[trigger] in_prefix_ids(nf, i + 1, x) <==> in_prefix_ids(nf, i as int, x) || x == k by {
                if in_prefix_ids(nf, i + 1, x) {
                    let j = choose|j: int| 0 <= j < i + 1 && #[trigger] nf[j].risk_id == x;
                    if j < i {
                        assert(in_prefix_ids(nf, i as int, x));
                    }
                }
                if in_prefix_ids(nf, i as int, x) {
                    let j = choose|j: int| 0 <= j < i && #[trigger] nf[j].risk_id == x;
                    assert(0 <= j < i + 1);
                }
                if x == k {
                    assert(nf[i as int].risk_id == x);
                }
            }
        }
        let ghost s0 = *state;
        let ghost af0 = affected.deep_view();
        let ghost tr0 = trans.deep_view();
        let node = match state.risks.get(f.risk_id.as_str()) {
            Some(n) => n,
            None => {
                proof {
                    assert(false);
                }
                return (affected, trans);
            },
        };
        proof {
            assert(state.risks.deep_view()[k] == node.deep_view());
            assert(node.deep_view() == rv[k]);
        }
        if matches!(node.state, FindingState::Provisional) {
            let old_ids = node.finding.clause_ids.dup();
            let new_node = RiskNode {
                finding: f.dup(),
                law_refs: f.legal_basis.dup(),
                state: FindingState::Confirmed,
                merged_into: None,
                decision_reason: None,
            };
            let ghost nn = new_node.deep_view();
            state.risks.insert(f.risk_id.clone(), new_node);
            extend_strings(&mut affected, &old_ids);
            let ghost af1 = affected.deep_view();
            extend_strings(&mut affected, &f.clause_ids);
            trans.push(FindingTransition {
                risk_id: f.risk_id.clone(),
                from: FindingState::Provisional,
                to: FindingState::Confirmed,
                reason: confirm_reason_text(),
                merged_into: None,
                decided_at: decided_at.clone(),
            });
            proof {
                assert(decision_changes(&a, nf, mg, rj, k));
                assert(nn == decided_node(&a, nf, mg, rj, k));
                assert(state.risks.deep_view() =~= s0.risks.deep_view().insert(k, nn));
                lemma_concat_contains(af0, old_ids.deep_view());
                lemma_concat_contains(af1, f.clause_ids.deep_view());
                let xv = trans.deep_view()[tr0.len() as int];
                assert(trans.deep_view() =~= tr0.push(xv));
                assert forall|a2: int, b2: int| 0 <= a2 < b2 < trans.deep_view().len() implies trans.deep_view()[a2].0 != trans.deep_view()[b2].0 by {
                    assert(trans.deep_view()[a2] == tr0[a2]);
                    if b2 == tr0.len() {
                        assert(tr0.contains(tr0[a2]));
                    } else {
                        assert(trans.deep_view()[b2] == tr0[b2]);
                    }
                }
                assert(transition_for(&a, nf, mg, rj, xv, t));
                assert(xv.0 == k);
                assert forall|x| #[trigger] trans.deep_view().contains(x) <==> transition_for(&a, nf, mg, rj, x, t) && in_prefix_ids(nf, i + 1, x.0) by {
                    if trans.deep_view().contains(x) {
                        let q = choose|q: int| 0 <= q < trans.deep_view().len() && #[trigger] trans.deep_view()[q] == x;
                        if q < tr0.len() {
                            assert(tr0[q] == x);
                            assert(tr0.contains(x));
                        }
                    }
                    if transition_for(&a, nf, mg, rj, x, t) && in_prefix_ids(nf, i + 1, x.0) {
                        if x.0 == k {
                            assert(x == xv);
                            assert(trans.deep_view()[tr0.len() as int] == x);
                        } else {
                            assert(tr0.contains(x));
                            let q = choose|q: int| 0 <= q < tr0.len() && #[trigger] tr0[q] == x;
                            assert(trans.deep_view()[q] == x);
                        }
                    }
                }
                assert forall|c: Seq<char>| #[trigger] affected.deep_view().contains(c) <==> exists|k2: Seq<char>| #[trigger] decided_upto(&a, nf, mg, rj, k2, c) && in_prefix_ids(nf, i + 1, k2) by {
                    if affected.deep_view().contains(c) && !af0.contains(c) {
                        assert(decided_upto(&a, nf, mg, rj, k, c));
                    }
                    if exists|k2: Seq<char>| #[trigger] decided_upto(&a, nf, mg, rj, k2, c) && in_prefix_ids(nf, i + 1, k2) {
                        let k2 = choose|k2: Seq<char>| #[trigger] decided_upto(&a, nf, mg, rj, k2, c) && in_prefix_ids(nf, i + 1, k2);
                        if k2 != k {
                            assert(af0.contains(c));
                        }
                    }
                }
            }
        } else {
            proof {
                assert(!decision_changes(&a, nf, mg, rj, k));
                assert forall|x| #[trigger] trans.deep_view().contains(x) <==> transition_for(&a, nf, mg, rj, x, t) && in_prefix_ids(nf, i + 1, x.0) by {}
                assert forall|c: Seq<char>| #[trigger] affected.deep_view().contains(c) <==> exists|k2: Seq<char>| #[trigger] decided_upto(&a, nf, mg, rj, k2, c) && in_prefix_ids(nf, i + 1, k2) by {
                    if exists|k2: Seq<char>| #[trigger] decided_upto(&a, nf, mg, rj, k2, c) && in_prefix_ids(nf, i + 1, k2) {
                        let k2 = choose|k2: Seq<char>| #[trigger] decided_upto(&a, nf, mg, rj, k2, c) && in_prefix_ids(nf, i + 1, k2);
                        assert(k2 != k);
                    }
                }
            }
        }
        proof {
            assert(keeps(&s0, state, 0));
            assert forall|f2: int| 0 <= f2 < 14 && !set![f_risks()].contains(f2) implies #[trigger] keeps(&a, state, f2) by {
                assert(keeps(&a, &s0, f2));
                assert(keeps(&s0, state, f2));
            }
            assert forall|k2: Seq<char>| #[trigger] state.risks.deep_view().dom().contains(k2) implies state.risks.deep_view()[k2] == if in_prefix_ids(nf, i + 1, k2) {
                decided_node(&a, nf, mg, rj, k2)
            } else {
                rv[k2]
            } by {
                if k2 != k {
                    assert(s0.risks.deep_view().dom().contains(k2));
                }
            }
            assert(state.risks.deep_view().dom() =~= rv.dom());
        }
        i += 1;
    }
    // merges
    proof {
        merged.lemma_view_facts();
        assert forall|k: Seq<char>| #[trigger] in_prefix_ids(nf, nf.len() as int, k) <==> final_id(nf, k) by {}
    }
    let nm = merged.len();
    let mut q: usize = 0;
    while q < nm
        invariant
            state.wf(),
            merged.wf(),
            a == *old(state),
            a.wf(),
            nf == finals.deep_view(),
            mg == merged.deep_view(),
            rj == rejected.deep_view(),
            t == decided_at@,
            rv == a.risks.deep_view(),
            nm == merged.key_seq().len(),
            q <= nm,
            finals_distinct(nf),
            sets_ok(nf, mg, rj),
            refs_ok(&a, nf, mg, rj),
            state.risks.deep_view().dom() == rv.dom(),
            forall|k: Seq<char>| #[trigger] state.risks.deep_view().dom().contains(k) ==> state.risks.deep_view()[k] == if final_id(nf, k)
                || in_prefix(merged.key_seq(), q as int, k) {
                decided_node(&a, nf, mg, rj, k)
            } else {
                rv[k]
            },
            unchanged_except(&a, state, set![f_risks()]),
            state.graph_version == a.graph_version,
            state.chunk_versions.deep_view() == a.chunk_versions.deep_view(),
            forall|c: Seq<char>| #[trigger] affected.deep_view().contains(c) <==> exists|k: Seq<char>| #[trigger] decided_upto(&a, nf, mg, rj, k, c)
                && (final_id(nf, k) || in_prefix(merged.key_seq(), q as int, k)),
            forall|x| #[trigger] trans.deep_view().contains(x) <==> transition_for(&a, nf, mg, rj, x, t) && (final_id(nf, x.0) || in_prefix(merged.key_seq(), q as int, x.0)),
            distinct_ids(trans.deep_view()),
        decreases nm - q,
    {
        proof {
            merged.lemma_view_facts();
        }
        let (source, target) = merged.entry_at(q);
        let ghost k = source@;
        let ghost mks = merged.key_seq();
        proof {
            assert(mks.contains(k));
            assert(merged@[k] == merged.value_at(q as int));
            assert(mg[k] == target@);
            assert(mg.dom().contains(k));
            assert(rv.dom().contains(k));
            assert(!final_id(nf, k));
            assert(!in_prefix(mks, q as int, k)) by {
                if in_prefix(mks, q as int, k) {
                    let j = choose|j: int| 0 <= j < q && #[trigger] mks[j] == k;
                    merged.lemma_key_seq_unique(j, q as int);
                }
            }
            assert forall|x: Seq<char>| #[trigger] in_prefix(mks, q + 1, x) <==> in_prefix(mks, q as int, x) || x == k by {
                if in_prefix(mks, q + 1, x) {
                    let j = choose|j: int| 0 <= j < q + 1 && #[trigger] mks[j] == x;
                    if j < q {
                        assert(in_prefix(mks, q as int, x));
                    }
                }
                if in_prefix(mks, q as int, x) {
                    let j = choose|j: int| 0 <= j < q && #[trigger] mks[j] == x;
                    assert(0 <= j < q + 1);
                }
                if x == k {
                    assert(mks[q as int] == x);
                }
            }
        }
        let ghost s0 = *state;
        let ghost af0 = affected.deep_view();
        let ghost tr0 = trans.deep_view();
        let node = match state.risks.get(source.as_str()) {
            Some(n) => n,
            None => {
                proof {
                    assert(false);
                }
                return (affected, trans);
            },
        };
        proof {
            assert(state.risks.deep_view()[k] == node.deep_view());
            assert(node.deep_view() == rv[k]);
        }
        if matches!(node.state, FindingState::Provisional) {
            let mut new_node = node.dup();
            let reason = merge_reason_text(target.as_str());
            new_node.state = FindingState::Merged;
            new_node.merged_into = Some(target.clone());
            new_node.decision_reason = Some(reason.clone());
            let ghost nn = new_node.deep_view();
            extend_strings(&mut affected, &node.finding.clause_ids);
            state.risks.insert(source.clone(), new_node);
            trans.push(FindingTransition {
                risk_id: source.clone(),
                from: FindingState::Provisional,
                to: FindingState::Merged,
                reason,
                merged_into: Some(target.clone()),
                decided_at: decided_at.clone(),
            });
            proof {
                assert(decision_changes(&a, nf, mg, rj, k));
                assert(nn == decided_node(&a, nf, mg, rj, k));
                assert(state.risks.deep_view() =~= s0.risks.deep_view().insert(k, nn));
                lemma_concat_contains(af0, rv[k].finding.clause_ids);
                let xv = trans.deep_view()[tr0.len() as int];
                assert(trans.deep_view() =~= tr0.push(xv));
                assert forall|a2: int, b2: int| 0 <= a2 < b2 < trans.deep_view().len() implies trans.deep_view()[a2].0 != trans.deep_view()[b2].0 by {
                    assert(trans.deep_view()[a2] == tr0[a2]);
                    if b2 == tr0.len() {
                        assert(tr0.contains(tr0[a2]));
                    } else {
                        assert(trans.deep_view()[b2] == tr0[b2]);
                    }
                }
                assert(transition_for(&a, nf, mg, rj, xv, t));
                assert(xv.0 == k);
                assert forall|x| #[trigger] trans.deep_view().contains(x) <==> transition_for(&a, nf, mg, rj, x, t) && (final_id(nf, x.0) || in_prefix(mks, q + 1, x.0)) by {
                    if trans.deep_view().contains(x) {
                        let q2 = choose|q2: int| 0 <= q2 < trans.deep_view().len() && #[trigger] trans.deep_view()[q2] == x;
                        if q2 < tr0.len() {
                            assert(tr0[q2] == x);
                            assert(tr0.contains(x));
                        }
                    }
                    if transition_for(&a, nf, mg, rj, x, t) && (final_id(nf, x.0) || in_prefix(mks, q + 1, x.0)) {
                        if x.0 == k {
                            assert(x == xv);
                            assert(trans.deep_view()[tr0.len() as int] == x);
                        } else {
                            assert(tr0.contains(x));
                            let q2 = choose|q2: int| 0 <= q2 < tr0.len() && #[trigger] tr0[q2] == x;
                            assert(trans.deep_view()[q2] == x);
                        }
                    }
                }
                assert forall|c: Seq<char>| #[trigger] affected.deep_view().contains(c) <==> exists|k2: Seq<char>| #[trigger] decided_upto(&a, nf, mg, rj, k2, c)
                    && (final_id(nf, k2) || in_prefix(mks, q + 1, k2)) by {
                    if affected.deep_view().contains(c) && !af0.contains(c) {
                        assert(decided_upto(&a, nf, mg, rj, k, c));
                    }
                    if exists|k2: Seq<char>| #[trigger] decided_upto(&a, nf, mg, rj, k2, c) && (final_id(nf, k2) || in_prefix(mks, q + 1, k2)) {
                        let k2 = choose|k2: Seq<char>| #[trigger] decided_upto(&a, nf, mg, rj, k2, c) && (final_id(nf, k2) || in_prefix(mks, q + 1, k2));
                        if k2 != k {
                            assert(af0.contains(c));
                        } else {
                            assert(decided_node(&a, nf, mg, rj, k).finding.clause_ids == rv[k].finding.clause_ids);
                        }
                    }
                }
            }
        } else {
            proof {
                assert(!decision_changes(&a, nf, mg, rj, k));
                assert forall|x| #[trigger] trans.deep_view().contains(x) <==> transition_for(&a, nf, mg, rj, x, t) && (final_id(nf, x.0) || in_prefix(mks, q + 1, x.0)) by {}
                assert forall|c: Seq<char>| #[trigger] affected.deep_view().contains(c) <==> exists|k2: Seq<char>| #[trigger] decided_upto(&a, nf, mg, rj, k2, c)
                    && (final_id(nf, k2) || in_prefix(mks, q + 1, k2)) by {
                    if exists|k2: Seq<char>| #[trigger] decided_upto(&a, nf, mg, rj, k2, c) && (final_id(nf, k2) || in_prefix(mks, q + 1, k2)) {
                        let k2 = choose|k2: Seq<char>| #[trigger] decided_upto(&a, nf, mg, rj, k2, c) && (final_id(nf, k2) || in_prefix(mks, q + 1, k2));
                        assert(k2 != k);
                    }
                }
            }
        }
        proof {
            assert(keeps(&s0, state, 0));
            assert forall|f2: int| 0 <= f2 < 14 && !set![f_risks()].contains(f2) implies #[trigger] keeps(&a, state, f2) by {
                assert(keeps(&a, &s0, f2));
                assert(keeps(&s0, state, f2));
            }
            assert forall|k2: Seq<char>| #[trigger] state.risks.deep_view().dom().contains(k2) implies state.risks.deep_view()[k2] == if final_id(nf, k2)
                || in_prefix(mks, q + 1, k2) {
                decided_node(&a, nf, mg, rj, k2)
            } else {
                rv[k2]
            } by {
                if k2 != k {
                    assert(s0.risks.deep_view().dom().contains(k2));
                }
            }
            assert(state.risks.deep_view().dom() =~= rv.dom());
        }
        q += 1;
    }
    // rejections
    proof {
        merged.lemma_view_facts();
        rejected.lemma_view_facts();
        assert forall|k: Seq<char>| #[trigger] in_prefix(merged.key_seq(), nm as int, k) <==> mg.dom().contains(k) by {
            if mg.dom().contains(k) {
                assert(merged.key_seq().contains(k));
                let j = choose|j: int| 0 <= j < merged.key_seq().len() && merged.key_seq()[j] == k;
                assert(merged.key_seq()[j] == k);
            }
            if in_prefix(merged.key_seq(), nm as int, k) {
                let j = choose|j: int| 0 <= j < nm && #[trigger] merged.key_seq()[j] == k;
                assert(merged.key_seq().contains(k));
            }
        }
    }
    let nr = rejected.len();
    let mut w: usize = 0;
    while w < nr
        invariant
            state.wf(),
            rejected.wf(),
            a == *old(state),
            a.wf(),
            nf == finals.deep_view(),
            mg == merged.deep_view(),
            rj == rejected.deep_view(),
            t == decided_at@,
            rv == a.risks.deep_view(),
            nr == rejected.key_seq().len(),
            w <= nr,
            finals_distinct(nf),
            sets_ok(nf, mg, rj),
            refs_ok(&a, nf, mg, rj),
            state.risks.deep_view().dom() == rv.dom(),
            forall|k: Seq<char>| #[trigger] state.risks.deep_view().dom().contains(k) ==> state.risks.deep_view()[k] == if final_id(nf, k)
                || mg.dom().contains(k) || in_prefix(rejected.key_seq(), w as int, k) {
                decided_node(&a, nf, mg, rj, k)
            } else {
                rv[k]
            },
            unchanged_except(&a, state, set![f_risks()]),
            state.graph_version == a.graph_version,
            state.chunk_versions.deep_view() == a.chunk_versions.deep_view(),
            forall|c: Seq<char>| #[trigger] affected.deep_view().contains(c) <==> exists|k: Seq<char>| #[trigger] decided_upto(&a, nf, mg, rj, k, c)
                && (final_id(nf, k) || mg.dom().contains(k) || in_prefix(rejected.key_seq(), w as int, k)),
            forall|x| #[trigger] trans.deep_view().contains(x) <==> transition_for(&a, nf, mg, rj, x, t) && (final_id(nf, x.0) || mg.dom().contains(x.0)
                || in_prefix(rejected.key_seq(), w as int, x.0)),
            distinct_ids(trans.deep_view()),
        decreases nr - w,
    {
        proof {
            rejected.lemma_view_facts();
        }
        let (source, reason) = rejected.entry_at(w);
        let ghost k = source@;
        let ghost rks = rejected.key_seq();
        proof {
            assert(rks.contains(k));
            assert(rejected@[k] == rejected.value_at(w as int));
            assert(rj[k] == reason@);
            assert(rj.dom().contains(k));
            assert(rv.dom().contains(k));
            assert(!final_id(nf, k));
            assert(!mg.dom().contains(k));
            assert(!in_prefix(rks, w as int, k)) by {
                if in_prefix(rks, w as int, k) {
                    let j = choose|j: int| 0 <= j < w && #[trigger] rks[j] == k;
                    rejected.lemma_key_seq_unique(j, w as int);
                }
            }
            assert forall|x: Seq<char>| #[trigger] in_prefix(rks, w + 1, x) <==> in_prefix(rks, w as int, x) || x == k by {
                if in_prefix(rks, w + 1, x) {
                    let j = choose|j: int| 0 <= j < w + 1 && #[trigger] rks[j] == x;
                    if j < w {
                        assert(in_prefix(rks, w as int, x));
                    }
                }
                if in_prefix(rks, w as int, x) {
                    let j = choose|j: int| 0 <= j < w && #[trigger] rks[j] == x;
                    assert(0 <= j < w + 1);
                }
                if x == k {
                    assert(rks[w as int] == x);
                }
            }
        }
        let ghost s0 = *state;
        let ghost af0 = affected.deep_view();
        let ghost tr0 = trans.deep_view();
        let node = match state.risks.get(source.as_str()) {
            Some(n) => n,
            None => {
                proof {
                    assert(false);
                }
                return (affected, trans);
            },
        };
        proof {
            assert(state.risks.deep_view()[k] == node.deep_view());
            assert(node.deep_view() == rv[k]);
        }
        if matches!(node.state, FindingState::Provisional) {
            let mut new_node = node.dup();
            new_node.state = FindingState::Rejected;
            new_node.merged_into = None;
            new_node.decision_reason = Some(reason.clone());
            let ghost nn = new_node.deep_view();
            extend_strings(&mut affected, &node.finding.clause_ids);
            state.risks.insert(source.clone(), new_node);
            trans.push(FindingTransition {
                risk_id: source.clone(),
                from: FindingState::Provisional,
                to: FindingState::Rejected,
                reason: reason.clone(),
                merged_into: None,
                decided_at: decided_at.clone(),
            });
            proof {
                assert(decision_changes(&a, nf, mg, rj, k));
                assert(nn == decided_node(&a, nf, mg, rj, k));
                assert(state.risks.deep_view() =~= s0.risks.deep_view().insert(k, nn));
                lemma_concat_contains(af0, rv[k].finding.clause_ids);
                let xv = trans.deep_view()[tr0.len() as int];
                assert(trans.deep_view() =~= tr0.push(xv));
                assert forall|a2: int, b2: int| 0 <= a2 < b2 < trans.deep_view().len() implies trans.deep_view()[a2].0 != trans.deep_view()[b2].0 by {
                    assert(trans.deep_view()[a2] == tr0[a2]);
                    if b2 == tr0.len() {
                        assert(tr0.contains(tr0[a2]));
                    } else {
                        assert(trans.deep_view()[b2] == tr0[b2]);
                    }
                }
                assert(transition_for(&a, nf, mg, rj, xv, t));
                assert(xv.0 == k);
                assert forall|x| #[trigger] trans.deep_view().contains(x) <==> transition_for(&a, nf, mg, rj, x, t) && (final_id(nf, x.0) || mg.dom().contains(x.0)
                    || in_prefix(rks, w + 1, x.0)) by {
                    if trans.deep_view().contains(x) {
                        let q2 = choose|q2: int| 0 <= q2 < trans.deep_view().len() && #[trigger] trans.deep_view()[q2] == x;
                        if q2 < tr0.len() {
                            assert(tr0[q2] == x);
                            assert(tr0.contains(x));
                        }
                    }
                    if transition_for(&a, nf, mg, rj, x, t) && (final_id(nf, x.0) || mg.dom().contains(x.0) || in_prefix(rks, w + 1, x.0)) {
                        if x.0 == k {
                            assert(x == xv);
                            assert(trans.deep_view()[tr0.len() as int] == x);
                        } else {
                            assert(tr0.contains(x));
                            let q2 = choose|q2: int| 0 <= q2 < tr0.len() && #[trigger] tr0[q2] == x;
                            assert(trans.deep_view()[q2] == x);
                        }
                    }
                }
                assert forall|c: Seq<char>| #[trigger] affected.deep_view().contains(c) <==> exists|k2: Seq<char>| #[trigger] decided_upto(&a, nf, mg, rj, k2, c)
                    && (final_id(nf, k2) || mg.dom().contains(k2) || in_prefix(rks, w + 1, k2)) by {
                    if affected.deep_view().contains(c) && !af0.contains(c) {
                        assert(decided_upto(&a, nf, mg, rj, k, c));
                    }
                    if exists|k2: Seq<char>| #[trigger] decided_upto(&a, nf, mg, rj, k2, c) && (final_id(nf, k2) || mg.dom().contains(k2) || in_prefix(rks, w + 1, k2)) {
                        let k2 = choose|k2: Seq<char>| #[trigger] decided_upto(&a, nf, mg, rj, k2, c) && (final_id(nf, k2) || mg.dom().contains(k2) || in_prefix(rks, w + 1, k2));
                        if k2 != k {
                            assert(af0.contains(c));
                        } else {
                            assert(decided_node(&a, nf, mg, rj, k).finding.clause_ids == rv[k].finding.clause_ids);
                        }
                    }
                }
            }
        } else {
            proof {
                assert(!decision_changes(&a, nf, mg, rj, k));
                assert forall|x| #[trigger] trans.deep_view().contains(x) <==> transition_for(&a, nf, mg, rj, x, t) && (final_id(nf, x.0) || mg.dom().contains(x.0)
                    || in_prefix(rks, w + 1, x.0)) by {}
                assert forall|c: Seq<char>| #[trigger] affected.deep_view().contains(c) <==> exists|k2: Seq<char>| #[trigger] decided_upto(&a, nf, mg, rj, k2, c)
                    && (final_id(nf, k2) || mg.dom().contains(k2) || in_prefix(rks, w + 1, k2)) by {
                    if exists|k2: Seq<char>| #[trigger] decided_upto(&a, nf, mg, rj, k2, c) && (final_id(nf, k2) || mg.dom().contains(k2) || in_prefix(rks, w + 1, k2)) {
                        let k2 = choose|k2: Seq<char>| #[trigger] decided_upto(&a, nf, mg, rj, k2, c) && (final_id(nf, k2) || mg.dom().contains(k2) || in_prefix(rks, w + 1, k2));
                        assert(k2 != k);
                    }
                }
            }
        }
        proof {
            assert(keeps(&s0, state, 0));
            assert forall|f2: int| 0 <= f2 < 14 && !set![f_risks()].contains(f2) implies #[trigger] keeps(&a, state, f2) by {
                assert(keeps(&a, &s0, f2));
                assert(keeps(&s0, state, f2));
            }
            assert forall|k2: Seq<char>| #[trigger] state.risks.deep_view().dom().contains(k2) implies state.risks.deep_view()[k2] == if final_id(nf, k2)
                || mg.dom().contains(k2) || in_prefix(rks, w + 1, k2) {
                decided_node(&a, nf, mg, rj, k2)
            } else {
                rv[k2]
            } by {
                if k2 != k {
                    assert(s0.risks.deep_view().dom().contains(k2));
                }
            }
            assert(state.risks.deep_view().dom() =~= rv.dom());
        }
        w += 1;
    }
    proof {
        rejected.lemma_view_facts();
        assert forall|k: Seq<char>| #[trigger] in_prefix(rejected.key_seq(), nr as int, k) <==> rj.dom().contains(k) by {
            if rj.dom().contains(k) {
                assert(rejected.key_seq().contains(k));
                let j = choose|j: int| 0 <= j < rejected.key_seq().len() && rejected.key_seq()[j] == k;
                assert(rejected.key_seq()[j] == k);
            }
            if in_prefix(rejected.key_seq(), nr as int, k) {
                let j = choose|j: int| 0 <= j < nr && #[trigger] rejected.key_seq()[j] == k;
                assert(rejected.key_seq().contains(k));
            }
        }
        assert forall|k: Seq<char>| #[trigger] state.risks.deep_view().dom().contains(k) implies state.risks.deep_view()[k]
            == decided_node(&a, nf, mg, rj, k) by {}
        assert forall|c: Seq<char>| #[trigger] affected.deep_view().contains(c) <==> decided_clause(&a, state, nf, mg, rj, c) by {
            if affected.deep_view().contains(c) {
                let k = choose|k: Seq<char>| #[trigger] decided_upto(&a, nf, mg, rj, k, c)
                    && (final_id(nf, k) || mg.dom().contains(k) || in_prefix(rejected.key_seq(), nr as int, k));
                assert(state.risks.deep_view()[k] == decided_node(&a, nf, mg, rj, k));
                assert(decision_changes(&a, nf, mg, rj, k));
            }
            if decided_clause(&a, state, nf, mg, rj, c) {
                let k = choose|k: Seq<char>| #[trigger] decision_changes(&a, nf, mg, rj, k) && (a.risks.deep_view()[k].finding.clause_ids.contains(c)
                    || state.risks.deep_view()[k].finding.clause_ids.contains(c));
                assert(state.risks.deep_view()[k] == decided_node(&a, nf, mg, rj, k));
                assert(decided_upto(&a, nf, mg, rj, k, c));
            }
        }
    }
    (affected, trans)
}

/// The first `n` final findings include one with id `k`.
pub open spec fn in_prefix_ids(nf: Seq<crate::graph_types::FindingView>, n: int, k: Seq<char>) -> bool {
    exists|j: int| 0 <= j < n && #[trigger] nf[j].risk_id == k
}

/// The audit decides `k` now and `c` is a clause of it, before or after.
pub open spec fn decided_upto(a: &GraphSnapshot, nf: Seq<crate::graph_types::FindingView>, mg: Map<Seq<char>, Seq<char>>, rj: Map<Seq<char>, Seq<char>>, k: Seq<char>, c: Seq<char>) -> bool {
    decision_changes(a, nf, mg, rj, k) && (a.risks.deep_view()[k].finding.clause_ids.contains(c)
        || decided_node(a, nf, mg, rj, k).finding.clause_ids.contains(c))
}

/// The text of `confirm_reason`.
pub fn confirm_reason_text() -> (r: String)
    ensures
        r@ == confirm_reason(),
{
    let r = to_owned_string("最终审计确认");
    proof {
        reveal_strlit("最终审计确认");
        assert(r@ =~= confirm_reason());
    }
    r
}

/// The normalized final findings of `fs`.
pub open spec fn normalized_finals(fs: Seq<RiskFinding>) -> Seq<crate::graph_types::FindingView> {
    Seq::new(fs.len(), |i: int| normalized(fs[i].deep_view()))
}

/// The transitions of `b` are those of `a` plus the transitions the audit
/// records at time `t`.
pub open spec fn recorded_at(a: &GraphSnapshot, b: &GraphSnapshot, nf: Seq<crate::graph_types::FindingView>, mg: Map<Seq<char>, Seq<char>>, rj: Map<Seq<char>, Seq<char>>, t: Seq<char>) -> bool {
    forall|x| #[trigger] b.finding_transitions.deep_view().contains(x) <==> a.finding_transitions.deep_view().contains(x)
        || transition_for(a, nf, mg, rj, x, t)
}

/// The log of `b` is that of `a` with the transitions `nt` added: one per
/// risk that the audit decides now (at time `t`), none twice.
pub open spec fn recorded_exactly(
    a: &GraphSnapshot,
    b: &GraphSnapshot,
    nf: Seq<crate::graph_types::FindingView>,
    mg: Map<Seq<char>, Seq<char>>,
    rj: Map<Seq<char>, Seq<char>>,
    t: Seq<char>,
    nt: Seq<<FindingTransition as DeepView>::V>,
) -> bool {
    &&& b.finding_transitions.deep_view().to_multiset() == a.finding_transitions.deep_view().to_multiset().add(nt.to_multiset())
    &&& distinct_ids(nt)
    &&& forall|x| #[trigger] nt.contains(x) <==> transition_for(a, nf, mg, rj, x, t)
}

/// Every check of a final audit passes.
pub open spec fn audit_ok(g: &GraphSnapshot, fs: Seq<RiskFinding>, mg: Map<Seq<char>, Seq<char>>, rj: Map<Seq<char>, Seq<char>>) -> bool {
    let nf = normalized_finals(fs);
    &&& finals_ok(fs)
    &&& sets_ok(nf, mg, rj)
    &&& reasons_ok(rj)
    &&& refs_ok(g, nf, mg, rj)
    &&& terminal_ok(g, nf, mg, rj)
    &&& retry_ok(g, nf, mg, rj)
}

/// The risk-derived indexes of `b` are rebuilt from `b`'s risks (laws
/// relative to `a`).
pub open spec fn indexes_rebuilt(a: &GraphSnapshot, b: &GraphSnapshot) -> bool {
    let rv = b.risks.deep_view();
    &&& crate::risk_index::canonical(b.has_risk.deep_view())
    &&& crate::risk_index::canonical(b.cites.deep_view())
    &&& crate::risk_index::canonical(b.cited_by.deep_view())
    &&& crate::risk_index::canonical(b.same_law.deep_view())
    &&& forall|c: Seq<char>, x: Seq<char>| #[trigger] list_has(b.has_risk.deep_view(), c, x) <==> crate::risk_index::clause_of(rv, x, c)
    &&& forall|x: Seq<char>, law: Seq<char>| #[trigger] list_has(b.cites.deep_view(), x, law) <==> crate::risk_index::cites_law(rv, x, law)
    &&& forall|law: Seq<char>, x: Seq<char>| #[trigger] list_has(b.cited_by.deep_view(), law, x) <==> crate::risk_index::backs_law(rv, law, x)
    &&& forall|c: Seq<char>, d: Seq<char>| #[trigger] list_has(b.same_law.deep_view(), c, d) <==> crate::risk_index::same_law_pair(rv, b.cited_by.deep_view(), c, d)
    &&& forall|k: Seq<char>| #[trigger] b.laws.deep_view().dom().contains(k) <==> (a.laws.deep_view().dom().contains(k)
        && !(a.cited_by.deep_view().dom().contains(k) && a.laws.deep_view()[k] == placeholder_law(k)))
        || b.cited_by.deep_view().dom().contains(k)
    &&& forall|k: Seq<char>| #[trigger] b.laws.deep_view().dom().contains(k) ==> b.laws.deep_view()[k] == if a.laws.deep_view().dom().contains(k)
        && !(a.cited_by.deep_view().dom().contains(k) && a.laws.deep_view()[k] == placeholder_law(k)) {
        a.laws.deep_view()[k]
    } else {
        placeholder_law(k)
    }
}

impl SessionGraph {
    /// Takes the final audit decisions in one step: the final findings are
    /// confirmed (with their normalized content), `merged` maps a source to
    /// the final finding it is merged into, `rejected` maps a source to the
    /// reason; each decided provisional risk gets a transition, the
    /// transitions are kept ordered by risk id, every risk-derived index is
    /// rebuilt and the affected clauses are bumped. A retry of the same
    /// decisions changes nothing. Any failed check refuses the whole audit
    /// and changes nothing.
    pub fn finalize_audit(&mut self, final_findings: &Vec<RiskFinding>, merged: &StrMap<String>, rejected: &StrMap<String>) -> (r: Result<GraphCommit, String>)
        requires
            old(self).wf(),
            merged.wf(),
            rejected.wf(),
        ensures
            final(self).wf(),
            final(self).search_cache() == old(self).search_cache(),
            final(self).issued_risk_ids() == old(self).issued_risk_ids(),
            final(self).scout_done() == old(self).scout_done(),
            r is Err <==> !audit_ok(&old(self).graph(), final_findings@, merged.deep_view(), rejected.deep_view()),
            r is Err ==> same_graph(&old(self).graph(), &final(self).graph()),
            r matches Ok(commit) ==> {
                let a = old(self).graph();
                let b = final(self).graph();
                let nf = normalized_finals(final_findings@);
                let mg = merged.deep_view();
                let rj = rejected.deep_view();
                if !exists|k: Seq<char>| #[trigger] decision_changes(&a, nf, mg, rj, k) {
                    &&& same_graph(&a, &b)
                    &&& commit.graph_version == a.graph_version
                    &&& commit.chunk_versions.deep_view() == Map::<Seq<char>, u64>::empty()
                } else {
                    &&& b.risks.deep_view().dom() == a.risks.deep_view().dom()
                    &&& forall|k: Seq<char>| #[trigger] b.risks.deep_view().dom().contains(k) ==> b.risks.deep_view()[k] == decided_node(&a, nf, mg, rj, k)
                    &&& sorted_by_risk(b.finding_transitions.deep_view())
                    &&& exists|t: Seq<char>| #[trigger] recorded_at(&a, &b, nf, mg, rj, t)
                    &&& exists|t: Seq<char>, nt: Seq<<FindingTransition as DeepView>::V>| #[trigger] recorded_exactly(&a, &b, nf, mg, rj, t, nt)
                    &&& indexes_rebuilt(&a, &b)
                    &&& unchanged_except(&a, &b, set![f_risks(), f_has_risk(), f_cites(), f_cited_by(), f_same_law(), f_laws(), f_transitions()])
                    &&& commit_matches(&a, &b, &commit)
                    &&& forall|c: Seq<char>| #[trigger] commit.chunk_versions.deep_view().dom().contains(c) <==> decided_clause(&a, &b, nf, mg, rj, c)
                        || index_differs(a.has_risk.deep_view(), b.has_risk.deep_view(), c)
                        || index_differs(a.same_law.deep_view(), b.same_law.deep_view(), c)
                        || same_law_changed(&a, &b, c)
                }
            },
    {
        let finals = match normalize_final_findings(final_findings) {
            Ok(v) => v,
            Err(e) => {
                return Err(e);
            },
        };
        let ghost nf = finals.deep_view();
        let ghost mg = merged.deep_view();
        let ghost rj = rejected.deep_view();
        proof {
            assert(nf =~= normalized_finals(final_findings@));
            assert forall|i: int, j: int| 0 <= i < nf.len() && 0 <= j < nf.len() && i != j implies nf[i].risk_id != nf[j].risk_id by {
                if i < j {
                    assert(final_findings@[i].risk_id@ != final_findings@[j].risk_id@);
                } else {
                    assert(final_findings@[j].risk_id@ != final_findings@[i].risk_id@);
                }
            }
        }
        if !check_sets(&finals, merged, rejected) {
            return Err(to_owned_string("confirmed、merged、rejected 三个集合必须互斥"));
        }
        match check_reasons(rejected) {
            Ok(()) => {},
            Err(e) => {
                return Err(e);
            },
        }
        match check_refs(&self.state, &finals, merged, rejected) {
            Ok(()) => {},
            Err(e) => {
                return Err(e);
            },
        }
        match check_terminal(&self.state, &finals, merged, rejected) {
            Ok(()) => {},
            Err(e) => {
                return Err(e);
            },
        }
        if !check_retry(&self.state, &finals, merged, rejected) {
            return Err(to_owned_string("最终裁决重试必须完整包含所有已有终态 finding"));
        }
        let ghost a = self.state;
        let any = any_decision_changes(&self.state, &finals, merged, rejected);
        if !any {
            let empty: StrMap<u64> = StrMap::new();
            proof {
                assert(empty.deep_view() =~= Map::<Seq<char>, u64>::empty());
            }
            return Ok(GraphCommit { graph_version: self.state.graph_version, chunk_versions: empty });
        }
        let before = self.state.dup_graph();
        let decided_at = now_rfc3339();
        let (mut affected, new_trans) = apply_decisions(&mut self.state, &finals, merged, rejected, &decided_at);
        let ghost s1 = self.state;
        let mut all_trans = self.state.finding_transitions.dup();
        let ghost t0 = all_trans.deep_view();
        let mut i: usize = 0;
        while i < new_trans.len()
            invariant
                i <= new_trans@.len(),
                all_trans.deep_view() == t0 + new_trans.deep_view().take(i as int),
            decreases new_trans@.len() - i,
        {
            let ghost o0 = all_trans.deep_view();
            all_trans.push(new_trans[i].dup());
            proof {
                assert(new_trans.deep_view()[i as int] == new_trans@[i as int].deep_view());
                assert(new_trans.deep_view().take(i + 1) =~= new_trans.deep_view().take(i as int).push(new_trans.deep_view()[i as int]));
                assert(all_trans.deep_view() =~= o0.push(new_trans.deep_view()[i as int]));
            }
            i += 1;
        }
        let sorted = sort_transitions(&all_trans);
        self.state.finding_transitions = sorted;
        let ghost s2 = self.state;
        rebuild_risk_indexes_parts(
            &self.state.risks,
            &mut self.state.has_risk,
            &mut self.state.cites,
            &mut self.state.cited_by,
            &mut self.state.same_law,
            &mut self.state.laws,
        );
        let ghost s3 = self.state;
        let hr_diff = changed_index_keys(&before.has_risk, &self.state.has_risk);
        let sl_diff = changed_index_keys(&before.same_law, &self.state.same_law);
        let ag_diff = changed_agent_same_law_chunks(&before, &self.state);
        let ghost af0 = affected.deep_view();
        extend_strings(&mut affected, &hr_diff);
        let ghost af1 = affected.deep_view();
        extend_strings(&mut affected, &sl_diff);
        let ghost af2 = affected.deep_view();
        extend_strings(&mut affected, &ag_diff);
        let unique = sorted_unique(affected);
        let gv = bump_versions(&mut self.state, &unique);
        let commit = build_graph_commit(&self.state, gv, &unique);
        proof {
            assert(new_trans.deep_view().take(new_trans@.len() as int) =~= new_trans.deep_view());
            lemma_concat_contains(t0, new_trans.deep_view());
            lemma_concat_contains(af0, hr_diff.deep_view());
            lemma_concat_contains(af1, sl_diff.deep_view());
            lemma_concat_contains(af2, ag_diff.deep_view());
            assert(keeps(&a, &s1, f_transitions()));
            assert(t0 == a.finding_transitions.deep_view());
            assert forall|x| #[trigger] self.state.finding_transitions.deep_view().contains(x) <==> a.finding_transitions.deep_view().contains(x)
                || transition_for(&a, nf, mg, rj, x, decided_at@) by {}
            assert(recorded_at(&a, &self.state, nf, mg, rj, decided_at@));
            vstd::seq_lib::lemma_multiset_commutative(t0, new_trans.deep_view());
            assert(recorded_exactly(&a, &self.state, nf, mg, rj, decided_at@, new_trans.deep_view()));
            assert forall|f: int| 0 <= f < 14 && !set![f_risks(), f_has_risk(), f_cites(), f_cited_by(), f_same_law(), f_laws(), f_transitions()].contains(f) implies #[trigger] keeps(&a, &self.state, f) by {
                assert(keeps(&a, &s1, f));
                assert(keeps(&s1, &s2, f));
                assert(keeps(&s2, &s3, f));
            }
            assert(s3.risks.deep_view() == s1.risks.deep_view());
            assert(self.state.risks.deep_view() == s1.risks.deep_view());
            assert(before.has_risk.deep_view() == a.has_risk.deep_view());
            assert(before.same_law.deep_view() == a.same_law.deep_view());
            lemma_same_index_same_law(&before, &s3, &a, &self.state);
            assert forall|x: Seq<char>| #[trigger] unique.deep_view().contains(x) implies self.state.chunk_versions.deep_view().dom().contains(x) by {}
            let p = |x: Seq<char>| commit.chunk_versions.deep_view().dom().contains(x);
            assert forall|x: Seq<char>| #[trigger] unique.deep_view().contains(x) <==> p(x) by {}
            lemma_bumped_by_members(&a, &self.state, unique.deep_view(), p);
            assert forall|c: Seq<char>| #[trigger] commit.chunk_versions.deep_view().dom().contains(c) <==> decided_clause(&a, &self.state, nf, mg, rj, c)
                || index_differs(a.has_risk.deep_view(), self.state.has_risk.deep_view(), c)
                || index_differs(a.same_law.deep_view(), self.state.same_law.deep_view(), c)
                || same_law_changed(&a, &self.state, c) by {
                assert(decided_clause(&a, &s1, nf, mg, rj, c) == decided_clause(&a, &self.state, nf, mg, rj, c));
                assert(same_law_changed(&before, &s3, c) == same_law_changed(&a, &self.state, c));
            }
            assert forall|k: Seq<char>| #[trigger] self.state.risks.deep_view().dom().contains(k) implies self.state.risks.deep_view()[k]
                == decided_node(&a, nf, mg, rj, k) by {}
            assert(self.state.risks.deep_view().dom() == a.risks.deep_view().dom());
            assert(sorted_by_risk(self.state.finding_transitions.deep_view()));
            assert(s2.laws.deep_view() == a.laws.deep_view()) by {
                assert(keeps(&a, &s1, f_laws()));
            }
            assert(s2.cited_by.deep_view() == a.cited_by.deep_view()) by {
                assert(keeps(&a, &s1, f_cited_by()));
            }
            assert(indexes_rebuilt(&a, &s3));
            assert(indexes_rebuilt(&a, &self.state));
            assert(commit_matches(&a, &self.state, &commit));
        }
        Ok(commit)
    }
}

/// Whether the audit decides some provisional risk now.
pub fn any_decision_changes(g: &GraphSnapshot, finals: &Vec<RiskFinding>, merged: &StrMap<String>, rejected: &StrMap<String>) -> (r: bool)
    requires
        g.wf(),
        merged.wf(),
        rejected.wf(),
        refs_ok(g, finals.deep_view(), merged.deep_view(), rejected.deep_view()),
    ensures
        r == exists|k: Seq<char>| #[trigger] decision_changes(g, finals.deep_view(), merged.deep_view(), rejected.deep_view(), k),
{
    let ghost nf = finals.deep_view();
    let ghost mg = merged.deep_view();
    let ghost rj = rejected.deep_view();
    let ghost rv = g.risks.deep_view();
    let mut i: usize = 0;
    while i < finals.len()
        invariant
            g.wf(),
            i <= nf.len(),
            nf == finals.deep_view(),
            mg == merged.deep_view(),
            rj == rejected.deep_view(),
            rv == g.risks.deep_view(),
            refs_ok(g, nf, mg, rj),
            forall|j: int| 0 <= j < i ==> rv[#[trigger] nf[j].risk_id].state != FindingState::Provisional,
        decreases nf.len() - i,
    {
        proof {
            assert(nf[i as int] == finals@[i as int].deep_view());
            assert(rv.dom().contains(nf[i as int].risk_id));
        }
        match g.risks.get(finals[i].risk_id.as_str()) {
            Some(node) => {
                proof {
                    assert(rv[nf[i as int].risk_id] == node.deep_view());
                }
                if matches!(node.state, FindingState::Provisional) {
                    proof {
                        assert(final_id(nf, nf[i as int].risk_id));
                        assert(decision_changes(g, nf, mg, rj, nf[i as int].risk_id));
                    }
                    return true;
                }
            },
            None => {},
        }
        i += 1;
    }
    proof {
        merged.lemma_view_facts();
    }
    let nm = merged.len();
    let mut q: usize = 0;
    while q < nm
        invariant
            g.wf(),
            merged.wf(),
            q <= nm,
            nm == merged.key_seq().len(),
            nf == finals.deep_view(),
            mg == merged.deep_view(),
            rj == rejected.deep_view(),
            rv == g.risks.deep_view(),
            refs_ok(g, nf, mg, rj),
            forall|j: int| 0 <= j < nf.len() ==> rv[#[trigger] nf[j].risk_id].state != FindingState::Provisional,
            forall|j: int| 0 <= j < q ==> rv[#[trigger] merged.key_seq()[j]].state != FindingState::Provisional,
        decreases nm - q,
    {
        proof {
            merged.lemma_view_facts();
        }
        let (source, _t) = merged.entry_at(q);
        proof {
            assert(merged.key_seq().contains(source@));
            assert(mg.dom().contains(source@));
        }
        match g.risks.get(source.as_str()) {
            Some(node) => {
                proof {
                    assert(rv[source@] == node.deep_view());
                }
                if matches!(node.state, FindingState::Provisional) {
                    proof {
                        assert(decision_changes(g, nf, mg, rj, source@));
                    }
                    return true;
                }
            },
            None => {},
        }
        q += 1;
    }
    proof {
        rejected.lemma_view_facts();
        merged.lemma_view_facts();
        assert forall|k: Seq<char>| #[trigger] mg.dom().contains(k) implies rv[k].state != FindingState::Provisional by {
            assert(merged.key_seq().contains(k));
            let j = choose|j: int| 0 <= j < merged.key_seq().len() && merged.key_seq()[j] == k;
            assert(rv[merged.key_seq()[j]].state != FindingState::Provisional);
        }
    }
    let nr = rejected.len();
    let mut w: usize = 0;
    while w < nr
        invariant
            g.wf(),
            rejected.wf(),
            w <= nr,
            nr == rejected.key_seq().len(),
            nf == finals.deep_view(),
            mg == merged.deep_view(),
            rj == rejected.deep_view(),
            rv == g.risks.deep_view(),
            refs_ok(g, nf, mg, rj),
            forall|j: int| 0 <= j < nf.len() ==> rv[#[trigger] nf[j].risk_id].state != FindingState::Provisional,
            forall|k: Seq<char>| #[trigger] mg.dom().contains(k) ==> rv[k].state != FindingState::Provisional,
            forall|j: int| 0 <= j < w ==> rv[#[trigger] rejected.key_seq()[j]].state != FindingState::Provisional,
        decreases nr - w,
    {
        proof {
            rejected.lemma_view_facts();
        }
        let (source, _t) = rejected.entry_at(w);
        proof {
            assert(rejected.key_seq().contains(source@));
            assert(rj.dom().contains(source@));
        }
        match g.risks.get(source.as_str()) {
            Some(node) => {
                proof {
                    assert(rv[source@] == node.deep_view());
                }
                if matches!(node.state, FindingState::Provisional) {
                    proof {
                        assert(decision_changes(g, nf, mg, rj, source@));
                    }
                    return true;
                }
            },
            None => {},
        }
        w += 1;
    }
    proof {
        merged.lemma_view_facts();
        rejected.lemma_view_facts();
        assert forall|k: Seq<char>| !#[trigger] decision_changes(g, nf, mg, rj, k) by {
            if decision_changes(g, nf, mg, rj, k) {
                if final_id(nf, k) {
                    let j = choose|j: int| 0 <= j < nf.len() && #[trigger] nf[j].risk_id == k;
                    assert(rv[nf[j].risk_id].state != FindingState::Provisional);
                } else if mg.dom().contains(k) {
                    assert(rv[k].state != FindingState::Provisional);
                } else {
                    assert(rejected.key_seq().contains(k));
                    let j = choose|j: int| 0 <= j < rejected.key_seq().len() && rejected.key_seq()[j] == k;
                    assert(rv[rejected.key_seq()[j]].state != FindingState::Provisional);
                }
            }
        }
    }
    false
}

/// The final findings `fs` name every confirmed risk of `g` exactly once
/// and nothing else.
pub open spec fn sync_ok(g: &GraphSnapshot, fs: Seq<RiskFinding>) -> bool {
    let rv = g.risks.deep_view();
    &&& forall|i: int, j: int| 0 <= i < j < fs.len() ==> fs[i].risk_id@ != fs[j].risk_id@
    &&& forall|i: int| 0 <= i < fs.len() ==> rv.dom().contains(#[trigger] fs[i].risk_id@) && rv[fs[i].risk_id@].state == FindingState::Confirmed
    &&& forall|k: Seq<char>| #[trigger] rv.dom().contains(k) && rv[k].state == FindingState::Confirmed ==> exists|i: int|
        0 <= i < fs.len() && #[trigger] fs[i].risk_id@ == k
}

/// Risk `k` of `g` after the final findings `fs` replaced the confirmed
/// findings.
pub open spec fn synced_node(g: &GraphSnapshot, fs: Seq<RiskFinding>, k: Seq<char>) -> crate::graph_types::RiskNodeView {
    let n = g.risks.deep_view()[k];
    if exists|i: int| 0 <= i < fs.len() && #[trigger] fs[i].risk_id@ == k {
        let f = fs[choose|i: int| 0 <= i < fs.len() && #[trigger] fs[i].risk_id@ == k].deep_view();
        crate::graph_types::RiskNodeView { finding: f, law_refs: f.legal_basis, ..n }
    } else {
        n
    }
}

/// The strings of `s`, each in double quotes, separated by `", "`.
pub open spec fn quoted_items(s: Seq<Seq<char>>) -> Seq<char>
    decreases s.len(),
{
    if s.len() == 0 {
        Seq::empty()
    } else if s.len() == 1 {
        "\""@ + s[0] + "\""@
    } else {
        quoted_items(s.drop_last()) + ", "@ + "\""@ + s.last() + "\""@
    }
}

/// The text `["a", "b"]` of a list of strings.
pub open spec fn list_text_of(s: Seq<Seq<char>>) -> Seq<char> {
    "["@ + quoted_items(s) + "]"@
}

/// The texts `["a", "b"]` of a list of strings.
fn list_text(v: &Vec<String>) -> (r: String)
    ensures
        r@ == list_text_of(v.deep_view()),
{
    let ghost dv = v.deep_view();
    let mut r = to_owned_string("[");
    let mut i: usize = 0;
    while i < v.len()
        invariant
            i <= v@.len(),
            dv == v.deep_view(),
            r@ == "["@ + quoted_items(dv.take(i as int)),
        decreases v@.len() - i,
    {
        let ghost r0 = r@;
        if i > 0 {
            push_str(&mut r, ", ");
        }
        push_str(&mut r, "\"");
        push_str(&mut r, v[i].as_str());
        push_str(&mut r, "\"");
        proof {
            let t = dv.take(i + 1);
            assert(t.drop_last() =~= dv.take(i as int));
            assert(t.last() == v@[i as int]@);
            if i == 0 {
                assert(dv.take(0) =~= Seq::<Seq<char>>::empty());
                assert(quoted_items(dv.take(0)) =~= Seq::<char>::empty());
                assert(r@ =~= "["@ + quoted_items(t));
            } else {
                assert(r@ =~= "["@ + quoted_items(t));
            }
        }
        i += 1;
    }
    push_str(&mut r, "]");
    proof {
        assert(dv.take(v@.len() as int) =~= dv);
    }
    r
}

impl SessionGraph {
    /// Replaces, in a final snapshot, the finding of every confirmed risk by
    /// the final finding with its id (law references from its legal basis)
    /// and rebuilds every risk-derived index. Refuses, changing nothing,
    /// findings with a repeated id, an id that is no confirmed risk, and a
    /// confirmed risk without a finding.
    pub fn sync_snapshot_confirmed_findings(snapshot: &mut GraphSnapshot, findings: &Vec<RiskFinding>) -> (r: Result<(), String>)
        requires
            old(snapshot).wf(),
        ensures
            final(snapshot).wf(),
            r is Ok <==> sync_ok(old(snapshot), findings@),
            r is Err ==> same_graph(old(snapshot), final(snapshot)),
            r is Ok ==> {
                &&& final(snapshot).risks.deep_view().dom() == old(snapshot).risks.deep_view().dom()
                &&& forall|k: Seq<char>| #[trigger] final(snapshot).risks.deep_view().dom().contains(k) ==> final(snapshot).risks.deep_view()[k]
                    == synced_node(old(snapshot), findings@, k)
                &&& indexes_rebuilt(old(snapshot), final(snapshot))
                &&& unchanged_except(old(snapshot), final(snapshot), set![f_risks(), f_has_risk(), f_cites(), f_cited_by(), f_same_law(), f_laws()])
                &&& final(snapshot).graph_version == old(snapshot).graph_version
                &&& final(snapshot).chunk_versions.deep_view() == old(snapshot).chunk_versions.deep_view()
            },
    {
        let ghost a = *snapshot;
        let ghost rv = a.risks.deep_view();
        let ghost fs = findings@;
        // no repeated id
        let mut i: usize = 0;
        while i < findings.len()
            invariant
                snapshot.wf(),
                *snapshot == a,
                i <= fs.len(),
                fs == findings@,
                forall|p: int, q: int| 0 <= p < q < i ==> fs[p].risk_id@ != fs[q].risk_id@,
            decreases fs.len() - i,
        {
            let mut j: usize = 0;
            while j < i
                invariant
                    snapshot.wf(),
                    *snapshot == a,
                    j <= i < fs.len(),
                    fs == findings@,
                    forall|p: int| 0 <= p < j ==> fs[p].risk_id@ != fs[i as int].risk_id@,
                decreases i - j,
            {
                if str_eq(findings[j].risk_id.as_str(), findings[i].risk_id.as_str()) {
                    let mut msg = to_owned_string("最终 findings 包含重复 risk_id: ");
                    push_str(&mut msg, findings[i].risk_id.as_str());
                    return Err(msg);
                }
                j += 1;
            }
            i += 1;
        }
        // every id names a confirmed risk
        let mut i: usize = 0;
        while i < findings.len()
            invariant
                snapshot.wf(),
                *snapshot == a,
                rv == a.risks.deep_view(),
                i <= fs.len(),
                fs == findings@,
                forall|p: int| 0 <= p < i ==> rv.dom().contains(#[trigger] fs[p].risk_id@) && rv[fs[p].risk_id@].state == FindingState::Confirmed,
            decreases fs.len() - i,
        {
            match snapshot.risks.get(findings[i].risk_id.as_str()) {
                Some(node) => {
                    proof {
                        assert(rv[fs[i as int].risk_id@] == node.deep_view());
                    }
                    if !matches!(node.state, FindingState::Confirmed) {
                        let mut msg = to_owned_string("仅允许同步 Confirmed 风险节点: ");
                        push_str(&mut msg, findings[i].risk_id.as_str());
                        return Err(msg);
                    }
                },
                None => {
                    let mut msg = to_owned_string("最终快照缺少 risk_id: ");
                    push_str(&mut msg, findings[i].risk_id.as_str());
                    return Err(msg);
                },
            }
            i += 1;
        }
        // every confirmed risk has a finding
        proof {
            a.risks.lemma_view_facts();
        }
        let mut missing: Vec<String> = Vec::new();
        let n = snapshot.risks.len();
        let mut k: usize = 0;
        while k < n
            invariant
                snapshot.wf(),
                *snapshot == a,
                rv == a.risks.deep_view(),
                n == a.risks.key_seq().len(),
                k <= n,
                fs == findings@,
                missing@.len() == 0 <==> forall|j: int| 0 <= j < k && rv[#[trigger] a.risks.key_seq()[j]].state == FindingState::Confirmed
                    ==> exists|i: int| 0 <= i < fs.len() && #[trigger] fs[i].risk_id@ == a.risks.key_seq()[j],
            decreases n - k,
        {
            proof {
                a.risks.lemma_view_facts();
            }
            let (key, node) = snapshot.risks.entry_at(k);
            proof {
                assert(a.risks.key_seq().contains(key@));
                assert(a.risks@[key@] == a.risks.value_at(k as int));
                assert(rv[key@] == node.deep_view());
            }
            let mut found = false;
            let mut i: usize = 0;
            while i < findings.len()
                invariant
                    i <= fs.len(),
                    fs == findings@,
                    found <==> exists|p: int| 0 <= p < i && #[trigger] fs[p].risk_id@ == key@,
                decreases fs.len() - i,
            {
                if str_eq(findings[i].risk_id.as_str(), key.as_str()) {
                    found = true;
                }
                proof {
                    if found {
                        if exists|p: int| 0 <= p < i && #[trigger] fs[p].risk_id@ == key@ {
                            let p = choose|p: int| 0 <= p < i && #[trigger] fs[p].risk_id@ == key@;
                            assert(0 <= p < i + 1);
                        } else {
                            assert(fs[i as int].risk_id@ == key@);
                        }
                    } else {
                        assert forall|p: int| 0 <= p < i + 1 implies #[trigger] fs[p].risk_id@ != key@ by {
                            if p < i {
                                assert(!(exists|p2: int| 0 <= p2 < i && #[trigger] fs[p2].risk_id@ == key@));
                            }
                        }
                    }
                }
                i += 1;
            }
            let ghost m0 = missing@.len();
            if matches!(node.state, FindingState::Confirmed) && !found {
                missing.push(key.clone());
            }
            proof {
                if missing@.len() == 0 {
                    assert forall|j: int| 0 <= j < k + 1 && rv[#[trigger] a.risks.key_seq()[j]].state == FindingState::Confirmed
                        implies exists|i2: int| 0 <= i2 < fs.len() && #[trigger] fs[i2].risk_id@ == a.risks.key_seq()[j] by {
                        if j == k {
                            assert(a.risks.key_seq()[j] == key@);
                        }
                    }
                } else {
                    if m0 == 0 {
                        assert(a.risks.key_seq()[k as int] == key@);
                        assert(rv[a.risks.key_seq()[k as int]].state == FindingState::Confirmed);
                        assert(!(exists|i2: int| 0 <= i2 < fs.len() && #[trigger] fs[i2].risk_id@ == a.risks.key_seq()[k as int]));
                    }
                }
            }
            k += 1;
        }
        if missing.len() > 0 {
            proof {
                let j = choose|j: int| !(0 <= j < n && rv[#[trigger] a.risks.key_seq()[j]].state == FindingState::Confirmed
                    ==> exists|i: int| 0 <= i < fs.len() && #[trigger] fs[i].risk_id@ == a.risks.key_seq()[j]);
                assert(a.risks.key_seq().contains(a.risks.key_seq()[j]));
                assert(rv.dom().contains(a.risks.key_seq()[j]));
            }
            let sorted_missing = sorted_unique(missing);
            let mut msg = to_owned_string("最终 findings 与 Confirmed 节点不一致: 缺少输出=");
            let listed = list_text(&sorted_missing);
            push_str(&mut msg, listed.as_str());
            push_str(&mut msg, ", 缺少 Confirmed 节点=[]");
            return Err(msg);
        }
        proof {
            a.risks.lemma_view_facts();
            assert forall|x: Seq<char>| #[trigger] rv.dom().contains(x) && rv[x].state == FindingState::Confirmed implies exists|i: int|
                0 <= i < fs.len() && #[trigger] fs[i].risk_id@ == x by {
                assert(a.risks.key_seq().contains(x));
                let j = choose|j: int| 0 <= j < a.risks.key_seq().len() && a.risks.key_seq()[j] == x;
                assert(rv[a.risks.key_seq()[j]].state == FindingState::Confirmed);
            }
            assert(sync_ok(&a, fs));
        }
        // replace the findings
        let mut i: usize = 0;
        while i < findings.len()
            invariant
                snapshot.wf(),
                rv == a.risks.deep_view(),
                i <= fs.len(),
                fs == findings@,
                sync_ok(&a, fs),
                snapshot.risks.deep_view().dom() == rv.dom(),
                forall|k2: Seq<char>| #[trigger] snapshot.risks.deep_view().dom().contains(k2) ==> snapshot.risks.deep_view()[k2] == if exists|p: int|
                    0 <= p < i && #[trigger] fs[p].risk_id@ == k2 {
                    synced_node(&a, fs, k2)
                } else {
                    rv[k2]
                },
                unchanged_except(&a, snapshot, set![f_risks()]),
                snapshot.graph_version == a.graph_version,
                snapshot.chunk_versions.deep_view() == a.chunk_versions.deep_view(),
            decreases fs.len() - i,
        {
            let f = &findings[i];
            let ghost kid = f.risk_id@;
            let ghost s0 = *snapshot;
            proof {
                assert(rv.dom().contains(fs[i as int].risk_id@));
                assert(!(exists|p: int| 0 <= p < i && #[trigger] fs[p].risk_id@ == kid));
            }
            let node = match snapshot.risks.get(f.risk_id.as_str()) {
                Some(n) => n,
                None => {
                    proof {
                        assert(false);
                    }
                    return Err(String::new());
                },
            };
            proof {
                assert(snapshot.risks.deep_view()[kid] == node.deep_view());
                assert(node.deep_view() == rv[kid]);
            }
            let mut updated = node.dup();
            updated.finding = f.dup();
            updated.law_refs = f.legal_basis.dup();
            let ghost uv = updated.deep_view();
            snapshot.risks.insert(f.risk_id.clone(), updated);
            proof {
                assert(exists|p: int| 0 <= p < fs.len() && #[trigger] fs[p].risk_id@ == kid) by {
                    assert(fs[i as int].risk_id@ == kid);
                }
                let c = choose|p: int| 0 <= p < fs.len() && #[trigger] fs[p].risk_id@ == kid;
                if c != i {
                    if c < i {
                        assert(fs[c].risk_id@ != fs[i as int].risk_id@);
                    } else {
                        assert(fs[i as int].risk_id@ != fs[c].risk_id@);
                    }
                }
                assert(uv == synced_node(&a, fs, kid));
                assert(snapshot.risks.deep_view() =~= s0.risks.deep_view().insert(kid, uv));
                assert forall|k2: Seq<char>| #[trigger] snapshot.risks.deep_view().dom().contains(k2) implies snapshot.risks.deep_view()[k2] == if exists|p: int|
                    0 <= p < i + 1 && #[trigger] fs[p].risk_id@ == k2 {
                    synced_node(&a, fs, k2)
                } else {
                    rv[k2]
                } by {
                    if k2 != kid {
                        assert(s0.risks.deep_view().dom().contains(k2));
                        if exists|p: int| 0 <= p < i + 1 && #[trigger] fs[p].risk_id@ == k2 {
                            let p = choose|p: int| 0 <= p < i + 1 && #[trigger] fs[p].risk_id@ == k2;
                            assert(p != i);
                        }
                    } else {
                        assert(fs[i as int].risk_id@ == k2);
                    }
                }
                assert(snapshot.risks.deep_view().dom() =~= rv.dom());
                assert(keeps(&s0, snapshot, 0));
                assert forall|f2: int| 0 <= f2 < 14 && !set![f_risks()].contains(f2) implies #[trigger] keeps(&a, snapshot, f2) by {
                    assert(keeps(&a, &s0, f2));
                    assert(keeps(&s0, snapshot, f2));
                }
            }
            i += 1;
        }
        let ghost s1 = *snapshot;
        rebuild_risk_indexes_parts(
            &snapshot.risks,
            &mut snapshot.has_risk,
            &mut snapshot.cites,
            &mut snapshot.cited_by,
            &mut snapshot.same_law,
            &mut snapshot.laws,
        );
        proof {
            assert(s1.laws.deep_view() == a.laws.deep_view()) by {
                assert(keeps(&a, &s1, f_laws()));
            }
            assert(s1.cited_by.deep_view() == a.cited_by.deep_view()) by {
                assert(keeps(&a, &s1, f_cited_by()));
            }
            assert forall|f2: int| 0 <= f2 < 14 && !set![f_risks(), f_has_risk(), f_cites(), f_cited_by(), f_same_law(), f_laws()].contains(f2) implies #[trigger] keeps(&a, snapshot, f2) by {
                assert(keeps(&a, &s1, f2));
            }
            assert forall|k2: Seq<char>| #[trigger] snapshot.risks.deep_view().dom().contains(k2) implies snapshot.risks.deep_view()[k2]
                == synced_node(&a, fs, k2) by {
                if !(exists|p: int| 0 <= p < fs.len() && #[trigger] fs[p].risk_id@ == k2) {
                    assert(synced_node(&a, fs, k2) == rv[k2]);
                }
            }
            assert(indexes_rebuilt(&a, snapshot));
        }
        Ok(())
    }
}

/// The ids that `next_risk_id` hands out are pairwise distinct: the
/// counter only goes up, and different counts give different ids.
pub proof fn law_risk_ids_distinct(n: nat, m: nat)
    requires
        n >= 1,
        m >= 1,
        n != m,
    ensures
        risk_id_text(n) != risk_id_text(m),
{
    let dn = decimal(n);
    let dm = decimal(m);
    crate::text::lemma_decimal_shape(n);
    crate::text::lemma_decimal_shape(m);
    if risk_id_text(n) == risk_id_text(m) {
        let tn = risk_id_text(n);
        let sn = tn.subrange(2, tn.len() as int);
        let pn = if dn.len() >= 3 { Seq::<char>::empty() } else { Seq::new((3 - dn.len()) as nat, |i: int| '0') };
        let pm = if dm.len() >= 3 { Seq::<char>::empty() } else { Seq::new((3 - dm.len()) as nat, |i: int| '0') };
        assert(sn =~= pn + dn);
        assert(sn =~= pm + dm);
        if dn.len() == dm.len() {
            assert(pn.len() == pm.len());
            assert(dn =~= sn.subrange(pn.len() as int, sn.len() as int));
            assert(dm =~= sn.subrange(pm.len() as int, sn.len() as int));
            crate::text::lemma_decimal_injective(n, m);
        } else if dn.len() < dm.len() {
            assert(dn.len() < 3);
            let i = pm.len() as int;
            assert(sn[i] == dm[0]);
            assert(i < pn.len());
            assert(sn[i] == pn[i]);
        } else {
            assert(dm.len() < 3);
            let i = pn.len() as int;
            assert(sn[i] == dn[0]);
            assert(i < pm.len());
            assert(sn[i] == pm[i]);
        }
    }
}

/// Upserting the same findings twice is upserting them once: where `b` is
/// what an accepted upsert of `fs` made of `a` (each node stored as given
/// and, `a` citing only stored risks, fully indexed), the same batch is
/// accepted again on `b` (no conflict) and finds every node in place, so
/// the second `upsert_provisional_findings` keeps the graph and bumps no
/// version.
pub proof fn law_upsert_retry_is_noop(a: &GraphSnapshot, b: &GraphSnapshot, fs: Seq<RiskFinding>)
    requires
        provisional_batch_ok(fs),
        no_conflict(a, batch_nodes(fs)),
        citations_stored(a),
        forall|i: int| 0 <= i < batch_nodes(fs).len() ==> b.risks.deep_view()[#[trigger] batch_nodes(fs)[i].finding.risk_id] == batch_nodes(fs)[i],
        citations_stored(a) ==> citations_stored(b) && forall|i: int| 0 <= i < batch_nodes(fs).len() ==> #[trigger] upserted(b, batch_nodes(fs)[i]),
    ensures
        provisional_batch_ok(fs) && no_conflict(b, batch_nodes(fs)),
        citations_stored(b),
        forall|i: int| 0 <= i < batch_nodes(fs).len() ==> #[trigger] upserted(b, batch_nodes(fs)[i]),
{
    let nodes = batch_nodes(fs);
    assert forall|i: int| 0 <= i < nodes.len() && #[trigger] b.risks.deep_view().dom().contains(nodes[i].finding.risk_id) implies b.risks.deep_view()[nodes[i].finding.risk_id] == nodes[i] by {
        assert(b.risks.deep_view()[nodes[i].finding.risk_id] == nodes[i]);
    }
}

/// A contradiction is recorded in both directions: after writing the edges
/// of `a` and `b` with `reason`, each clause lists the other with the
/// reason, and every edge recorded before is kept.
pub proof fn law_contradicts_bidirectional(m: Map<Seq<char>, Seq<(Seq<char>, Seq<char>)>>, a: Seq<char>, b: Seq<char>, reason: Seq<char>)
    ensures
        list_has(contradicts_after(m, a, b, reason), a, (b, reason)),
        list_has(contradicts_after(m, a, b, reason), b, (a, reason)),
        forall|k: Seq<char>, y: (Seq<char>, Seq<char>)| #[trigger] list_has(m, k, y) ==> list_has(contradicts_after(m, a, b, reason), k, y),
{
    let m1 = m.insert(a, entry_pushed(m, a, (b, reason)));
    lemma_entry_pushed_has(m, a, (b, reason));
    lemma_entry_pushed_has(m1, b, (a, reason));
}

/// Writing an edge twice is writing it once: the second write finds the
/// edge, adds nothing and (so) bumps no version.
pub proof fn law_edge_write_idempotent<V>(m: Map<Seq<char>, Seq<V>>, k: Seq<char>, x: V)
    ensures
        !entry_lacks(m.insert(k, entry_pushed(m, k, x)), k, x),
        m.insert(k, entry_pushed(m, k, x)).insert(k, entry_pushed(m.insert(k, entry_pushed(m, k, x)), k, x))
            == m.insert(k, entry_pushed(m, k, x)),
{
    lemma_entry_pushed_has(m, k, x);
    let m2 = m.insert(k, entry_pushed(m, k, x));
    assert(m2[k].contains(x));
    assert(entry_pushed(m2, k, x) == m2[k]);
    assert(m2.insert(k, m2[k]) =~= m2);
}

/// An edge list written by "push if absent" never holds an edge twice.
pub proof fn law_edge_lists_stay_distinct<V>(m: Map<Seq<char>, Seq<V>>, k: Seq<char>, x: V)
    requires
        m.dom().contains(k) ==> m[k].no_duplicates(),
    ensures
        entry_pushed(m, k, x).no_duplicates(),
{
    if m.dom().contains(k) && !m[k].contains(x) {
        let s = m[k].push(x);
        assert forall|i: int, j: int| 0 <= i < s.len() && 0 <= j < s.len() && i != j implies s[i] != s[j] by {
            if i == m[k].len() {
                assert(s[j] == m[k][j]);
            } else if j == m[k].len() {
                assert(s[i] == m[k][i]);
            }
        }
    }
}

/// Versions only go up: bumping never lowers a chunk version and keeps
/// every known chunk.
pub proof fn law_bump_monotone(cv: Map<Seq<char>, u64>, affected: Seq<Seq<char>>)
    ensures
        forall|k: Seq<char>| #[trigger] cv.dom().contains(k) ==> bumped(cv, affected).dom().contains(k)
            && version_of(cv, k) <= version_of(bumped(cv, affected), k),
        forall|k: Seq<char>| #[trigger] affected.contains(k) ==> version_of(bumped(cv, affected), k) == sat_inc(version_of(cv, k)),
{
}

/// Repeating the final audit with the same decisions is accepted and
/// changes nothing: where `b` is what an accepted audit (`final_findings`,
/// `merged`, `rejected`) made of `a` (every risk is its decided node, the
/// clauses are kept), the same audit is accepted on `b` and finds no
/// provisional finding left to decide, so `finalize_audit` on `b` keeps the
/// graph as it is.
pub proof fn law_audit_retry_is_noop(
    a: &GraphSnapshot,
    b: &GraphSnapshot,
    fs: Seq<RiskFinding>,
    mg: Map<Seq<char>, Seq<char>>,
    rj: Map<Seq<char>, Seq<char>>,
)
    requires
        audit_ok(a, fs, mg, rj),
        b.risks.deep_view().dom() == a.risks.deep_view().dom(),
        forall|k: Seq<char>| #[trigger] b.risks.deep_view().dom().contains(k) ==> b.risks.deep_view()[k] == decided_node(
            a,
            normalized_finals(fs),
            mg,
            rj,
            k,
        ),
        b.chunks.deep_view() == a.chunks.deep_view(),
    ensures
        audit_ok(b, fs, mg, rj),
        forall|k: Seq<char>| !#[trigger] decision_changes(b, normalized_finals(fs), mg, rj, k),
{
    let nf = normalized_finals(fs);
    let ra = a.risks.deep_view();
    let rb = b.risks.deep_view();
    assert forall|i: int, j: int| 0 <= i < nf.len() && 0 <= j < nf.len() && i != j implies nf[i].risk_id != nf[j].risk_id by {
        if i < j {
            assert(fs[i].risk_id@ != fs[j].risk_id@);
        } else {
            assert(fs[j].risk_id@ != fs[i].risk_id@);
        }
    }
    assert forall|i: int| 0 <= i < nf.len() implies #[trigger] final_at(nf, nf[i].risk_id) == nf[i] by {
        assert(final_id(nf, nf[i].risk_id));
    }
    assert forall|k: Seq<char>| !#[trigger] decision_changes(b, nf, mg, rj, k) by {
        if rb.dom().contains(k) && (final_id(nf, k) || mg.dom().contains(k) || rj.dom().contains(k)) {
            assert(rb[k] == decided_node(a, nf, mg, rj, k));
        }
    }
    // The clauses the audit names keep their references.
    assert forall|s: Seq<char>| #[trigger] rb.dom().contains(s) implies rb[s].finding.clause_ids == ra[s].finding.clause_ids
        || final_id(nf, s) by {
        assert(rb[s] == decided_node(a, nf, mg, rj, s));
    }
    assert forall|ids: Seq<Seq<char>>| clause_refs_ok(a, ids) implies #[trigger] clause_refs_ok(b, ids) by {
        assert forall|j: int| 0 <= j < ids.len() implies !all_white(#[trigger] ids[j]) && b.chunks.deep_view().dom().contains(ids[j]) by {
            assert(!all_white(ids[j]) && a.chunks.deep_view().dom().contains(ids[j]));
        }
    }
    assert forall|i: int| 0 <= i < nf.len() implies rb.dom().contains(#[trigger] nf[i].risk_id) && clause_refs_ok(b, nf[i].clause_ids) by {
        let id = nf[i].risk_id;
        assert(ra.dom().contains(id));
        assert(clause_refs_ok(a, nf[i].clause_ids));
    }
    assert forall|t: Seq<char>| #[trigger] mg.dom().contains(t) implies rb.dom().contains(t) && rb.dom().contains(mg[t]) && final_id(nf, mg[t])
        && clause_refs_ok(b, rb[t].finding.clause_ids) by {
        assert(!final_id(nf, t));
        assert(rb[t].finding.clause_ids == ra[t].finding.clause_ids);
        assert(clause_refs_ok(a, ra[t].finding.clause_ids));
    }
    assert forall|t: Seq<char>| #[trigger] rj.dom().contains(t) implies rb.dom().contains(t) && clause_refs_ok(b, rb[t].finding.clause_ids) by {
        assert(!final_id(nf, t));
        assert(rb[t].finding.clause_ids == ra[t].finding.clause_ids);
        assert(clause_refs_ok(a, ra[t].finding.clause_ids));
    }
    assert(refs_ok(b, nf, mg, rj));
    assert forall|i: int| 0 <= i < nf.len() implies {
        let n = rb[#[trigger] nf[i].risk_id];
        n.state == FindingState::Provisional || (n.state == FindingState::Confirmed && n.finding == nf[i] && n.law_refs
            == nf[i].legal_basis && n.merged_into is None && n.decision_reason is None)
    } by {
        let id = nf[i].risk_id;
        assert(final_id(nf, id));
        assert(rb[id] == decided_node(a, nf, mg, rj, id));
    }
    assert forall|s: Seq<char>| #[trigger] mg.dom().contains(s) implies {
        let n = rb[s];
        n.state == FindingState::Provisional || (n.state == FindingState::Merged && n.merged_into == Some(mg[s])
            && n.decision_reason == Some(merge_reason(mg[s])))
    } by {
        assert(!final_id(nf, s));
        assert(rb[s] == decided_node(a, nf, mg, rj, s));
    }
    assert forall|s: Seq<char>| #[trigger] rj.dom().contains(s) implies {
        let n = rb[s];
        n.state == FindingState::Provisional || (n.state == FindingState::Rejected && n.decision_reason == Some(rj[s])
            && n.merged_into is None)
    } by {
        assert(!final_id(nf, s));
        assert(!mg.dom().contains(s));
        assert(rb[s] == decided_node(a, nf, mg, rj, s));
    }
    assert(terminal_ok(b, nf, mg, rj));
    if has_existing_terminal(b) {
        assert forall|k: Seq<char>| (rb.dom().contains(k) && rb[k].state == FindingState::Confirmed) <==> #[trigger] final_id(nf, k) by {
            if rb.dom().contains(k) {
                assert(rb[k] == decided_node(a, nf, mg, rj, k));
                if rb[k].state == FindingState::Confirmed && !decision_changes(a, nf, mg, rj, k) {
                    assert(ra.dom().contains(k) && existing_decision(a, k));
                    assert(has_existing_terminal(a));
                }
            }
            if final_id(nf, k) {
                let i = choose|i: int| 0 <= i < nf.len() && #[trigger] nf[i].risk_id == k;
                assert(ra.dom().contains(nf[i].risk_id));
            }
        }
        assert forall|k: Seq<char>| (rb.dom().contains(k) && rb[k].state == FindingState::Merged && rb[k].merged_into is Some)
            <==> #[trigger] mg.dom().contains(k) by {
            if rb.dom().contains(k) {
                assert(rb[k] == decided_node(a, nf, mg, rj, k));
                if rb[k].state == FindingState::Merged && rb[k].merged_into is Some && !decision_changes(a, nf, mg, rj, k) {
                    assert(existing_decision(a, k));
                    assert(has_existing_terminal(a));
                }
            }
        }
        assert forall|k: Seq<char>| #[trigger] mg.dom().contains(k) && rb.dom().contains(k) && rb[k].state == FindingState::Merged
            && rb[k].merged_into is Some implies rb[k].merged_into->0 == mg[k] by {}
        assert forall|k: Seq<char>| (rb.dom().contains(k) && rb[k].state == FindingState::Rejected && rb[k].decision_reason is Some)
            <==> #[trigger] rj.dom().contains(k) by {
            if rb.dom().contains(k) {
                assert(rb[k] == decided_node(a, nf, mg, rj, k));
                if rb[k].state == FindingState::Rejected && rb[k].decision_reason is Some && !decision_changes(a, nf, mg, rj, k) {
                    assert(existing_decision(a, k));
                    assert(has_existing_terminal(a));
                }
            }
        }
        assert forall|k: Seq<char>| #[trigger] rj.dom().contains(k) && rb.dom().contains(k) && rb[k].state == FindingState::Rejected
            && rb[k].decision_reason is Some implies rb[k].decision_reason->0 == rj[k] by {}
    }
    assert(retry_ok(b, nf, mg, rj));
}

} // verus!
