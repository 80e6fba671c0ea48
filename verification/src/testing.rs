//! Helpers of the agent integration runs: check records, queries over parsed
//! trace events, finding statistics and log scanning.
use vstd::prelude::*;

use crate::dup::Dup;
use crate::graph_types::{RiskFinding, RiskSeverity};
use crate::strmap::StrMap;
use crate::text::{
    contains_seq, distinct_seq, lex_le, push_str, sorted_seq, sorted_unique, str_contains, str_eq, str_le,
    to_owned_string, trim_seq, trim_string, char_count, decimal, decimal_string,
};

verus! {

/// One check of an integration run.
pub struct TestCheck {
    /// The scenario, such as "bus" or "legal".
    pub test: String,
    /// The check point, such as "session_graph_pull".
    pub check: String,
    /// "PASS", "FAIL" or "SKIP".
    pub status: String,
    /// What a reader should know.
    pub detail: String,
}

impl TestCheck {
    /// A passed check.
    pub fn pass(test: &str, check: &str, detail: &str) -> (r: Self)
        ensures
            r.test@ == test@,
            r.check@ == check@,
            r.status@ == "PASS"@,
            r.detail@ == detail@,
    {
        TestCheck {
            test: to_owned_string(test),
            check: to_owned_string(check),
            status: to_owned_string("PASS"),
            detail: to_owned_string(detail),
        }
    }

    /// A failed check.
    pub fn fail(test: &str, check: &str, detail: &str) -> (r: Self)
        ensures
            r.test@ == test@,
            r.check@ == check@,
            r.status@ == "FAIL"@,
            r.detail@ == detail@,
    {
        TestCheck {
            test: to_owned_string(test),
            check: to_owned_string(check),
            status: to_owned_string("FAIL"),
            detail: to_owned_string(detail),
        }
    }

    /// A skipped check.
    pub fn skip(test: &str, check: &str, detail: &str) -> (r: Self)
        ensures
            r.test@ == test@,
            r.check@ == check@,
            r.status@ == "SKIP"@,
            r.detail@ == detail@,
    {
        TestCheck {
            test: to_owned_string(test),
            check: to_owned_string(check),
            status: to_owned_string("SKIP"),
            detail: to_owned_string(detail),
        }
    }
}

/// A trace event as the checks read it.
#[derive(Debug)]
pub struct ParsedTraceEvent {
    pub agent_name: String,
    pub event_type: String,
    pub turn: u32,
    pub clause_id: Option<String>,
    pub summary: String,
    pub timestamp: String,
}

/// The content of a trace event.
pub ghost struct EventView {
    pub agent_name: Seq<char>,
    pub event_type: Seq<char>,
    pub turn: u32,
    pub clause_id: Option<Seq<char>>,
    pub summary: Seq<char>,
    pub timestamp: Seq<char>,
}

impl DeepView for ParsedTraceEvent {
    type V = EventView;

    open spec fn deep_view(&self) -> EventView {
        EventView {
            agent_name: self.agent_name@,
            event_type: self.event_type@,
            turn: self.turn,
            clause_id: self.clause_id.deep_view(),
            summary: self.summary@,
            timestamp: self.timestamp@,
        }
    }
}

/// Event `e` passes the filters: its agent name contains `agent` (an empty
/// filter passes all) and its type is `kind` (an empty filter passes all).
pub open spec fn event_selected(e: EventView, agent: Seq<char>, kind: Seq<char>) -> bool {
    (agent.len() == 0 || contains_seq(e.agent_name, agent)) && (kind.len() == 0 || e.event_type == kind)
}

/// The events of `evs` that pass the filters, in order.
pub open spec fn selected_events(evs: Seq<EventView>, agent: Seq<char>, kind: Seq<char>) -> Seq<EventView>
    decreases evs.len(),
{
    if evs.len() == 0 {
        Seq::empty()
    } else {
        let prev = selected_events(evs.drop_last(), agent, kind);
        if event_selected(evs.last(), agent, kind) {
            prev.push(evs.last())
        } else {
            prev
        }
    }
}

/// The events of one agent (by a part of its name) and of one type; an
/// empty filter passes every event.
pub fn find_trace_events<'a>(events: &'a [ParsedTraceEvent], agent_filter: &str, event_type_filter: &str) -> (r: Vec<&'a ParsedTraceEvent>)
    ensures
        r.deep_view() == selected_events(events.deep_view(), agent_filter@, event_type_filter@),
{
    let mut out: Vec<&'a ParsedTraceEvent> = Vec::new();
    let mut i: usize = 0;
    while i < events.len()
        invariant
            i <= events@.len(),
            out.deep_view() == selected_events(events.deep_view().take(i as int), agent_filter@, event_type_filter@),
        decreases events@.len() - i,
    {
        let e = &events[i];
        let agent_ok = agent_filter.is_empty() || str_contains(e.agent_name.as_str(), agent_filter);
        let kind_ok = event_type_filter.is_empty() || str_eq(e.event_type.as_str(), event_type_filter);
        proof {
            assert(events.deep_view().take(i + 1).drop_last() =~= events.deep_view().take(i as int));
            assert(events.deep_view().take(i + 1).last() == e.deep_view());
        }
        if agent_ok && kind_ok {
            let ghost o0 = out.deep_view();
            out.push(e);
            proof {
                assert(out.deep_view() =~= o0.push(e.deep_view()));
            }
        }
        i += 1;
    }
    proof {
        assert(events.deep_view().take(events@.len() as int) =~= events.deep_view());
    }
    out
}

/// Every event's timestamp is no later (as text) than the next one's.
pub open spec fn timestamps_monotone(evs: Seq<EventView>) -> bool {
    forall|i: int| 0 <= i < evs.len() - 1 ==> lex_le(#[trigger] evs[i].timestamp, evs[i + 1].timestamp)
}

/// Checks that the timestamps never go back; the error names the first
/// step back.
pub fn check_timestamps_monotonic(events: &[ParsedTraceEvent]) -> (r: Result<(), String>)
    ensures
        r is Ok <==> timestamps_monotone(events.deep_view()),
        r matches Err(m) ==> exists|i: int|
            #![trigger events.deep_view()[i]]
            0 <= i < events@.len() - 1 && !lex_le(events.deep_view()[i].timestamp, events.deep_view()[i + 1].timestamp)
                && (forall|j: int| 0 <= j < i ==> lex_le(#[trigger] events.deep_view()[j].timestamp, events.deep_view()[j + 1].timestamp))
                && m@ == "timestamp 回退: "@ + events.deep_view()[i].timestamp + " → "@ + events.deep_view()[i + 1].timestamp
                    + " (events: "@ + events.deep_view()[i].summary + " → "@ + events.deep_view()[i + 1].summary + ")"@,
{
    if events.len() < 2 {
        return Ok(());
    }
    let mut i: usize = 0;
    while i < events.len() - 1
        invariant
            events@.len() >= 2,
            i <= events@.len() - 1,
            forall|j: int| 0 <= j < i && j < events@.len() - 1 ==> lex_le(#[trigger] events.deep_view()[j].timestamp, events.deep_view()[j + 1].timestamp),
        decreases events@.len() - i,
    {
        let a = &events[i];
        let b = &events[i + 1];
        proof {
            assert(events.deep_view()[i as int] == a.deep_view());
            assert(events.deep_view()[i + 1] == b.deep_view());
        }
        if !str_le(a.timestamp.as_str(), b.timestamp.as_str()) {
            proof {
                assert(!lex_le(events.deep_view()[i as int].timestamp, events.deep_view()[i + 1].timestamp));
            }
            let mut msg = to_owned_string("timestamp 回退: ");
            push_str(&mut msg, a.timestamp.as_str());
            push_str(&mut msg, " → ");
            push_str(&mut msg, b.timestamp.as_str());
            push_str(&mut msg, " (events: ");
            push_str(&mut msg, a.summary.as_str());
            push_str(&mut msg, " → ");
            push_str(&mut msg, b.summary.as_str());
            push_str(&mut msg, ")");
            proof {
                assert(forall|j: int| 0 <= j < i ==> lex_le(#[trigger] events.deep_view()[j].timestamp, events.deep_view()[j + 1].timestamp));
                assert(msg@ =~= "timestamp 回退: "@ + events.deep_view()[i as int].timestamp + " → "@ + events.deep_view()[i + 1].timestamp
                    + " (events: "@ + events.deep_view()[i as int].summary + " → "@ + events.deep_view()[i + 1].summary + ")"@);
            }
            return Err(msg);
        }
        i += 1;
    }
    Ok(())
}

/// The non-empty agent names of the events, sorted and without repeats.
pub fn unique_agents(events: &[ParsedTraceEvent]) -> (r: Vec<String>)
    ensures
        sorted_seq(r.deep_view()),
        distinct_seq(r.deep_view()),
        forall|x: Seq<char>| #[trigger] r.deep_view().contains(x) <==> x.len() > 0 && exists|i: int|
            0 <= i < events@.len() && #[trigger] events.deep_view()[i].agent_name == x,
{
    let mut names: Vec<String> = Vec::new();
    let mut i: usize = 0;
    while i < events.len()
        invariant
            i <= events@.len(),
            forall|x: Seq<char>| #[trigger] names.deep_view().contains(x) <==> x.len() > 0 && exists|j: int|
                0 <= j < i && #[trigger] events.deep_view()[j].agent_name == x,
        decreases events@.len() - i,
    {
        let e = &events[i];
        proof {
            assert(events.deep_view()[i as int] == e.deep_view());
        }
        let ghost o0 = names.deep_view();
        if crate::text::char_count(e.agent_name.as_str()) > 0 {
            names.push(e.agent_name.clone());
            proof {
                assert(names.deep_view() =~= o0.push(e.agent_name@));
                assert(names.deep_view()[o0.len() as int] == e.agent_name@);
            }
        }
        proof {
            assert forall|x: Seq<char>| #[trigger] names.deep_view().contains(x) <==> x.len() > 0 && exists|j: int|
                0 <= j < i + 1 && #[trigger] events.deep_view()[j].agent_name == x by {
                if names.deep_view().contains(x) && !o0.contains(x) {
                    let q = choose|q: int| 0 <= q < names.deep_view().len() && #[trigger] names.deep_view()[q] == x;
                    if q < o0.len() {
                        assert(o0[q] == x);
                    }
                }
                if o0.contains(x) {
                    let q = choose|q: int| 0 <= q < o0.len() && #[trigger] o0[q] == x;
                    assert(names.deep_view()[q] == x);
                    let j = choose|j: int| 0 <= j < i && #[trigger] events.deep_view()[j].agent_name == x;
                    assert(0 <= j < i + 1);
                }
                if x == e.agent_name@ && x.len() > 0 {
                    assert(events.deep_view()[i as int].agent_name == x);
                }
                if x.len() > 0 && exists|j: int| 0 <= j < i + 1 && #[trigger] events.deep_view()[j].agent_name == x {
                    let j = choose|j: int| 0 <= j < i + 1 && #[trigger] events.deep_view()[j].agent_name == x;
                    if j < i {
                        assert(o0.contains(x));
                        let q = choose|q: int| 0 <= q < o0.len() && #[trigger] o0[q] == x;
                        assert(names.deep_view()[q] == x);
                    }
                }
            }
        }
        i += 1;
    }
    sorted_unique(names)
}

/// The clause ids named by the events, sorted and without repeats.
pub fn unique_clauses(events: &[ParsedTraceEvent]) -> (r: Vec<String>)
    ensures
        sorted_seq(r.deep_view()),
        distinct_seq(r.deep_view()),
        forall|x: Seq<char>| #[trigger] r.deep_view().contains(x) <==> exists|i: int|
            0 <= i < events@.len() && #[trigger] events.deep_view()[i].clause_id == Some(x),
{
    let mut ids: Vec<String> = Vec::new();
    let mut i: usize = 0;
    while i < events.len()
        invariant
            i <= events@.len(),
            forall|x: Seq<char>| #[trigger] ids.deep_view().contains(x) <==> exists|j: int|
                0 <= j < i && #[trigger] events.deep_view()[j].clause_id == Some(x),
        decreases events@.len() - i,
    {
        let e = &events[i];
        proof {
            assert(events.deep_view()[i as int] == e.deep_view());
        }
        let ghost o0 = ids.deep_view();
        match &e.clause_id {
            Some(c) => {
                ids.push(c.clone());
                proof {
                    assert(ids.deep_view() =~= o0.push(c@));
                    assert(ids.deep_view()[o0.len() as int] == c@);
                }
            },
            None => {},
        }
        proof {
            assert forall|x: Seq<char>| #[trigger] ids.deep_view().contains(x) <==> exists|j: int|
                0 <= j < i + 1 && #[trigger] events.deep_view()[j].clause_id == Some(x) by {
                if ids.deep_view().contains(x) && !o0.contains(x) {
                    let q = choose|q: int| 0 <= q < ids.deep_view().len() && #[trigger] ids.deep_view()[q] == x;
                    if q < o0.len() {
                        assert(o0[q] == x);
                    }
                    assert(events.deep_view()[i as int].clause_id == Some(x));
                }
                if o0.contains(x) {
                    let q = choose|q: int| 0 <= q < o0.len() && #[trigger] o0[q] == x;
                    assert(ids.deep_view()[q] == x);
                    let j = choose|j: int| 0 <= j < i && #[trigger] events.deep_view()[j].clause_id == Some(x);
                    assert(0 <= j < i + 1);
                }
                if exists|j: int| 0 <= j < i + 1 && #[trigger] events.deep_view()[j].clause_id == Some(x) {
                    let j = choose|j: int| 0 <= j < i + 1 && #[trigger] events.deep_view()[j].clause_id == Some(x);
                    if j < i {
                        assert(o0.contains(x));
                        let q = choose|q: int| 0 <= q < o0.len() && #[trigger] o0[q] == x;
                        assert(ids.deep_view()[q] == x);
                    }
                }
            }
        }
        i += 1;
    }
    sorted_unique(ids)
}

/// How many of the first `n` findings carry the key `k` (`key` gives the
/// key of a finding).
pub open spec fn count_key(fs: Seq<RiskFinding>, key: spec_fn(RiskFinding) -> Seq<char>, k: Seq<char>, n: int) -> nat
    decreases n,
{
    if n <= 0 {
        0
    } else {
        count_key(fs, key, k, n - 1) + if key(fs[n - 1]) == k {
            1nat
        } else {
            0nat
        }
    }
}

/// The agent of a finding.
pub open spec fn agent_key(f: RiskFinding) -> Seq<char> {
    f.agent@
}

/// The name of a severity, as the statistics print it.
pub open spec fn severity_name(s: RiskSeverity) -> Seq<char> {
    match s {
        RiskSeverity::High => "High"@,
        RiskSeverity::Medium => "Medium"@,
        RiskSeverity::Low => "Low"@,
        RiskSeverity::Info => "Info"@,
    }
}

/// The severity name of a finding.
pub open spec fn severity_key(f: RiskFinding) -> Seq<char> {
    severity_name(f.severity)
}

/// The name of a severity.
pub fn severity_text(s: RiskSeverity) -> (r: String)
    ensures
        r@ == severity_name(s),
{
    match s {
        RiskSeverity::High => to_owned_string("High"),
        RiskSeverity::Medium => to_owned_string("Medium"),
        RiskSeverity::Low => to_owned_string("Low"),
        RiskSeverity::Info => to_owned_string("Info"),
    }
}

/// Adds one to the count of `k`.
fn count_one(m: &mut StrMap<usize>, k: &str, bound: usize)
    requires
        old(m).wf(),
        old(m).deep_view().dom().contains(k@) ==> old(m).deep_view()[k@] < bound,
    ensures
        final(m).wf(),
        final(m).deep_view() == old(m).deep_view().insert(
            k@,
            if old(m).deep_view().dom().contains(k@) {
                (old(m).deep_view()[k@] + 1) as usize
            } else {
                1usize
            },
        ),
{
    let cur: usize = match m.get(k) {
        Some(v) => *v,
        None => 0,
    };
    let ghost m0 = m.deep_view();
    m.insert(to_owned_string(k), cur + 1);
    proof {
        assert(m.deep_view() =~= m0.insert(k@, (cur + 1) as usize));
    }
}

/// The number of findings of each agent.
pub fn findings_by_agent(findings: &[RiskFinding]) -> (r: StrMap<usize>)
    ensures
        r.wf(),
        forall|k: Seq<char>| #[trigger] r.deep_view().dom().contains(k) <==> exists|i: int|
            0 <= i < findings@.len() && #[trigger] findings@[i].agent@ == k,
        forall|k: Seq<char>| #[trigger] r.deep_view().dom().contains(k) ==> r.deep_view()[k] == count_key(
            findings@,
            |f: RiskFinding| agent_key(f),
            k,
            findings@.len() as int,
        ),
{
    let ghost key = |f: RiskFinding| agent_key(f);
    let mut m: StrMap<usize> = StrMap::new();
    let mut i: usize = 0;
    while i < findings.len()
        invariant
            m.wf(),
            i <= findings@.len(),
            key == |f: RiskFinding| agent_key(f),
            forall|k: Seq<char>| #[trigger] m.deep_view().dom().contains(k) <==> exists|j: int|
                0 <= j < i && #[trigger] findings@[j].agent@ == k,
            forall|k: Seq<char>| #[trigger] m.deep_view().dom().contains(k) ==> m.deep_view()[k] == count_key(findings@, key, k, i as int),
            forall|k: Seq<char>| #[trigger] count_key(findings@, key, k, i as int) <= i,
        decreases findings@.len() - i,
    {
        let f = &findings[i];
        let ghost m0 = m.deep_view();
        proof {
            assert(count_key(findings@, key, f.agent@, i as int) <= i);
        }
        count_one(&mut m, f.agent.as_str(), i + 1);
        proof {
            assert forall|k: Seq<char>| #[trigger] count_key(findings@, key, k, i + 1) <= i + 1 by {
                assert(count_key(findings@, key, k, i as int) <= i);
            }
            assert forall|k: Seq<char>| #[trigger] m.deep_view().dom().contains(k) <==> exists|j: int|
                0 <= j < i + 1 && #[trigger] findings@[j].agent@ == k by {
                if exists|j: int| 0 <= j < i + 1 && #[trigger] findings@[j].agent@ == k {
                    let j = choose|j: int| 0 <= j < i + 1 && #[trigger] findings@[j].agent@ == k;
                    if j < i {
                        assert(m0.dom().contains(k));
                    }
                }
                if m0.dom().contains(k) {
                    let j = choose|j: int| 0 <= j < i && #[trigger] findings@[j].agent@ == k;
                    assert(0 <= j < i + 1);
                }
                if k == f.agent@ {
                    assert(findings@[i as int].agent@ == k);
                }
            }
            assert forall|k: Seq<char>| #[trigger] m.deep_view().dom().contains(k) implies m.deep_view()[k] == count_key(findings@, key, k, i + 1) by {
                if k != f.agent@ && !m0.dom().contains(k) {
                    assert(false);
                }
                if k == f.agent@ && !m0.dom().contains(k) {
                    assert(count_key(findings@, key, k, i as int) == 0) by {
                        lemma_count_absent(findings@, key, k, i as int);
                    }
                }
            }
        }
        i += 1;
    }
    m
}

/// The number of findings of each severity, keyed by the severity's name.
pub fn findings_by_severity(findings: &[RiskFinding]) -> (r: StrMap<usize>)
    ensures
        r.wf(),
        forall|k: Seq<char>| #[trigger] r.deep_view().dom().contains(k) <==> exists|i: int|
            0 <= i < findings@.len() && #[trigger] severity_name(findings@[i].severity) == k,
        forall|k: Seq<char>| #[trigger] r.deep_view().dom().contains(k) ==> r.deep_view()[k] == count_key(
            findings@,
            |f: RiskFinding| severity_key(f),
            k,
            findings@.len() as int,
        ),
{
    let ghost key = |f: RiskFinding| severity_key(f);
    let mut m: StrMap<usize> = StrMap::new();
    let mut i: usize = 0;
    while i < findings.len()
        invariant
            m.wf(),
            i <= findings@.len(),
            key == |f: RiskFinding| severity_key(f),
            forall|k: Seq<char>| #[trigger] m.deep_view().dom().contains(k) <==> exists|j: int|
                0 <= j < i && #[trigger] severity_name(findings@[j].severity) == k,
            forall|k: Seq<char>| #[trigger] m.deep_view().dom().contains(k) ==> m.deep_view()[k] == count_key(findings@, key, k, i as int),
            forall|k: Seq<char>| #[trigger] count_key(findings@, key, k, i as int) <= i,
        decreases findings@.len() - i,
    {
        let f = &findings[i];
        let name = severity_text(f.severity);
        let ghost m0 = m.deep_view();
        proof {
            assert(count_key(findings@, key, name@, i as int) <= i);
        }
        count_one(&mut m, name.as_str(), i + 1);
        proof {
            assert forall|k: Seq<char>| #[trigger] count_key(findings@, key, k, i + 1) <= i + 1 by {
                assert(count_key(findings@, key, k, i as int) <= i);
            }
            assert forall|k: Seq<char>| #[trigger] m.deep_view().dom().contains(k) <==> exists|j: int|
                0 <= j < i + 1 && #[trigger] severity_name(findings@[j].severity) == k by {
                if exists|j: int| 0 <= j < i + 1 && #[trigger] severity_name(findings@[j].severity) == k {
                    let j = choose|j: int| 0 <= j < i + 1 && #[trigger] severity_name(findings@[j].severity) == k;
                    if j < i {
                        assert(m0.dom().contains(k));
                    }
                }
                if m0.dom().contains(k) {
                    let j = choose|j: int| 0 <= j < i && #[trigger] severity_name(findings@[j].severity) == k;
                    assert(0 <= j < i + 1);
                }
                if k == name@ {
                    assert(severity_name(findings@[i as int].severity) == k);
                }
            }
            assert forall|k: Seq<char>| #[trigger] m.deep_view().dom().contains(k) implies m.deep_view()[k] == count_key(findings@, key, k, i + 1) by {
                if k == name@ && !m0.dom().contains(k) {
                    assert(count_key(findings@, key, k, i as int) == 0) by {
                        lemma_count_absent(findings@, key, k, i as int);
                    }
                }
            }
        }
        i += 1;
    }
    m
}

/// A key that no finding before `n` carries is counted zero times.
pub proof fn lemma_count_absent(fs: Seq<RiskFinding>, key: spec_fn(RiskFinding) -> Seq<char>, k: Seq<char>, n: int)
    requires
        0 <= n <= fs.len(),
        forall|j: int| 0 <= j < n ==> key(#[trigger] fs[j]) != k,
    ensures
        count_key(fs, key, k, n) == 0,
    decreases n,
{
    if n > 0 {
        lemma_count_absent(fs, key, k, n - 1);
    }
}

/// Checks that no agent's conversation leaked into another's. The clauses
/// each agent touched are gathered; no leak rule is applied to them, so the
/// check always passes.
pub fn check_conversation_isolation(events: &[ParsedTraceEvent]) -> (r: Result<(), Vec<String>>)
    ensures
        r is Ok,
{
    let violations: Vec<String> = Vec::new();
    let mut agent_clauses: StrMap<Vec<String>> = StrMap::new();
    let mut i: usize = 0;
    while i < events.len()
        invariant
            agent_clauses.wf(),
            i <= events@.len(),
            violations@.len() == 0,
        decreases events@.len() - i,
    {
        let e = &events[i];
        match &e.clause_id {
            Some(cid) => {
                if crate::text::char_count(cid.as_str()) > 0 {
                    let list: Vec<String> = match agent_clauses.get(e.agent_name.as_str()) {
                        Some(l) => {
                            let mut l2 = l.dup();
                            l2.push(cid.clone());
                            l2
                        },
                        None => vec![cid.clone()],
                    };
                    agent_clauses.insert(e.agent_name.clone(), list);
                }
            },
            None => {},
        }
        i += 1;
    }
    if violations.len() == 0 {
        Ok(())
    } else {
        Err(violations)
    }
}

/// Whether the log contains `pattern`.
pub fn stderr_contains(stderr: &str, pattern: &str) -> (r: bool)
    ensures
        r == contains_seq(stderr@, pattern@),
{
    str_contains(stderr, pattern)
}

/// Cutting `s` into lines from the left: the lines completed so far (each
/// without its `\n` and without a `\r` just before it) and the text of the
/// line being read.
pub open spec fn cut_lines(s: Seq<char>) -> (Seq<Seq<char>>, Seq<char>)
    decreases s.len(),
{
    if s.len() == 0 {
        (Seq::empty(), Seq::empty())
    } else {
        let (done, cur) = cut_lines(s.drop_last());
        if s.last() == '\n' {
            let line = if cur.len() > 0 && cur.last() == '\r' {
                cur.drop_last()
            } else {
                cur
            };
            (done.push(line), Seq::empty())
        } else {
            (done, cur.push(s.last()))
        }
    }
}

/// The lines of `s` as `str::lines` gives them: cut at each `\n`, a `\r`
/// just before it dropped, and no empty line after a final `\n`.
pub open spec fn text_lines(s: Seq<char>) -> Seq<Seq<char>> {
    let (done, cur) = cut_lines(s);
    if cur.len() > 0 {
        done.push(cur)
    } else {
        done
    }
}

/// The lines of `s`.
pub fn lines_of(s: &str) -> (r: Vec<String>)
    ensures
        r.deep_view() == text_lines(s@),
{
    let chars = crate::text::chars_of(s);
    let mut out: Vec<String> = Vec::new();
    let mut cur: Vec<char> = Vec::new();
    let mut i: usize = 0;
    while i < chars.len()
        invariant
            chars@ == s@,
            i <= chars@.len(),
            (out.deep_view(), cur@) == cut_lines(s@.take(i as int)),
        decreases chars@.len() - i,
    {
        let c = chars[i];
        proof {
            assert(s@.take(i + 1).drop_last() =~= s@.take(i as int));
            assert(s@.take(i + 1).last() == c);
        }
        if c == '\n' {
            let n = cur.len();
            let ghost c0 = cur@;
            if n > 0 && cur[n - 1] == '\r' {
                cur.pop();
            }
            let line: String = crate::text::string_from_chars(cur.as_slice());
            let ghost o0 = out.deep_view();
            out.push(line);
            cur = Vec::new();
            proof {
                assert(out.deep_view() =~= o0.push(line@));
            }
        } else {
            cur.push(c);
        }
        i += 1;
    }
    proof {
        assert(s@.take(chars@.len() as int) =~= s@);
    }
    if cur.len() > 0 {
        let ghost o0 = out.deep_view();
        let last = crate::text::string_from_chars(cur.as_slice());
        out.push(last);
        proof {
            assert(out.deep_view() =~= o0.push(cur@));
        }
    }
    out
}

/// What `serde_json` reads from one trace line: the event whose text fields
/// are the line's string fields of those names ("" where absent or not a
/// string), whose turn is its `turn` number (0 where absent), and whose
/// clause id is its `clause_id` string; or the parser's message.
pub uninterp spec fn trace_line(line: Seq<char>) -> Result<EventView, Seq<char>>;

/// Reads one trace line as JSON with `serde_json::from_str` and takes the
/// event's fields from it; on a parse error, the error's text.
#[verifier::external_body]
fn parse_trace_line(line: &str) -> (r: Result<ParsedTraceEvent, String>)
    ensures
        match r {
            Ok(e) => trace_line(line@) == Ok::<EventView, Seq<char>>(e.deep_view()),
            Err(m) => trace_line(line@) == Err::<EventView, Seq<char>>(m@),
        },
{
    match serde_json::from_str::<serde_json::Value>(line) {
        Ok(v) => Ok(ParsedTraceEvent {
            agent_name: v["agent_name"].as_str().unwrap_or("").to_string(),
            event_type: v["event_type"].as_str().unwrap_or("").to_string(),
            turn: v["turn"].as_u64().unwrap_or(0) as u32,
            clause_id: v["clause_id"].as_str().map(|s| s.to_string()),
            summary: v["summary"].as_str().unwrap_or("").to_string(),
            timestamp: v["timestamp"].as_str().unwrap_or("").to_string(),
        }),
        Err(e) => Err(e.to_string()),
    }
}

/// The events of the lines of `ls` from index `i` on: blank lines (after
/// trimming) skipped, each other line read by `trace_line`; the first line
/// that does not read gives the error "行 {n} JSON 非法: {message}", `n`
/// counted from 1.
pub open spec fn trace_from(ls: Seq<Seq<char>>, i: int) -> Result<Seq<EventView>, Seq<char>>
    decreases ls.len() - i,
{
    if i < 0 || i >= ls.len() {
        Ok(Seq::empty())
    } else {
        let t = trim_seq(ls[i]);
        if t.len() == 0 {
            trace_from(ls, i + 1)
        } else {
            match trace_line(t) {
                Err(m) => Err("行 "@ + decimal((i + 1) as nat) + " JSON 非法: "@ + m),
                Ok(ev) => match trace_from(ls, i + 1) {
                    Ok(rest) => Ok(seq![ev] + rest),
                    Err(m) => Err(m),
                },
            }
        }
    }
}

/// `evs` put before the events of `r`, or the error of `r`.
pub open spec fn events_before(evs: Seq<EventView>, r: Result<Seq<EventView>, Seq<char>>) -> Result<Seq<EventView>, Seq<char>> {
    match r {
        Ok(rest) => Ok(evs + rest),
        Err(m) => Err(m),
    }
}

/// The events of a trace text, one JSON object per line (blank lines
/// skipped); refuses the first line that is no JSON, naming its number.
pub fn parse_trace_text(content: &str) -> (r: Result<Vec<ParsedTraceEvent>, String>)
    ensures
        match r {
            Ok(evs) => trace_from(text_lines(content@), 0) == Ok::<Seq<EventView>, Seq<char>>(evs.deep_view()),
            Err(m) => trace_from(text_lines(content@), 0) == Err::<Seq<EventView>, Seq<char>>(m@),
        },
{
    let lines = lines_of(content);
    let ghost ls = lines.deep_view();
    let mut events: Vec<ParsedTraceEvent> = Vec::new();
    let mut i: usize = 0;
    while i < lines.len()
        invariant
            i <= ls.len(),
            ls == lines.deep_view(),
            ls == text_lines(content@),
            trace_from(ls, 0) == events_before(events.deep_view(), trace_from(ls, i as int)),
        decreases ls.len() - i,
    {
        let t = trim_string(lines[i].as_str());
        proof {
            assert(ls[i as int] == lines@[i as int]@);
        }
        if char_count(t.as_str()) == 0 {
            proof {
                assert(trace_from(ls, i as int) == trace_from(ls, i + 1));
            }
        } else {
            match parse_trace_line(t.as_str()) {
                Ok(ev) => {
                    let ghost e0 = events.deep_view();
                    events.push(ev);
                    proof {
                        assert(events.deep_view() =~= e0.push(ev.deep_view()));
                        match trace_from(ls, i + 1) {
                            Ok(rest) => {
                                assert(e0 + (seq![ev.deep_view()] + rest) =~= e0.push(ev.deep_view()) + rest);
                            },
                            Err(m) => {},
                        }
                    }
                },
                Err(e) => {
                    let mut msg = to_owned_string("行 ");
                    push_str(&mut msg, decimal_string(i as u64 + 1).as_str());
                    push_str(&mut msg, " JSON 非法: ");
                    push_str(&mut msg, e.as_str());
                    proof {
                        assert(msg@ =~= "行 "@ + decimal((i + 1) as nat) + " JSON 非法: "@ + e@);
                    }
                    return Err(msg);
                },
            }
        }
        i += 1;
    }
    proof {
        assert(events.deep_view() + Seq::<EventView>::empty() =~= events.deep_view());
    }
    Ok(events)
}

/// What is wrong with a finding of a findings file, if anything: an empty
/// risk id, an empty agent, or no clause ids (checked in that order).
pub open spec fn finding_problem(f: RiskFinding) -> Option<Seq<char>> {
    if f.risk_id@.len() == 0 {
        Some("存在空 risk_id 的 finding"@)
    } else if f.agent@.len() == 0 {
        Some(f.risk_id@ + " agent 为空"@)
    } else if f.clause_ids@.len() == 0 {
        Some(f.risk_id@ + " clause_ids 为空"@)
    } else {
        None
    }
}

/// The problem of the first finding of `fs` from index `i` on that has one.
pub open spec fn first_problem(fs: Seq<RiskFinding>, i: int) -> Option<Seq<char>>
    decreases fs.len() - i,
{
    if i < 0 || i >= fs.len() {
        None
    } else {
        match finding_problem(fs[i]) {
            Some(m) => Some(m),
            None => first_problem(fs, i + 1),
        }
    }
}

/// Checks the required fields of the findings of a findings file: each has
/// a risk id, an agent and at least one clause id; the error names the
/// first finding that lacks one.
pub fn check_finding_fields(findings: &Vec<RiskFinding>) -> (r: Result<(), String>)
    ensures
        match r {
            Ok(()) => first_problem(findings@, 0) is None,
            Err(m) => first_problem(findings@, 0) == Some(m@),
        },
{
    let mut i: usize = 0;
    while i < findings.len()
        invariant
            i <= findings@.len(),
            first_problem(findings@, 0) == first_problem(findings@, i as int),
        decreases findings@.len() - i,
    {
        let f = &findings[i];
        if char_count(f.risk_id.as_str()) == 0 {
            return Err(to_owned_string("存在空 risk_id 的 finding"));
        }
        if char_count(f.agent.as_str()) == 0 {
            let mut m = f.risk_id.clone();
            push_str(&mut m, " agent 为空");
            return Err(m);
        }
        if f.clause_ids.len() == 0 {
            let mut m = f.risk_id.clone();
            push_str(&mut m, " clause_ids 为空");
            return Err(m);
        }
        i += 1;
    }
    Ok(())
}

/// The lines of `ls` that contain `pattern`, in order.
pub open spec fn lines_with(ls: Seq<Seq<char>>, pattern: Seq<char>) -> Seq<Seq<char>>
    decreases ls.len(),
{
    if ls.len() == 0 {
        Seq::empty()
    } else {
        let prev = lines_with(ls.drop_last(), pattern);
        if contains_seq(ls.last(), pattern) {
            prev.push(ls.last())
        } else {
            prev
        }
    }
}

/// The lines of the log that contain `pattern`.
pub fn stderr_lines_matching(stderr: &str, pattern: &str) -> (r: Vec<String>)
    ensures
        r.deep_view() == lines_with(text_lines(stderr@), pattern@),
{
    let ls = lines_of(stderr);
    let mut out: Vec<String> = Vec::new();
    let mut i: usize = 0;
    while i < ls.len()
        invariant
            i <= ls@.len(),
            out.deep_view() == lines_with(ls.deep_view().take(i as int), pattern@),
        decreases ls@.len() - i,
    {
        proof {
            assert(ls.deep_view().take(i + 1).drop_last() =~= ls.deep_view().take(i as int));
            assert(ls.deep_view().take(i + 1).last() == ls@[i as int]@);
        }
        if str_contains(ls[i].as_str(), pattern) {
            let ghost o0 = out.deep_view();
            out.push(ls[i].clone());
            proof {
                assert(out.deep_view() =~= o0.push(ls@[i as int]@));
            }
        }
        i += 1;
    }
    proof {
        assert(ls.deep_view().take(ls@.len() as int) =~= ls.deep_view());
    }
    out
}

/// The first name of `names` (in their order) that `line` contains.
pub open spec fn first_name(line: Seq<char>, names: Seq<Seq<char>>) -> Option<Seq<char>>
    decreases names.len(),
{
    if names.len() == 0 {
        None
    } else {
        let r = first_name(line, names.drop_last());
        if r is Some {
            r
        } else if contains_seq(line, names.last()) {
            Some(names.last())
        } else {
            None
        }
    }
}

/// For each line that names an agent, the first agent it names.
pub open spec fn name_sequence(ls: Seq<Seq<char>>, names: Seq<Seq<char>>) -> Seq<Seq<char>>
    decreases ls.len(),
{
    if ls.len() == 0 {
        Seq::empty()
    } else {
        let prev = name_sequence(ls.drop_last(), names);
        match first_name(ls.last(), names) {
            Some(n) => prev.push(n),
            None => prev,
        }
    }
}

/// How often consecutive names of `s` differ.
pub open spec fn alternations(s: Seq<Seq<char>>) -> nat
    decreases s.len(),
{
    if s.len() < 2 {
        0
    } else {
        alternations(s.drop_last()) + if s.last() != s[s.len() - 2] {
            1nat
        } else {
            0nat
        }
    }
}

/// The first name of `names` that `line` contains.
fn first_name_in(line: &str, names: &[&str]) -> (r: Option<usize>)
    ensures
        match r {
            Some(j) => j < names@.len() && first_name(line@, names@.map_values(|n: &str| n@)) == Some(names@[j as int]@),
            None => first_name(line@, names@.map_values(|n: &str| n@)) is None,
        },
{
    let ghost nv = names@.map_values(|n: &str| n@);
    let mut j: usize = 0;
    while j < names.len()
        invariant
            j <= names@.len(),
            nv == names@.map_values(|n: &str| n@),
            first_name(line@, nv.take(j as int)) is None,
        decreases names@.len() - j,
    {
        proof {
            assert(nv.take(j + 1).drop_last() =~= nv.take(j as int));
            assert(nv.take(j + 1).last() == names@[j as int]@);
        }
        if str_contains(line, names[j]) {
            proof {
                lemma_first_name_prefix(line@, nv, j + 1);
            }
            return Some(j);
        }
        j += 1;
    }
    proof {
        assert(nv.take(names@.len() as int) =~= nv);
    }
    None
}

/// A first name found among the first `n` names stays the first name.
pub proof fn lemma_first_name_prefix(line: Seq<char>, names: Seq<Seq<char>>, n: int)
    requires
        0 <= n <= names.len(),
        first_name(line, names.take(n)) is Some,
    ensures
        first_name(line, names) == first_name(line, names.take(n)),
    decreases names.len() - n,
{
    if n < names.len() {
        assert(names.take(n + 1).drop_last() =~= names.take(n));
        lemma_first_name_prefix(line, names, n + 1);
    } else {
        assert(names.take(n) =~= names);
    }
}

/// Whether the `[EXECUTE]` lines of the log switch between agents at least
/// once (a sign that the agents ran in parallel).
pub fn check_parallel_execution(stderr: &str, agent_names: &[&str]) -> (r: bool)
    ensures
        r == {
            let ls = lines_with(text_lines(stderr@), "[EXECUTE]"@);
            ls.len() >= 2 && alternations(name_sequence(ls, agent_names@.map_values(|n: &str| n@))) >= 1
        },
{
    let ghost nv = agent_names@.map_values(|n: &str| n@);
    let execute_lines = stderr_lines_matching(stderr, "[EXECUTE]");
    if execute_lines.len() < 2 {
        return false;
    }
    let ghost el = execute_lines.deep_view();
    let mut seq_idx: Vec<usize> = Vec::new();
    let ghost mut names_seen: Seq<Seq<char>> = Seq::empty();
    let mut i: usize = 0;
    while i < execute_lines.len()
        invariant
            i <= el.len(),
            el == execute_lines.deep_view(),
            nv == agent_names@.map_values(|n: &str| n@),
            names_seen == name_sequence(el.take(i as int), nv),
            seq_idx@.len() == names_seen.len(),
            forall|q: int| 0 <= q < seq_idx@.len() ==> #[trigger] seq_idx@[q] < agent_names@.len() && agent_names@[seq_idx@[q] as int]@ == names_seen[q],
        decreases el.len() - i,
    {
        proof {
            assert(el.take(i + 1).drop_last() =~= el.take(i as int));
            assert(el.take(i + 1).last() == execute_lines@[i as int]@);
        }
        match first_name_in(execute_lines[i].as_str(), agent_names) {
            Some(j) => {
                seq_idx.push(j);
                proof {
                    names_seen = names_seen.push(agent_names@[j as int]@);
                }
            },
            None => {},
        }
        i += 1;
    }
    proof {
        assert(el.take(el.len() as int) =~= el);
    }
    if seq_idx.len() < 2 {
        return false;
    }
    let mut alternations_count: usize = 0;
    let mut k: usize = 1;
    proof {
        assert(names_seen.take(1).len() == 1);
    }
    while k < seq_idx.len()
        invariant
            1 <= k <= seq_idx@.len(),
            seq_idx@.len() == names_seen.len(),
            forall|q: int| 0 <= q < seq_idx@.len() ==> #[trigger] seq_idx@[q] < agent_names@.len() && agent_names@[seq_idx@[q] as int]@ == names_seen[q],
            alternations_count == alternations(names_seen.take(k as int)),
            alternations_count <= k,
        decreases seq_idx@.len() - k,
    {
        let a = agent_names[seq_idx[k]];
        let b = agent_names[seq_idx[k - 1]];
        proof {
            assert(names_seen.take(k + 1).drop_last() =~= names_seen.take(k as int));
            assert(names_seen.take(k + 1).last() == names_seen[k as int]);
            assert(names_seen.take(k + 1)[k - 1] == names_seen[k - 1]);
        }
        if !str_eq(a, b) {
            alternations_count += 1;
        }
        k += 1;
    }
    proof {
        assert(names_seen.take(names_seen.len() as int) =~= names_seen);
    }
    alternations_count >= 1
}

} // verus!
