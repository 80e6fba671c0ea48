use tender_agents::graph_types::{
    AgentId, AgentNode, ChunkNode, FindingRole, FindingState, ReviewAttemptErrorCode,
    ReviewAttemptOutcome, ReviewAttemptStatus, RiskFinding, RiskNode, RiskSeverity, RiskTier,
};
use tender_agents::session_graph::{build_clause_context, working_same_law, GraphSnapshot, SessionGraph};
use tender_agents::strmap::StrMap;

trait ExpectFailure {
    fn expect_failure(self, msg: &str) -> String;
}

impl<T> ExpectFailure for Result<T, String> {
    fn expect_failure(self, msg: &str) -> String {
        match self {
            Ok(_) => panic!("{msg}"),
            Err(e) => e,
        }
    }
}

fn make_test_chunk(id: &str) -> ChunkNode {
    ChunkNode {
        chunk_id: id.to_string(),
        section_path: vec!["测试章节".to_string()],
        page_start: 0,
        page_end: 1,
        text_preview: "测试条款内容...".to_string(),
        tier: RiskTier::Medium,
    }
}

fn make_test_finding(risk_id: &str, chunk_id: &str) -> RiskFinding {
    RiskFinding {
        risk_id: risk_id.to_string(),
        clause_ids: vec![chunk_id.to_string()],
        agent: "TestAgent".to_string(),
        no_risk: false,
        severity: RiskSeverity::High,
        is_critical: false,
        risk_type: "测试风险".to_string(),
        source_quote: "测试原文".to_string(),
        legal_basis: vec!["《测试法》第1条".to_string()],
        reason: "测试理由".to_string(),
        suggestion: "测试建议".to_string(),
        finding_role: FindingRole::Finding,
    }
}

fn make_test_risk(risk_id: &str, chunk_id: &str) -> RiskNode {
    RiskNode {
        finding: make_test_finding(risk_id, chunk_id),
        law_refs: vec!["《测试法》第1条".to_string()],
        state: FindingState::Provisional,
        merged_into: None,
        decision_reason: None,
    }
}

fn strs(v: &[&str]) -> Vec<String> {
    v.iter().map(|s| s.to_string()).collect()
}

fn pairs(v: &[(&str, &str)]) -> StrMap<String> {
    let mut m = StrMap::new();
    for (k, x) in v {
        m.insert(k.to_string(), x.to_string());
    }
    m
}

fn version(s: &GraphSnapshot, chunk_id: &str) -> u64 {
    *s.chunk_versions.get(chunk_id).expect("chunk version")
}

fn versions(s: &GraphSnapshot) -> Vec<(String, u64)> {
    let mut out: Vec<(String, u64)> = s
        .chunk_versions
        .keys()
        .into_iter()
        .map(|k| {
            let v = *s.chunk_versions.get(&k).unwrap();
            (k, v)
        })
        .collect();
    out.sort();
    out
}

fn list(m: &StrMap<Vec<String>>, k: &str) -> Vec<String> {
    m.get(k).cloned().expect("list present")
}

fn finding_text(f: &RiskFinding) -> String {
    format!(
        "{}|{:?}|{}|{}|{:?}|{}|{}|{}|{:?}|{}|{}|{:?}",
        f.risk_id,
        f.clause_ids,
        f.agent,
        f.no_risk,
        f.severity,
        f.is_critical,
        f.risk_type,
        f.source_quote,
        f.legal_basis,
        f.reason,
        f.suggestion,
        f.finding_role
    )
}

/// Renders every part of a snapshot, so that two renderings are equal exactly
/// when the snapshots hold the same data.
fn render(s: &GraphSnapshot) -> String {
    let mut out = String::new();
    for k in s.chunks.keys() {
        let c = s.chunks.get(&k).unwrap();
        out += &format!(
            "chunk {k}: {} {:?} {} {} {} {:?}\n",
            c.chunk_id, c.section_path, c.page_start, c.page_end, c.text_preview, c.tier
        );
    }
    for k in s.risks.keys() {
        let r = s.risks.get(&k).unwrap();
        out += &format!(
            "risk {k}: {} {:?} {:?} {:?} {:?}\n",
            finding_text(&r.finding),
            r.law_refs,
            r.state,
            r.merged_into,
            r.decision_reason
        );
    }
    for (name, m) in [
        ("has_risk", &s.has_risk),
        ("cites", &s.cites),
        ("cited_by", &s.cited_by),
        ("same_law", &s.same_law),
    ] {
        for k in m.keys() {
            out += &format!("{name} {k}: {:?}\n", m.get(&k).unwrap());
        }
    }
    for k in s.reviewed_by.keys() {
        out += &format!("reviewed_by {k}: {:?}\n", s.reviewed_by.get(&k).unwrap());
    }
    for k in s.linked_to.keys() {
        let v: Vec<(String, String)> = s
            .linked_to
            .get(&k)
            .unwrap()
            .iter()
            .map(|l| (l.chunk_id.clone(), l.reason.clone()))
            .collect();
        out += &format!("linked_to {k}: {:?}\n", v);
    }
    for k in s.contradicts.keys() {
        out += &format!("contradicts {k}: {:?}\n", s.contradicts.get(&k).unwrap());
    }
    for a in &s.agents {
        out += &format!("agent {:?} {} {}\n", a.agent_id, a.display_name, a.role);
    }
    for k in s.laws.keys() {
        let l = s.laws.get(&k).unwrap();
        out += &format!("law {k}: {} {} {}\n", l.law_id, l.article_no, l.title);
    }
    for k in s.cases.keys() {
        let c = s.cases.get(&k).unwrap();
        out += &format!("case {k}: {} {}\n", c.case_id, c.title);
    }
    for k in s.review_attempts.keys() {
        let a = s.review_attempts.get(&k).unwrap();
        out += &format!(
            "attempt {k}: {:?} {} {:?} {:?} {:?} {:?} {:?} {} {:?}\n",
            a.agent_id,
            a.chunk_id,
            a.status,
            a.outcome,
            a.finding_ids,
            a.error_code,
            a.error_message,
            a.started_at,
            a.finished_at
        );
    }
    for t in &s.finding_transitions {
        out += &format!(
            "transition {} {:?} {:?} {} {:?} {}\n",
            t.risk_id, t.from, t.to, t.reason, t.merged_into, t.decided_at
        );
    }
    out += &format!("graph_version {}\n", s.graph_version);
    out += &format!("chunk_versions {:?}\n", versions(s));
    out
}

fn add_provisional_risk(graph: &mut SessionGraph, risk_id: &str, chunk_id: &str) {
    graph.add_chunk(make_test_chunk(chunk_id));
    graph
        .upsert_provisional_findings(&vec![make_test_finding(risk_id, chunk_id)])
        .expect("应写入 provisional finding");
}

fn make_finalized_graph() -> SessionGraph {
    let mut graph = SessionGraph::new();
    add_provisional_risk(&mut graph, "R_CONFIRMED", "ch_confirmed");
    add_provisional_risk(&mut graph, "R_MERGED", "ch_merged");
    add_provisional_risk(&mut graph, "R_REJECTED", "ch_rejected");
    graph
        .finalize_audit(
            &vec![make_test_finding("R_CONFIRMED", "ch_confirmed")],
            &pairs(&[("R_MERGED", "R_CONFIRMED")]),
            &pairs(&[("R_REJECTED", "证据不足")]),
        )
        .expect("测试图最终裁决应成功");
    graph
}

#[test]
fn test_add_chunk_and_query() {
    let mut g = SessionGraph::new();
    g.add_chunk(make_test_chunk("ch_001"));
    assert_eq!(g.chunk_count(), 1);

    let ctx = g.query_clause_context("ch_001");
    assert_eq!(ctx.chunk_id, "ch_001");
    assert!(ctx.reviewed_by.is_empty());
    assert!(ctx.risks.is_empty());
}

#[test]
fn test_add_risk_with_edges() {
    let mut g = SessionGraph::new();
    g.add_chunk(make_test_chunk("ch_001"));
    g.add_risk_with_edges(make_test_risk("R_001", "ch_001"), "ch_001");

    let ctx = g.query_clause_context("ch_001");
    assert_eq!(ctx.risks.len(), 1);
    assert_eq!(ctx.risks[0].risk_id, "R_001");
    assert!(ctx.has_prior_risks());
}

#[test]
fn test_reviewed_by() {
    let mut g = SessionGraph::new();
    g.add_chunk(make_test_chunk("ch_001"));
    g.add_reviewed_by("ch_001", AgentId::FactCheck);
    g.add_reviewed_by("ch_001", AgentId::Procedure);
    g.add_reviewed_by("ch_001", AgentId::FactCheck);

    let ctx = g.query_clause_context("ch_001");
    assert_eq!(ctx.reviewed_by.len(), 2);
}

#[test]
fn test_review_attempt_completed_no_risk_counts_as_reviewed() {
    let mut graph = SessionGraph::new();
    graph.add_chunk(make_test_chunk("ch_001"));
    let attempt_id = graph
        .start_review_attempt(AgentId::FactCheck, "ch_001")
        .expect("应创建审查尝试");

    graph
        .complete_review_attempt(&attempt_id, ReviewAttemptOutcome::NoRisk, Vec::new())
        .expect("无风险也应正常完成");

    let snapshot = graph.snapshot();
    let attempt = snapshot.review_attempts.get(&attempt_id).unwrap();
    assert_eq!(attempt.status, ReviewAttemptStatus::Completed);
    assert_eq!(attempt.outcome, Some(ReviewAttemptOutcome::NoRisk));
    assert_eq!(snapshot.reviewed_by.get("ch_001").unwrap(), &vec![AgentId::FactCheck]);
}

#[test]
fn complete_review_attempt_rejects_findings_without_ids() {
    let mut graph = SessionGraph::new();
    graph.add_chunk(make_test_chunk("ch_001"));
    let attempt_id = graph
        .start_review_attempt(AgentId::FactCheck, "ch_001")
        .expect("应创建审查尝试");

    let error = graph
        .complete_review_attempt(&attempt_id, ReviewAttemptOutcome::Findings, Vec::new())
        .expect_failure("Findings 必须通过原子提交接口完成");

    assert!(error.contains("commit_review_result"));
    let snapshot = graph.snapshot();
    assert_eq!(
        snapshot.review_attempts.get(&attempt_id).unwrap().status,
        ReviewAttemptStatus::Started
    );
    assert!(!snapshot.reviewed_by.contains_key("ch_001"));
}

#[test]
fn test_review_attempt_no_risk_rejects_finding_ids() {
    let mut graph = SessionGraph::new();
    graph.add_chunk(make_test_chunk("ch_001"));
    let attempt_id = graph
        .start_review_attempt(AgentId::FactCheck, "ch_001")
        .expect("应创建审查尝试");

    let error = graph
        .complete_review_attempt(&attempt_id, ReviewAttemptOutcome::NoRisk, strs(&["R_001"]))
        .expect_failure("NoRisk 结果不得关联 finding_id");

    assert!(error.contains("finding_ids"));
    let snapshot = graph.snapshot();
    assert_eq!(
        snapshot.review_attempts.get(&attempt_id).unwrap().status,
        ReviewAttemptStatus::Started
    );
    assert!(!snapshot.reviewed_by.contains_key("ch_001"));
}

#[test]
fn complete_review_attempt_rejects_findings_and_keeps_attempt_started() {
    let mut graph = SessionGraph::new();
    graph.add_chunk(make_test_chunk("ch_001"));
    let attempt_id = graph
        .start_review_attempt(AgentId::FactCheck, "ch_001")
        .expect("应创建审查尝试");

    let error = graph
        .complete_review_attempt(&attempt_id, ReviewAttemptOutcome::Findings, strs(&["R_001"]))
        .expect_failure("Findings 必须通过原子提交接口完成");

    let snapshot = graph.snapshot();
    let attempt = snapshot.review_attempts.get(&attempt_id).unwrap();
    assert!(error.contains("commit_review_result"));
    assert_eq!(attempt.status, ReviewAttemptStatus::Started);
    assert!(attempt.outcome.is_none());
    assert!(attempt.finding_ids.is_empty());
    assert!(!snapshot.reviewed_by.contains_key("ch_001"));
}

#[test]
fn test_failed_review_attempt_does_not_count_as_reviewed() {
    let mut graph = SessionGraph::new();
    graph.add_chunk(make_test_chunk("ch_001"));
    let attempt_id = graph
        .start_review_attempt(AgentId::FactCheck, "ch_001")
        .expect("应创建审查尝试");

    graph
        .fail_review_attempt(&attempt_id, ReviewAttemptErrorCode::ClauseTimeout, "条款审查超时")
        .expect("应记录失败");

    let snapshot = graph.snapshot();
    assert_eq!(
        snapshot.review_attempts.get(&attempt_id).unwrap().status,
        ReviewAttemptStatus::Failed
    );
    assert!(!snapshot.reviewed_by.contains_key("ch_001"));
}

#[test]
fn test_reconcile_started_attempts_only_closes_selected_agent_and_chunks() {
    let mut graph = SessionGraph::new();
    let target = graph
        .start_review_attempt(AgentId::FactCheck, "ch_001")
        .expect("应创建目标尝试");
    let untouched = graph
        .start_review_attempt(AgentId::Procedure, "ch_002")
        .expect("应创建非目标尝试");

    let closed = graph
        .fail_started_attempts(
            AgentId::FactCheck,
            &strs(&["ch_001"]),
            ReviewAttemptErrorCode::TaskCancelled,
            "执行阶段取消",
        )
        .expect("应收口目标尝试");

    let snapshot = graph.snapshot();
    assert_eq!(closed, 1);
    assert_eq!(
        snapshot.review_attempts.get(&target).unwrap().status,
        ReviewAttemptStatus::Failed
    );
    assert_eq!(
        snapshot.review_attempts.get(&untouched).unwrap().status,
        ReviewAttemptStatus::Started
    );
}

#[test]
fn test_query_same_law_chunks() {
    let mut g = SessionGraph::new();
    g.add_chunk(make_test_chunk("ch_001"));
    g.add_chunk(make_test_chunk("ch_002"));

    g.add_risk_with_edges(make_test_risk("R_001", "ch_001"), "ch_001");

    let mut risk2 = make_test_risk("R_002", "ch_002");
    risk2.finding.legal_basis = strs(&["《测试法》第1条"]);
    risk2.law_refs = strs(&["《测试法》第1条"]);
    g.add_risk_with_edges(risk2, "ch_002");

    let same_law = g.query_same_law_chunks("《测试法》第1条");
    assert!(same_law.contains(&"ch_001".to_string()));
    assert!(same_law.contains(&"ch_002".to_string()));
}

#[test]
fn test_snapshot() {
    let mut g = SessionGraph::new();
    g.add_chunk(make_test_chunk("ch_001"));
    g.add_risk_with_edges(make_test_risk("R_001", "ch_001"), "ch_001");
    g.add_reviewed_by("ch_001", AgentId::FactCheck);

    let snap = g.snapshot();
    assert_eq!(snap.chunks.len(), 1);
    assert_eq!(snap.risks.len(), 1);
    assert_eq!(snap.has_risk.len(), 1);
    assert_eq!(snap.reviewed_by.len(), 1);
}

#[test]
fn test_snapshot_reads_one_consistent_graph_state() {
    let mut graph = SessionGraph::new();
    graph.add_chunk(make_test_chunk("ch_001"));

    let snapshot = graph.snapshot();

    assert_eq!(snapshot.graph_version, 1);
    assert_eq!(snapshot.chunk_versions.get("ch_001"), Some(&1));
    assert!(snapshot.chunks.contains_key("ch_001"));
}

#[test]
fn commit_review_result_publishes_one_multi_clause_risk_atomically() {
    let mut graph = SessionGraph::new();
    graph.add_chunks(vec![make_test_chunk("ch_001"), make_test_chunk("ch_002")]);
    let attempt_id = graph
        .start_review_attempt(AgentId::FactCheck, "ch_001")
        .expect("应创建尝试");
    let mut finding = make_test_finding("R_001", "ch_001");
    finding.clause_ids = strs(&["ch_001", "ch_002", "ch_002"]);
    finding.legal_basis = strs(&["《测试法》第1条", "《测试法》第1条"]);

    let commit = graph
        .commit_review_result(&attempt_id, ReviewAttemptOutcome::Findings, &vec![finding])
        .expect("应原子提交");
    let snapshot = graph.snapshot();

    assert_eq!(snapshot.risks.len(), 1);
    assert_eq!(snapshot.risks.get("R_001").unwrap().state, FindingState::Provisional);
    assert_eq!(list(&snapshot.has_risk, "ch_001"), strs(&["R_001"]));
    assert_eq!(list(&snapshot.has_risk, "ch_002"), strs(&["R_001"]));
    assert_eq!(list(&snapshot.cites, "R_001"), strs(&["《测试法》第1条"]));
    assert_eq!(list(&snapshot.cited_by, "《测试法》第1条"), strs(&["R_001"]));
    assert_eq!(snapshot.reviewed_by.get("ch_001").unwrap(), &vec![AgentId::FactCheck]);
    assert_eq!(
        snapshot.review_attempts.get(&attempt_id).unwrap().finding_ids,
        strs(&["R_001"])
    );
    assert_eq!(commit.graph_version, snapshot.graph_version);
    assert_eq!(commit.chunk_versions.len(), 2);
}

#[test]
fn invalid_review_commit_rolls_back_every_field_and_version() {
    let mut graph = SessionGraph::new();
    graph.add_chunk(make_test_chunk("ch_001"));
    let attempt_id = graph
        .start_review_attempt(AgentId::FactCheck, "ch_001")
        .expect("应创建尝试");
    let before = graph.snapshot();

    let error = graph
        .commit_review_result(&attempt_id, ReviewAttemptOutcome::Findings, &vec![])
        .expect_failure("空 Findings 必须失败");
    let after = graph.snapshot();

    assert!(error.contains("Findings"));
    assert_eq!(after.graph_version, before.graph_version);
    assert_eq!(after.risks.len(), before.risks.len());
    assert_eq!(render(&after), render(&before));
    assert_eq!(
        after.review_attempts.get(&attempt_id).unwrap().status,
        ReviewAttemptStatus::Started
    );
}

fn assert_terminal_legacy_write_is_noop(write: impl Fn(&mut SessionGraph, &str)) {
    let mut graph = make_finalized_graph();
    for risk_id in ["R_CONFIRMED", "R_MERGED", "R_REJECTED"] {
        let before = render(&graph.snapshot());
        write(&mut graph, risk_id);
        let after = render(&graph.snapshot());
        assert_eq!(after, before, "legacy 写入口不得修改终态 finding {risk_id}");
    }
}

#[test]
fn legacy_public_writes_cannot_mutate_terminal_findings() {
    assert_terminal_legacy_write_is_noop(|graph, risk_id| {
        graph.add_risk(make_test_risk(risk_id, "ch_overwrite"));
    });
    assert_terminal_legacy_write_is_noop(|graph, risk_id| {
        graph.add_has_risk("ch_extra", risk_id);
    });
    assert_terminal_legacy_write_is_noop(|graph, risk_id| {
        graph.add_cites(risk_id, "《新增法》第9条");
    });
    assert_terminal_legacy_write_is_noop(|graph, risk_id| {
        graph.add_risk_with_edges(make_test_risk(risk_id, "ch_overwrite"), "ch_extra");
    });
    assert_terminal_legacy_write_is_noop(|graph, risk_id| {
        let mut risk = make_test_risk(risk_id, "ch_overwrite");
        risk.finding.finding_role = FindingRole::Hypothesis;
        graph.add_hypothesis(risk, "ch_extra");
    });
}

#[test]
fn legacy_add_has_risk_invalidates_existing_same_law_neighbor_versions() {
    let mut graph = SessionGraph::new();
    graph.add_chunks(vec![
        make_test_chunk("ch_a"),
        make_test_chunk("ch_b"),
        make_test_chunk("ch_extra"),
    ]);
    graph.add_risk_with_edges(make_test_risk("R_A", "ch_a"), "ch_a");
    graph.add_risk_with_edges(make_test_risk("R_B", "ch_b"), "ch_b");
    let old_version = version(&graph.snapshot(), "ch_b");
    assert_eq!(graph.query_clause_context("ch_b").same_law_chunks, strs(&["ch_a"]));

    graph.add_has_risk("ch_extra", "R_A");

    let changed = graph
        .query_clause_context_since("ch_b", Some(old_version))
        .expect("新增 has_risk 关系必须使既有同法条邻居版本失效");
    assert_eq!(changed.context.same_law_chunks, strs(&["ch_a", "ch_extra"]));
    assert!(changed.version > old_version);
}

#[test]
fn legacy_add_cites_invalidates_existing_same_law_neighbor_versions() {
    let mut graph = SessionGraph::new();
    graph.add_chunks(vec![make_test_chunk("ch_a"), make_test_chunk("ch_b")]);
    let mut risk_a = make_test_risk("R_A", "ch_a");
    risk_a.finding.legal_basis = strs(&["《另一测试法》第2条"]);
    graph.add_risk_with_edges(risk_a, "ch_a");
    graph.add_risk_with_edges(make_test_risk("R_B", "ch_b"), "ch_b");
    let old_version = version(&graph.snapshot(), "ch_b");
    assert!(graph.query_clause_context("ch_b").same_law_chunks.is_empty());

    graph.add_cites("R_A", "《测试法》第1条");

    let changed = graph
        .query_clause_context_since("ch_b", Some(old_version))
        .expect("新增 cites 关系必须使既有同法条邻居版本失效");
    assert_eq!(changed.context.same_law_chunks, strs(&["ch_a"]));
    assert!(changed.version > old_version);
}

#[test]
fn provisional_upsert_invalidates_legacy_indexed_same_law_neighbors() {
    let mut graph = SessionGraph::new();
    graph.add_chunks(vec![
        make_test_chunk("ch_a"),
        make_test_chunk("ch_legacy"),
        make_test_chunk("ch_b"),
    ]);
    graph.add_risk_with_edges(make_test_risk("R_A", "ch_a"), "ch_a");
    graph.add_has_risk("ch_legacy", "R_A");
    let old_version = version(&graph.snapshot(), "ch_legacy");
    assert_eq!(graph.query_clause_context("ch_legacy").same_law_chunks, strs(&["ch_a"]));

    graph
        .upsert_provisional_findings(&vec![make_test_finding("R_B", "ch_b")])
        .expect("正常 provisional 提交应成功");

    let changed = graph
        .query_clause_context_since("ch_legacy", Some(old_version))
        .expect("正常提交必须使兼容索引中的既有同法条邻居版本失效");
    assert_eq!(changed.context.same_law_chunks, strs(&["ch_a", "ch_b"]));
    assert!(changed.version > old_version);
}

#[test]
fn provisional_upsert_invalidates_preindexed_direct_alias_without_law() {
    let mut graph = SessionGraph::new();
    graph.add_chunks(vec![make_test_chunk("ch_primary"), make_test_chunk("ch_alias")]);
    graph.add_has_risk("ch_alias", "R_NEW");
    let old_version = version(&graph.snapshot(), "ch_alias");
    let mut finding = make_test_finding("R_NEW", "ch_primary");
    finding.legal_basis.clear();

    graph
        .upsert_provisional_findings(&vec![finding])
        .expect("正常 provisional 提交应成功");

    let changed = graph
        .query_clause_context_since("ch_alias", Some(old_version))
        .expect("新增风险节点必须使预建的直接索引别名版本失效");
    assert_eq!(changed.context.risks[0].risk_id, "R_NEW");
    assert!(changed.version > old_version);
}

fn assert_legacy_node_overwrite_invalidates_peer(label: &str, write: impl Fn(&mut SessionGraph, RiskNode)) {
    let mut graph = SessionGraph::new();
    graph.add_chunks(vec![make_test_chunk("ch_a"), make_test_chunk("ch_b")]);
    graph.add_risk_with_edges(make_test_risk("R_A", "ch_a"), "ch_a");
    graph.add_risk_with_edges(make_test_risk("R_B", "ch_b"), "ch_b");
    let old_version = version(&graph.snapshot(), "ch_b");
    let mut hypothesis = make_test_risk("R_A", "ch_a");
    hypothesis.finding.finding_role = FindingRole::Hypothesis;

    write(&mut graph, hypothesis);

    let changed = graph
        .query_clause_context_since("ch_b", Some(old_version))
        .unwrap_or_else(|| panic!("{label} 改变风险可见性后必须使邻居版本失效"));
    assert!(changed.context.same_law_chunks.is_empty(), "{label}");
    assert!(changed.version > old_version, "{label}");
}

#[test]
fn legacy_node_overwrites_invalidate_same_law_neighbor_versions() {
    assert_legacy_node_overwrite_invalidates_peer("add_risk", |graph, risk| {
        graph.add_risk(risk);
    });
    assert_legacy_node_overwrite_invalidates_peer("add_risk_with_edges", |graph, risk| {
        graph.add_risk_with_edges(risk, "ch_a");
    });
    assert_legacy_node_overwrite_invalidates_peer("add_hypothesis", |graph, risk| {
        graph.add_hypothesis(risk, "ch_a");
    });
}

fn assert_legacy_node_overwrite_invalidates_direct_alias(
    label: &str,
    write: impl Fn(&mut SessionGraph, RiskNode),
) {
    let mut graph = SessionGraph::new();
    graph.add_chunks(vec![make_test_chunk("ch_primary"), make_test_chunk("ch_alias")]);
    let mut original = make_test_risk("R_ALIAS", "ch_primary");
    original.finding.legal_basis.clear();
    graph.add_risk_with_edges(original, "ch_primary");
    graph.add_has_risk("ch_alias", "R_ALIAS");
    let old_version = version(&graph.snapshot(), "ch_alias");
    let mut replacement = make_test_risk("R_ALIAS", "ch_primary");
    replacement.finding.legal_basis.clear();
    replacement.finding.reason = format!("{label} 更新后的理由");

    write(&mut graph, replacement);

    let changed = graph
        .query_clause_context_since("ch_alias", Some(old_version))
        .unwrap_or_else(|| panic!("{label} 覆盖风险内容后必须使直接索引别名版本失效"));
    assert_eq!(changed.context.risks[0].reason, format!("{label} 更新后的理由"));
    assert!(changed.version > old_version, "{label}");
}

#[test]
fn legacy_node_overwrites_invalidate_direct_alias_versions() {
    assert_legacy_node_overwrite_invalidates_direct_alias("add_risk", |graph, risk| {
        graph.add_risk(risk);
    });
    assert_legacy_node_overwrite_invalidates_direct_alias("add_risk_with_edges", |graph, risk| {
        graph.add_risk_with_edges(risk, "ch_primary");
    });
    assert_legacy_node_overwrite_invalidates_direct_alias("add_hypothesis", |graph, mut risk| {
        risk.finding.finding_role = FindingRole::Hypothesis;
        graph.add_hypothesis(risk, "ch_primary");
    });
}

fn assert_invalid_legacy_risk_node_is_noop(write: impl Fn(&mut SessionGraph, RiskNode)) {
    for existing_provisional in [false, true] {
        let mut variants: Vec<RiskNode> = Vec::new();
        for state in [FindingState::Confirmed, FindingState::Merged, FindingState::Rejected] {
            let mut risk = make_test_risk("R_TEST", "ch_extra");
            risk.state = state;
            variants.push(risk);
        }
        let mut risk = make_test_risk("R_TEST", "ch_extra");
        risk.merged_into = Some("R_TARGET".to_string());
        variants.push(risk);
        let mut risk = make_test_risk("R_TEST", "ch_extra");
        risk.decision_reason = Some("伪造裁决".to_string());
        variants.push(risk);
        for mut invalid_node in variants {
            let mut graph = SessionGraph::new();
            graph.add_chunk(make_test_chunk("ch_extra"));
            if existing_provisional {
                add_provisional_risk(&mut graph, "R_EXISTING", "ch_existing");
                invalid_node.finding.risk_id = "R_EXISTING".to_string();
            } else {
                invalid_node.finding.risk_id = "R_NEW".to_string();
            }
            let before = render(&graph.snapshot());

            write(&mut graph, invalid_node);
            let after = render(&graph.snapshot());

            assert_eq!(after, before, "兼容入口不得接收携带终态或裁决元数据的 RiskNode");
        }
    }
}

#[test]
fn legacy_risk_node_writes_reject_forged_terminal_state_and_decision_metadata() {
    assert_invalid_legacy_risk_node_is_noop(|graph, risk| graph.add_risk(risk));
    assert_invalid_legacy_risk_node_is_noop(|graph, risk| {
        graph.add_risk_with_edges(risk, "ch_extra");
    });
    assert_invalid_legacy_risk_node_is_noop(|graph, risk| {
        graph.add_hypothesis(risk, "ch_extra");
    });
}

#[test]
fn finalize_audit_confirms_latest_finding_and_rebuilds_risk_indexes() {
    let mut graph = SessionGraph::new();
    add_provisional_risk(&mut graph, "R_001", "ch_001");
    graph.add_chunk(make_test_chunk("ch_002"));
    let before = graph.snapshot();
    let mut final_finding = make_test_finding("R_001", "ch_002");
    final_finding.severity = RiskSeverity::Medium;
    final_finding.reason = "最终裁决理由".to_string();
    final_finding.legal_basis = strs(&["《最终法》第2条"]);

    let commit = graph
        .finalize_audit(&vec![final_finding], &StrMap::new(), &StrMap::new())
        .expect("最终裁决应成功");
    let snapshot = graph.snapshot();
    let node = snapshot.risks.get("R_001").unwrap();

    assert_eq!(node.state, FindingState::Confirmed);
    assert_eq!(node.finding.severity, RiskSeverity::Medium);
    assert_eq!(node.finding.reason, "最终裁决理由");
    assert_eq!(node.finding.legal_basis, strs(&["《最终法》第2条"]));
    assert_eq!(node.law_refs, strs(&["《最终法》第2条"]));
    assert!(!snapshot.has_risk.contains_key("ch_001"));
    assert_eq!(list(&snapshot.has_risk, "ch_002"), strs(&["R_001"]));
    assert!(
        !snapshot.cites.contains_key("R_001")
            || !list(&snapshot.cites, "R_001").contains(&"《测试法》第1条".to_string())
    );
    assert_eq!(list(&snapshot.cites, "R_001"), strs(&["《最终法》第2条"]));
    assert_eq!(list(&snapshot.cited_by, "《最终法》第2条"), strs(&["R_001"]));
    assert!(!snapshot.cited_by.contains_key("《测试法》第1条"));
    assert!(!snapshot.laws.contains_key("《测试法》第1条"));
    assert!(snapshot.laws.contains_key("《最终法》第2条"));
    assert_eq!(snapshot.finding_transitions.len(), 1);
    assert_eq!(commit.graph_version, before.graph_version + 1);
    assert_eq!(version(&snapshot, "ch_001"), version(&before, "ch_001") + 1);
    assert_eq!(version(&snapshot, "ch_002"), version(&before, "ch_002") + 1);
}

#[test]
fn finalize_audit_removes_stale_same_law_edges_after_basis_changes() {
    let mut graph = SessionGraph::new();
    add_provisional_risk(&mut graph, "R_001", "ch_001");
    add_provisional_risk(&mut graph, "R_002", "ch_002");
    let before = graph.snapshot();
    assert_eq!(list(&before.same_law, "ch_001"), strs(&["ch_002"]));
    assert_eq!(list(&before.same_law, "ch_002"), strs(&["ch_001"]));
    let mut final_finding = make_test_finding("R_001", "ch_001");
    final_finding.legal_basis = strs(&["《最终法》第2条"]);

    graph
        .finalize_audit(&vec![final_finding], &StrMap::new(), &StrMap::new())
        .expect("最终裁决应成功");
    let snapshot = graph.snapshot();

    assert!(!snapshot.same_law.contains_key("ch_001"));
    assert!(!snapshot.same_law.contains_key("ch_002"));
    assert_eq!(list(&snapshot.cited_by, "《测试法》第1条"), strs(&["R_002"]));
    assert_eq!(list(&snapshot.cited_by, "《最终法》第2条"), strs(&["R_001"]));
    assert_eq!(version(&snapshot, "ch_001"), version(&before, "ch_001") + 1);
    assert_eq!(version(&snapshot, "ch_002"), version(&before, "ch_002") + 1);
}

#[test]
fn finalize_audit_records_merged_rejected_and_leaves_undecided_provisional() {
    let mut graph = SessionGraph::new();
    add_provisional_risk(&mut graph, "R_TARGET", "ch_target");
    add_provisional_risk(&mut graph, "R_MERGED", "ch_merged");
    add_provisional_risk(&mut graph, "R_REJECTED", "ch_rejected");
    add_provisional_risk(&mut graph, "R_UNDECIDED", "ch_undecided");

    graph
        .finalize_audit(
            &vec![make_test_finding("R_TARGET", "ch_target")],
            &pairs(&[("R_MERGED", "R_TARGET")]),
            &pairs(&[("R_REJECTED", "证据不足")]),
        )
        .expect("混合裁决应成功");
    let snapshot = graph.snapshot();
    let risk = |id: &str| snapshot.risks.get(id).unwrap();

    assert_eq!(risk("R_TARGET").state, FindingState::Confirmed);
    assert_eq!(risk("R_MERGED").state, FindingState::Merged);
    assert_eq!(risk("R_MERGED").merged_into.as_deref(), Some("R_TARGET"));
    assert_eq!(risk("R_MERGED").decision_reason.as_deref(), Some("合并至 R_TARGET"));
    assert_eq!(risk("R_REJECTED").state, FindingState::Rejected);
    assert_eq!(risk("R_REJECTED").decision_reason.as_deref(), Some("证据不足"));
    assert_eq!(risk("R_UNDECIDED").state, FindingState::Provisional);
    assert_eq!(snapshot.finding_transitions.len(), 3);
    assert!(snapshot.finding_transitions.iter().any(|transition| {
        transition.risk_id == "R_MERGED"
            && transition.from == FindingState::Provisional
            && transition.to == FindingState::Merged
            && transition.reason == "合并至 R_TARGET"
            && transition.merged_into.as_deref() == Some("R_TARGET")
            && !transition.decided_at.is_empty()
    }));
}

#[test]
fn clause_context_excludes_same_law_edges_created_by_rejected_risks() {
    let mut graph = SessionGraph::new();
    add_provisional_risk(&mut graph, "R_CONFIRMED", "ch_confirmed");
    add_provisional_risk(&mut graph, "R_REJECTED", "ch_rejected");

    graph
        .finalize_audit(
            &vec![make_test_finding("R_CONFIRMED", "ch_confirmed")],
            &StrMap::new(),
            &pairs(&[("R_REJECTED", "证据不足")]),
        )
        .expect("最终裁决应成功");

    let snapshot = graph.snapshot();
    assert_eq!(list(&snapshot.same_law, "ch_confirmed"), strs(&["ch_rejected"]));
    assert!(graph.query_clause_context("ch_confirmed").same_law_chunks.is_empty());
    assert_eq!(graph.query_same_law_chunks("《测试法》第1条"), strs(&["ch_confirmed"]));
    assert!(graph.query_same_law_edges("ch_confirmed").is_empty());
}

#[test]
fn finalization_invalidates_working_same_law_neighbor_version() {
    let mut graph = SessionGraph::new();
    add_provisional_risk(&mut graph, "R_A", "ch_a");
    add_provisional_risk(&mut graph, "R_B", "ch_b");
    let old_version = version(&graph.snapshot(), "ch_a");
    assert_eq!(graph.query_clause_context("ch_a").same_law_chunks, strs(&["ch_b"]));

    graph
        .finalize_audit(&vec![], &StrMap::new(), &pairs(&[("R_B", "证据不足")]))
        .expect("最终裁决应成功");

    let changed = graph
        .query_clause_context_since("ch_a", Some(old_version))
        .expect("工作态邻居消失必须使相邻条款版本失效");
    assert!(changed.context.same_law_chunks.is_empty());
    assert!(changed.version > old_version);
}

#[test]
fn working_same_law_respects_finding_lifecycle_and_role() {
    let mut graph = SessionGraph::new();
    add_provisional_risk(&mut graph, "R_A", "ch_a");
    add_provisional_risk(&mut graph, "R_B", "ch_b");
    add_provisional_risk(&mut graph, "R_TARGET", "ch_target");
    add_provisional_risk(&mut graph, "R_MERGED", "ch_merged");
    graph.add_chunk(make_test_chunk("ch_hypothesis"));
    let mut hypothesis = make_test_risk("R_HYPOTHESIS", "ch_hypothesis");
    hypothesis.finding.finding_role = FindingRole::Hypothesis;
    graph.add_hypothesis(hypothesis, "ch_hypothesis");

    let provisional = graph.snapshot();
    assert_eq!(working_same_law(&provisional, "ch_a"), strs(&["ch_b", "ch_merged", "ch_target"]));
    assert!(working_same_law(&provisional, "ch_hypothesis").is_empty());

    graph
        .finalize_audit(
            &vec![
                make_test_finding("R_A", "ch_a"),
                make_test_finding("R_B", "ch_b"),
                make_test_finding("R_TARGET", "ch_target"),
            ],
            &pairs(&[("R_MERGED", "R_TARGET")]),
            &StrMap::new(),
        )
        .expect("最终裁决应成功");

    let confirmed = graph.snapshot();
    assert_eq!(working_same_law(&confirmed, "ch_a"), strs(&["ch_b", "ch_target"]));
    assert!(working_same_law(&confirmed, "ch_merged").is_empty());
    assert!(working_same_law(&confirmed, "ch_hypothesis").is_empty());
}

#[test]
fn working_same_law_uses_transactional_clause_indexes_as_source_of_truth() {
    let mut graph = SessionGraph::new();
    graph.add_chunks(vec![
        make_test_chunk("ch_primary"),
        make_test_chunk("ch_unindexed"),
        make_test_chunk("ch_peer"),
    ]);
    let mut multi_clause_risk = make_test_risk("R_MULTI", "ch_primary");
    multi_clause_risk.finding.clause_ids = strs(&["ch_primary", "ch_unindexed"]);
    graph.add_risk_with_edges(multi_clause_risk, "ch_primary");
    graph.add_risk_with_edges(make_test_risk("R_PEER", "ch_peer"), "ch_peer");

    let snapshot = graph.snapshot();

    assert_eq!(working_same_law(&snapshot, "ch_primary"), strs(&["ch_peer"]));
    assert_eq!(working_same_law(&snapshot, "ch_peer"), strs(&["ch_primary"]));
    assert!(working_same_law(&snapshot, "ch_unindexed").is_empty());
    assert!(!graph
        .query_same_law_chunks("《测试法》第1条")
        .contains(&"ch_unindexed".to_string()));
    assert!(graph
        .query_clause_context("ch_peer")
        .same_law_chunks
        .iter()
        .all(|chunk_id| chunk_id != "ch_unindexed"));
}

#[test]
fn clause_context_ignores_risks_missing_from_transactional_indexes() {
    let mut graph = SessionGraph::new();
    add_provisional_risk(&mut graph, "R_INDEXED", "ch_indexed");
    graph.add_chunk(make_test_chunk("ch_orphan"));
    let mut state = graph.snapshot();
    state.risks.insert("R_ORPHAN".to_string(), make_test_risk("R_ORPHAN", "ch_orphan"));

    let context = build_clause_context(&state, "ch_indexed");

    assert!(context.same_law_chunks.is_empty());
}

#[test]
fn finalize_audit_invalid_batch_rolls_back_all_state_and_versions() {
    let mut graph = SessionGraph::new();
    add_provisional_risk(&mut graph, "R_001", "ch_001");
    add_provisional_risk(&mut graph, "R_002", "ch_002");
    let before = graph.snapshot();

    let error = graph
        .finalize_audit(
            &vec![make_test_finding("R_001", "ch_001")],
            &pairs(&[("R_002", "R_MISSING")]),
            &StrMap::new(),
        )
        .expect_failure("非法合并目标必须失败");
    assert!(error.contains("目标"));
    let after_missing = graph.snapshot();
    assert_eq!(after_missing.graph_version, before.graph_version);
    assert_eq!(after_missing.finding_transitions.len(), 0);
    assert_eq!(after_missing.risks.get("R_001").unwrap().state, FindingState::Provisional);

    let error = graph
        .finalize_audit(
            &vec![make_test_finding("R_001", "ch_001")],
            &pairs(&[("R_002", "R_001")]),
            &pairs(&[("R_002", "重复归类")]),
        )
        .expect_failure("裁决集合冲突必须失败");
    assert!(error.contains("互斥"));
    let after_conflict = graph.snapshot();
    assert_eq!(after_conflict.graph_version, before.graph_version);
    assert!(after_conflict.finding_transitions.is_empty());
}

#[test]
fn finalize_audit_rejects_final_finding_without_clause_ids_atomically() {
    let mut graph = SessionGraph::new();
    add_provisional_risk(&mut graph, "R_001", "ch_001");
    let mut final_finding = make_test_finding("R_001", "ch_001");
    final_finding.clause_ids.clear();
    let before = graph.snapshot();

    let error = graph
        .finalize_audit(&vec![final_finding], &StrMap::new(), &StrMap::new())
        .expect_failure("最终 finding 缺少 clause_ids 必须失败");
    let after = graph.snapshot();

    assert!(error.contains("clause_ids"));
    assert_eq!(after.graph_version, before.graph_version);
    assert_eq!(versions(&after), versions(&before));
    assert_eq!(after.risks.get("R_001").unwrap().state, FindingState::Provisional);
    assert!(after.finding_transitions.is_empty());
}

#[test]
fn finalize_audit_rejects_blank_final_clause_id_atomically() {
    let mut graph = SessionGraph::new();
    add_provisional_risk(&mut graph, "R_001", "ch_001");
    let mut final_finding = make_test_finding("R_001", "ch_001");
    final_finding.clause_ids = strs(&[" \t "]);
    let before = render(&graph.snapshot());

    let error = graph
        .finalize_audit(&vec![final_finding], &StrMap::new(), &StrMap::new())
        .expect_failure("最终 finding 的空白 clause_id 必须失败");
    let after = render(&graph.snapshot());

    assert!(error.contains("clause_id"));
    assert_eq!(after, before);
}

#[test]
fn finalize_audit_rejects_missing_final_clause_atomically() {
    let mut graph = SessionGraph::new();
    add_provisional_risk(&mut graph, "R_001", "ch_001");
    let mut final_finding = make_test_finding("R_001", "ch_001");
    final_finding.clause_ids = strs(&["ch_missing"]);
    let before = render(&graph.snapshot());

    let error = graph
        .finalize_audit(&vec![final_finding], &StrMap::new(), &StrMap::new())
        .expect_failure("最终 finding 引用不存在条款必须失败");
    let after = render(&graph.snapshot());

    assert!(error.contains("不存在"));
    assert_eq!(after, before);
}

#[test]
fn finalize_audit_rejects_invalid_clause_references_on_decision_sources() {
    for (source_id, clause_id, is_merged) in [("R_MERGED", " \t ", true), ("R_REJECTED", "ch_missing", false)] {
        let mut graph = SessionGraph::new();
        add_provisional_risk(&mut graph, "R_TARGET", "ch_target");
        graph.add_risk_with_edges(make_test_risk(source_id, clause_id), clause_id);
        let before = render(&graph.snapshot());
        let merged = if is_merged { pairs(&[(source_id, "R_TARGET")]) } else { StrMap::new() };
        let rejected = if is_merged { StrMap::new() } else { pairs(&[(source_id, "证据不足")]) };

        let error = graph
            .finalize_audit(&vec![make_test_finding("R_TARGET", "ch_target")], &merged, &rejected)
            .expect_failure("裁决源 finding 的非法条款引用必须失败");
        let after = render(&graph.snapshot());

        assert!(error.contains("clause_id") || error.contains("不存在"));
        assert_eq!(after, before);
    }
}

#[test]
fn finalize_audit_rejects_hypothesis_final_finding_atomically() {
    let mut graph = SessionGraph::new();
    add_provisional_risk(&mut graph, "R_001", "ch_001");
    let mut final_finding = make_test_finding("R_001", "ch_001");
    final_finding.finding_role = FindingRole::Hypothesis;
    let before = render(&graph.snapshot());

    let error = graph
        .finalize_audit(&vec![final_finding], &StrMap::new(), &StrMap::new())
        .expect_failure("Hypothesis 不得成为 confirmed finding");
    let after = render(&graph.snapshot());

    assert!(error.contains("Hypothesis"));
    assert_eq!(after, before);
}

#[test]
fn clause_context_excludes_merged_and_rejected_terminal_history() {
    let mut graph = SessionGraph::new();
    graph.add_chunk(make_test_chunk("ch_shared"));
    for risk_id in ["R_CONFIRMED", "R_MERGED", "R_REJECTED", "R_PROVISIONAL"] {
        graph
            .upsert_provisional_findings(&vec![make_test_finding(risk_id, "ch_shared")])
            .expect("应写入 provisional finding");
    }
    graph
        .finalize_audit(
            &vec![make_test_finding("R_CONFIRMED", "ch_shared")],
            &pairs(&[("R_MERGED", "R_CONFIRMED")]),
            &pairs(&[("R_REJECTED", "证据不足")]),
        )
        .expect("最终裁决应成功");

    let mut risk_ids: Vec<String> = graph
        .query_clause_context("ch_shared")
        .risks
        .into_iter()
        .map(|finding| finding.risk_id)
        .collect();
    risk_ids.sort();

    assert_eq!(risk_ids, strs(&["R_CONFIRMED", "R_PROVISIONAL"]));
}

#[test]
fn finalize_audit_records_transitions_in_risk_id_order() {
    let mut graph = SessionGraph::new();
    for risk_id in ["R_Z", "R_A", "R_M"] {
        add_provisional_risk(&mut graph, risk_id, &format!("ch_{risk_id}"));
    }

    graph
        .finalize_audit(
            &vec![make_test_finding("R_Z", "ch_R_Z")],
            &pairs(&[("R_A", "R_Z")]),
            &pairs(&[("R_M", "证据不足")]),
        )
        .expect("最终裁决应成功");
    let transition_ids: Vec<String> = graph
        .snapshot()
        .finding_transitions
        .into_iter()
        .map(|transition| transition.risk_id)
        .collect();

    assert_eq!(transition_ids, strs(&["R_A", "R_M", "R_Z"]));
}

#[test]
fn finalize_audit_rejects_blank_rejection_reason_atomically() {
    let mut graph = SessionGraph::new();
    add_provisional_risk(&mut graph, "R_001", "ch_001");
    let before = graph.snapshot();

    let error = graph
        .finalize_audit(&vec![], &StrMap::new(), &pairs(&[("R_001", " \t ")]))
        .expect_failure("空白 rejected reason 必须失败");
    let after = graph.snapshot();

    assert!(error.contains("原因"));
    assert_eq!(after.graph_version, before.graph_version);
    assert_eq!(versions(&after), versions(&before));
    assert_eq!(after.risks.get("R_001").unwrap().state, FindingState::Provisional);
    assert!(after.finding_transitions.is_empty());
}

#[test]
fn finalize_audit_rejects_retry_that_omits_existing_terminal_findings() {
    let mut graph = SessionGraph::new();
    add_provisional_risk(&mut graph, "R_001", "ch_001");
    add_provisional_risk(&mut graph, "R_002", "ch_002");
    graph
        .finalize_audit(
            &vec![make_test_finding("R_001", "ch_001"), make_test_finding("R_002", "ch_002")],
            &StrMap::new(),
            &StrMap::new(),
        )
        .expect("首次完整裁决应成功");
    let before = graph.snapshot();

    let error = graph
        .finalize_audit(&vec![make_test_finding("R_001", "ch_001")], &StrMap::new(), &StrMap::new())
        .expect_failure("重试遗漏已有 confirmed finding 必须失败");
    let after = graph.snapshot();

    assert!(error.contains("完整"));
    assert_eq!(after.graph_version, before.graph_version);
    assert_eq!(versions(&after), versions(&before));
    assert_eq!(after.finding_transitions.len(), before.finding_transitions.len());
    assert_eq!(after.risks.get("R_001").unwrap().state, FindingState::Confirmed);
    assert_eq!(after.risks.get("R_002").unwrap().state, FindingState::Confirmed);
}

#[test]
fn finalize_audit_terminal_conflict_rolls_back_whole_retry_batch() {
    let mut graph = SessionGraph::new();
    add_provisional_risk(&mut graph, "R_001", "ch_001");
    add_provisional_risk(&mut graph, "R_002", "ch_002");
    graph
        .finalize_audit(&vec![make_test_finding("R_001", "ch_001")], &StrMap::new(), &StrMap::new())
        .expect("首次确认应成功");
    let before = graph.snapshot();
    let mut changed = make_test_finding("R_001", "ch_001");
    changed.reason = "冲突的新理由".to_string();

    let error = graph
        .finalize_audit(&vec![changed], &StrMap::new(), &pairs(&[("R_002", "本应回滚")]))
        .expect_failure("已确认内容变化必须整批失败");
    assert!(error.contains("内容不同"));
    let after = graph.snapshot();
    assert_eq!(after.graph_version, before.graph_version);
    assert_eq!(after.finding_transitions.len(), before.finding_transitions.len());
    assert_eq!(after.risks.get("R_002").unwrap().state, FindingState::Provisional);
}

#[test]
fn finalize_audit_identical_retry_is_idempotent() {
    let mut graph = SessionGraph::new();
    add_provisional_risk(&mut graph, "R_TARGET", "ch_target");
    add_provisional_risk(&mut graph, "R_MERGED", "ch_merged");
    add_provisional_risk(&mut graph, "R_REJECTED", "ch_rejected");
    let merged = pairs(&[("R_MERGED", "R_TARGET")]);
    let rejected = pairs(&[("R_REJECTED", "误报")]);
    graph
        .finalize_audit(&vec![make_test_finding("R_TARGET", "ch_target")], &merged, &rejected)
        .expect("首次裁决应成功");
    let before_retry = graph.snapshot();

    let commit = graph
        .finalize_audit(&vec![make_test_finding("R_TARGET", "ch_target")], &merged, &rejected)
        .expect("相同裁决重试应成功");
    let after_retry = graph.snapshot();

    assert_eq!(commit.graph_version, before_retry.graph_version);
    assert!(commit.chunk_versions.is_empty());
    assert_eq!(after_retry.graph_version, before_retry.graph_version);
    assert_eq!(versions(&after_retry), versions(&before_retry));
    assert_eq!(after_retry.finding_transitions.len(), before_retry.finding_transitions.len());
}

#[test]
fn no_risk_commit_completes_attempt_without_risk_node() {
    let mut graph = SessionGraph::new();
    graph.add_chunk(make_test_chunk("ch_001"));
    let attempt_id = graph
        .start_review_attempt(AgentId::Procedure, "ch_001")
        .expect("应创建尝试");

    graph
        .commit_review_result(&attempt_id, ReviewAttemptOutcome::NoRisk, &vec![])
        .expect("NoRisk 应成功");
    let snapshot = graph.snapshot();

    assert!(snapshot.risks.is_empty());
    assert_eq!(snapshot.reviewed_by.get("ch_001").unwrap(), &vec![AgentId::Procedure]);
    assert_eq!(
        snapshot.review_attempts.get(&attempt_id).unwrap().outcome,
        Some(ReviewAttemptOutcome::NoRisk)
    );
}

#[test]
fn failed_attempt_changes_only_its_chunk_version_and_never_coverage() {
    let mut graph = SessionGraph::new();
    graph.add_chunk(make_test_chunk("ch_001"));
    let attempt_id = graph
        .start_review_attempt(AgentId::Procedure, "ch_001")
        .expect("应创建尝试");
    let before = version(&graph.snapshot(), "ch_001");

    graph
        .fail_review_attempt(&attempt_id, ReviewAttemptErrorCode::TaskPanic, "模拟任务异常")
        .expect("应收口失败尝试");
    let snapshot = graph.snapshot();

    assert_eq!(version(&snapshot, "ch_001"), before + 1);
    assert!(!snapshot.reviewed_by.contains_key("ch_001"));
    assert!(snapshot.risks.is_empty());
}

#[test]
fn repeated_edge_and_identical_upsert_writes_remain_unique() {
    let mut graph = SessionGraph::new();
    graph.add_chunks(vec![make_test_chunk("ch_001"), make_test_chunk("ch_002")]);
    graph.add_linked_to("ch_001", "ch_002", "同类风险");
    graph.add_linked_to("ch_001", "ch_002", "同类风险");
    graph.add_contradicts("ch_001", "ch_002", "要求冲突");
    graph.add_contradicts("ch_001", "ch_002", "要求冲突");

    graph
        .upsert_provisional_findings(&vec![make_test_finding("R_001", "ch_001")])
        .expect("首次写入应成功");
    let before_retry = graph.snapshot();
    graph
        .upsert_provisional_findings(&vec![make_test_finding("R_001", "ch_001")])
        .expect("相同重试应幂等成功");
    let after_retry = graph.snapshot();

    assert_eq!(after_retry.linked_to.get("ch_001").unwrap().len(), 1);
    assert_eq!(after_retry.contradicts.get("ch_001").unwrap().len(), 1);
    assert_eq!(after_retry.contradicts.get("ch_002").unwrap().len(), 1);
    assert_eq!(list(&after_retry.has_risk, "ch_001"), strs(&["R_001"]));
    assert_eq!(after_retry.graph_version, before_retry.graph_version);
}

#[test]
fn clause_context_since_returns_only_after_version_change() {
    let mut graph = SessionGraph::new();
    graph.add_chunk(make_test_chunk("ch_001"));
    let first = graph
        .query_clause_context_since("ch_001", None)
        .expect("首次读取必须返回上下文");

    assert!(graph.query_clause_context_since("ch_001", Some(first.version)).is_none());

    let attempt_id = graph
        .start_review_attempt(AgentId::FactCheck, "ch_001")
        .expect("应创建尝试");
    graph
        .commit_review_result(&attempt_id, ReviewAttemptOutcome::NoRisk, &vec![])
        .expect("应完成尝试");
    let changed = graph
        .query_clause_context_since("ch_001", Some(first.version))
        .expect("条款变化后必须返回新上下文");

    assert!(changed.version > first.version);
    assert_eq!(changed.context.reviewed_by, vec![AgentId::FactCheck]);
}

#[test]
fn test_add_contradicts_bidirectional() {
    let mut g = SessionGraph::new();
    g.add_chunk(make_test_chunk("ch_A"));
    g.add_chunk(make_test_chunk("ch_B"));

    g.add_contradicts("ch_A", "ch_B", "条款矛盾：A允许联合体，B禁止分包");

    let a_contra = g.query_contradictions("ch_A");
    assert_eq!(a_contra.len(), 1);
    assert_eq!(a_contra[0].0, "ch_B");
    assert!(a_contra[0].1.contains("A允许联合体"));

    let b_contra = g.query_contradictions("ch_B");
    assert_eq!(b_contra.len(), 1);
    assert_eq!(b_contra[0].0, "ch_A");
    assert!(b_contra[0].1.contains("A允许联合体"));
}

#[test]
fn test_add_contradicts_multi_accumulate() {
    let mut g = SessionGraph::new();
    g.add_chunk(make_test_chunk("ch_A"));
    g.add_chunk(make_test_chunk("ch_B"));
    g.add_chunk(make_test_chunk("ch_C"));

    g.add_contradicts("ch_A", "ch_B", "矛盾1");
    g.add_contradicts("ch_A", "ch_C", "矛盾2");

    assert_eq!(g.query_contradictions("ch_A").len(), 2);
    assert_eq!(g.query_contradictions("ch_B").len(), 1);
    assert_eq!(g.query_contradictions("ch_C").len(), 1);
}

#[test]
fn test_query_contradictions_empty_for_unknown_chunk() {
    let g = SessionGraph::new();
    let result = g.query_contradictions("no_such_chunk");
    assert!(result.is_empty());
}

#[test]
fn test_add_agent_and_snapshot() {
    let mut g = SessionGraph::new();
    g.add_agent(AgentNode {
        agent_id: AgentId::FactCheck,
        display_name: "事实核查Agent".into(),
        role: "事实核查".into(),
    });
    g.add_agent(AgentNode {
        agent_id: AgentId::SemanticRisk,
        display_name: "隐性风险识别Agent".into(),
        role: "隐性风险".into(),
    });

    let snap = g.snapshot();
    assert_eq!(snap.agents.len(), 2);
    assert!(snap.agent(AgentId::FactCheck).is_some());
    assert!(snap.agent(AgentId::SemanticRisk).is_some());
    assert_eq!(snap.agent(AgentId::FactCheck).unwrap().display_name, "事实核查Agent");
}

#[test]
fn test_snapshot_includes_all_new_fields() {
    let mut g = SessionGraph::new();
    g.add_chunk(make_test_chunk("ch_001"));
    g.add_risk_with_edges(make_test_risk("R_001", "ch_001"), "ch_001");
    g.add_reviewed_by("ch_001", AgentId::FactCheck);
    g.add_agent(AgentNode {
        agent_id: AgentId::FactCheck,
        display_name: "测试".into(),
        role: "测试".into(),
    });
    g.add_contradicts("ch_001", "ch_002", "测试矛盾");

    let snap = g.snapshot();
    assert_eq!(snap.chunks.len(), 1);
    assert_eq!(snap.risks.len(), 1);
    assert!(!snap.agents.is_empty(), "snapshot 应包含 agents");
    assert!(!snap.laws.is_empty(), "snapshot 应包含 laws（legal_basis 自动写入）");
    assert!(snap.cases.is_empty(), "snapshot cases 应为空（未写入）");
    assert!(!snap.contradicts.is_empty(), "snapshot 应包含 contradicts");
    assert!(snap.same_law.is_empty(), "snapshot 应包含 same_law 字段（可能为空）");
}

#[test]
fn test_clause_context_includes_contradictions() {
    let mut g = SessionGraph::new();
    g.add_chunk(make_test_chunk("ch_001"));
    g.add_chunk(make_test_chunk("ch_003"));
    g.add_contradicts("ch_001", "ch_003", "条款矛盾测试");

    let ctx = g.query_clause_context("ch_001");
    assert_eq!(ctx.contradictions.len(), 1);
    assert_eq!(ctx.contradictions[0].chunk_id, "ch_003");
    assert_eq!(ctx.contradictions[0].reason, "条款矛盾测试");
}

#[test]
fn test_law_node_auto_created_on_risk() {
    let mut g = SessionGraph::new();
    g.add_chunk(make_test_chunk("ch_001"));
    g.add_risk_with_edges(make_test_risk("R_001", "ch_001"), "ch_001");

    let snap = g.snapshot();
    assert!(snap.laws.contains_key("《测试法》第1条"));
    assert_eq!(snap.laws.get("《测试法》第1条").unwrap().law_id, "《测试法》第1条");
}
