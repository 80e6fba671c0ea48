use tender_agents::graph_types::{FindingRole, RiskFinding, RiskSeverity};
use tender_agents::testing::{check_finding_fields, check_parallel_execution, check_timestamps_monotonic, parse_trace_text};
use tender_agents::tools::scoring_rules::{contains_dimension, detect_keywords, detect_quantification_issues, get_required_dimensions};

#[test]
fn parse_trace_text_reads_events_and_skips_blank_lines() {
    let text = "{\"agent_name\":\"Procedure\",\"event_type\":\"llm_call\",\"turn\":2,\"clause_id\":\"ch_001\",\"summary\":\"s1\",\"timestamp\":\"2025-01-01T00:00:00Z\"}\n\n  {\"agent_name\":\"Scoring\",\"turn\":1}\n";
    let events = parse_trace_text(text).unwrap();
    assert_eq!(events.len(), 2);
    assert_eq!(events[0].agent_name, "Procedure");
    assert_eq!(events[0].turn, 2);
    assert_eq!(events[0].clause_id.as_deref(), Some("ch_001"));
    assert_eq!(events[1].agent_name, "Scoring");
    assert_eq!(events[1].event_type, "");
    assert!(events[1].clause_id.is_none());
}

#[test]
fn parse_trace_text_names_the_bad_line() {
    let text = "{\"agent_name\":\"A\"}\nnot json\n";
    let err = parse_trace_text(text).unwrap_err();
    assert!(err.starts_with("行 2 JSON 非法: "), "{}", err);
}

#[test]
fn parallel_execution_needs_one_alternation() {
    let names = ["AgentA", "AgentB"];
    assert!(check_parallel_execution("[EXECUTE] AgentA start\n[EXECUTE] AgentB start", &names));
    assert!(!check_parallel_execution("[EXECUTE] AgentA start\n[EXECUTE] AgentA end", &names));
    assert!(!check_parallel_execution("[EXECUTE] AgentA start", &names));
}

#[test]
fn timestamps_going_back_name_the_pair() {
    let events = parse_trace_text(
        "{\"timestamp\":\"2\",\"summary\":\"a\"}\n{\"timestamp\":\"1\",\"summary\":\"b\"}\n",
    )
    .unwrap();
    let err = check_timestamps_monotonic(&events).unwrap_err();
    assert_eq!(err, "timestamp 回退: 2 → 1 (events: a → b)");
}

fn finding(risk_id: &str, agent: &str, clauses: &[&str]) -> RiskFinding {
    RiskFinding {
        risk_id: risk_id.to_string(),
        clause_ids: clauses.iter().map(|c| c.to_string()).collect(),
        agent: agent.to_string(),
        no_risk: false,
        severity: RiskSeverity::High,
        is_critical: false,
        risk_type: "t".to_string(),
        source_quote: "q".to_string(),
        legal_basis: vec![],
        reason: "r".to_string(),
        suggestion: "s".to_string(),
        finding_role: FindingRole::Finding,
    }
}

#[test]
fn finding_fields_are_checked_in_order() {
    assert!(check_finding_fields(&vec![finding("R_001", "Procedure", &["ch_001"])]).is_ok());
    assert_eq!(
        check_finding_fields(&vec![finding("", "Procedure", &["ch_001"])]).unwrap_err(),
        "存在空 risk_id 的 finding"
    );
    assert_eq!(
        check_finding_fields(&vec![finding("R_001", "A", &["c"]), finding("R_002", "", &["c"])]).unwrap_err(),
        "R_002 agent 为空"
    );
    assert_eq!(check_finding_fields(&vec![finding("R_003", "A", &[])]).unwrap_err(), "R_003 clause_ids 为空");
}

#[test]
fn scoring_rules_detect_keywords_and_grades() {
    let k = detect_keywords("技术方案由评委酌情打分，满意程度优秀");
    assert_eq!(k, {
        let mut v = vec!["评委酌情".to_string(), "酌情打分".to_string(), "满意程度".to_string(), "满意".to_string(), "优秀".to_string()];
        v.sort();
        v
    });
    let issues = detect_quantification_issues("技术方案分为优良中差四档");
    assert_eq!(issues.len(), 1);
    assert!(issues[0].contains("'优良中差'"));
    assert!(detect_quantification_issues("优秀得10分，良好得6分").is_empty());
    let dims = get_required_dimensions("工程").unwrap();
    assert_eq!(dims.len(), 2);
    assert_eq!(dims[1].0, "技术");
    assert_eq!(get_required_dimensions("其他").unwrap_err(), "不支持的采购品类 '其他'，有效值为: 货物/工程/服务");
    assert!(contains_dimension(&vec!["投标报价".to_string()], &dims[0].1));
    assert!(!contains_dimension(&vec!["售后".to_string()], &dims[0].1));
}
