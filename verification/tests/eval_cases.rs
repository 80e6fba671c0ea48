use tender_agents::tools::eval_cases::{
    aggregate, eval_environment, judge_calls, record_adoption, judge_adoption, CaseResult, ToolCallRecord, production_smoke_cases, AdoptionVerdict, Expectation, ExpectedArg, Metric,
    WebSearchPolicy,
};

#[test]
fn dataset_14_cases_alignment() {
    let cases = production_smoke_cases();
    assert_eq!(cases.len(), 14);
    let required = cases.iter().filter(|c| c.expectation == Expectation::Required).count();
    let preferred = cases.iter().filter(|c| c.expectation == Expectation::Preferred).count();
    let negative = cases.iter().filter(|c| c.expectation == Expectation::Negative).count();
    assert_eq!((required, preferred, negative), (11, 1, 2));
    for c in cases.iter().filter(|c| c.expectation == Expectation::Negative) {
        assert!(c.expected_tool.is_none());
    }
    let p2a = cases.iter().find(|c| c.case_id == "proc_002a").unwrap();
    assert!(p2a
        .expected_key_args
        .iter()
        .any(|a| a.key == "period_type" && a.value.as_deref() == Some("notice_publication")));
    let p5 = cases.iter().find(|c| c.case_id == "proc_005").unwrap();
    assert_eq!(p5.expected_tool.as_deref(), Some("calculate_timeline"));
    for a in &p5.expected_key_args {
        assert!(a.key != "constraints" && a.key != "min_days" && a.key != "legal_basis");
    }
    let leaky = cases
        .iter()
        .filter(|c| {
            (c.case_id == "proc_001" && c.clause.contains("投标保证金"))
                || (c.case_id == "score_002" && c.clause.contains("权重分配"))
        })
        .count();
    assert_eq!(leaky, 2);
}

#[test]
fn adoption_verdicts() {
    assert_eq!(judge_adoption("该条款合规", "compliant"), AdoptionVerdict::Consistent);
    assert_eq!(judge_adoption("该条款不合规", "OK"), AdoptionVerdict::Contradicted);
    assert_eq!(judge_adoption("无相关结论", "violation"), AdoptionVerdict::Ignored);
    assert_eq!(judge_adoption("存在超标", "Violation"), AdoptionVerdict::Consistent);
    assert_eq!(judge_adoption("符合要求", "violation"), AdoptionVerdict::Contradicted);
    assert_eq!(judge_adoption("合规", "calculated"), AdoptionVerdict::Unknown);
    assert_eq!(judge_adoption("该条款不合规", "violation"), AdoptionVerdict::Consistent);
    assert_eq!(judge_adoption("不符合要求", "compliant"), AdoptionVerdict::Contradicted);
}

#[test]
fn expected_args_and_metrics() {
    let a = ExpectedArg::presence("period_type");
    assert!(a.value.is_none());
    let b = ExpectedArg::value("price_weight", "70");
    assert_eq!(b.value.as_deref(), Some("70"));
    let m = Metric::new(3, 4);
    assert_eq!((m.numerator, m.denominator), (3, 4));
    assert_eq!(eval_environment(WebSearchPolicy::Stubbed).web_search, "stubbed (deterministic stub)");
}

fn call(name: &str) -> ToolCallRecord {
    ToolCallRecord {
        sequence: 1,
        tool_name: name.to_string(),
        raw_arguments: "{}".to_string(),
        argument_json_valid: true,
        schema_valid: true,
        execution_status: "success".to_string(),
        error: None,
    }
}

fn result(case_id: &str, e: Expectation, tool: Option<&str>, calls: Vec<ToolCallRecord>) -> CaseResult {
    let selected = tool.is_some() && calls.iter().any(|c| Some(c.tool_name.as_str()) == tool);
    CaseResult {
        run_id: "run_1".to_string(),
        case_id: case_id.to_string(),
        agent_id: "Procedure".to_string(),
        expectation: e,
        expected_tool: tool.map(|t| t.to_string()),
        expected_key_args_count: 1,
        present_key_args_count: if selected { 1 } else { 0 },
        model: "m".to_string(),
        prompt_variant: "production".to_string(),
        selected_expected_tool: selected,
        wrong_tool: !calls.is_empty() && !selected && e != Expectation::Negative,
        false_call: e == Expectation::Negative && !calls.is_empty(),
        argument_schema_valid: true,
        execution_success: true,
        adoption_evaluable: !calls.is_empty(),
        result_adopted: selected,
        tool_result_consistency: if selected { "consistent".to_string() } else { "ignored".to_string() },
        final_response: Some("完成。".to_string()),
        tool_round_count: calls.len(),
        max_tool_rounds_exceeded: false,
        token_usage: None,
        error: None,
        tool_calls: calls,
    }
}

#[test]
fn aggregate_counts_metrics() {
    let results = vec![
        result("offline_001", Expectation::Required, Some("verify_bid_deposit"), vec![call("verify_bid_deposit")]),
        result("offline_002", Expectation::Required, Some("verify_bid_deposit"), vec![call("validate_scoring_formula")]),
        result("offline_003", Expectation::Negative, None, vec![]),
    ];
    let s = aggregate(&results);
    assert_eq!(s.case_count, 3);
    assert_eq!((s.required_recall.numerator, s.required_recall.denominator), (1, 2));
    assert_eq!((s.wrong_tool_rate.numerator, s.wrong_tool_rate.denominator), (1, 2));
    assert_eq!((s.false_call_rate.numerator, s.false_call_rate.denominator), (0, 1));
    assert_eq!((s.tool_precision.numerator, s.tool_precision.denominator), (1, 2));
    assert_eq!((s.expected_key_arg_recall.numerator, s.expected_key_arg_recall.denominator), (1, 1));
    assert_eq!((s.final_tool_consistency_rate.numerator, s.final_tool_consistency_rate.denominator), (1, 2));
    assert_eq!((s.argument_json_valid_rate.numerator, s.argument_json_valid_rate.denominator), (2, 2));
    assert_eq!(s.run_id, "run_1");
    assert_eq!(s.git_revision, "unavailable");
}

#[test]
fn judge_calls_marks_selection_and_wrong_tools() {
    let calls = vec![call("verify_bid_deposit"), call("calculate_timeline")];
    let v = judge_calls(Expectation::Required, &Some("verify_bid_deposit".to_string()), &calls);
    assert!(v.selected_expected_tool && !v.wrong_tool && !v.false_call && v.argument_schema_valid && v.execution_success);
    let v = judge_calls(Expectation::Required, &Some("verify_bid_deposit".to_string()), &vec![call("calculate_timeline")]);
    assert!(!v.selected_expected_tool && v.wrong_tool);
    let v = judge_calls(Expectation::Negative, &None, &vec![call("calculate_timeline")]);
    assert!(v.false_call && !v.wrong_tool);
    let v = judge_calls(Expectation::Negative, &None, &vec![]);
    assert!(!v.false_call && !v.execution_success);
    assert_eq!(record_adoption(AdoptionVerdict::Ignored), (true, false, "ignored".to_string()));
}
