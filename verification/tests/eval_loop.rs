use tender_agents::tools::eval_cases::{ToolCallRecord, WebSearchPolicy};
use tender_agents::tools::eval_loop::{
    case_start, case_step, first_success_index, max_rounds_for, offered_tools, pending_index, CaseLoopAction,
    CaseLoopEvent,
};

fn rec(name: &str, status: &str) -> ToolCallRecord {
    ToolCallRecord {
        sequence: 1,
        tool_name: name.to_string(),
        raw_arguments: "{}".to_string(),
        argument_json_valid: true,
        schema_valid: true,
        execution_status: status.to_string(),
        error: None,
    }
}

#[test]
fn case_loop_runs_tools_then_finishes() {
    let (s, a) = case_start(max_rounds_for(0, 3), 1);
    assert_eq!(a, CaseLoopAction::CallModel);
    assert_eq!(s.round, 1);
    let (s, a) = case_step(s, CaseLoopEvent::ModelFailed);
    assert_eq!(a, CaseLoopAction::WaitAndRetry);
    let (s, a) = case_step(s, CaseLoopEvent::ModelReplied { tool_calls: 2 });
    assert_eq!(a, CaseLoopAction::RunTools);
    let (s, a) = case_step(s, CaseLoopEvent::ToolsDone);
    assert_eq!(a, CaseLoopAction::CallModel);
    assert_eq!((s.round, s.attempt), (2, 0));
    let (_, a) = case_step(s, CaseLoopEvent::ModelReplied { tool_calls: 0 });
    assert_eq!(a, CaseLoopAction::Finish);
}

#[test]
fn case_loop_gives_up_and_stops_at_limit() {
    let (s, _) = case_start(1, 0);
    let (_, a) = case_step(s, CaseLoopEvent::ModelFailed);
    assert_eq!(a, CaseLoopAction::GiveUp);
    let (s, _) = case_step(s, CaseLoopEvent::ModelReplied { tool_calls: 1 });
    let (_, a) = case_step(s, CaseLoopEvent::ToolsDone);
    assert_eq!(a, CaseLoopAction::StopExceeded);
    let (_, a) = case_start(0, 0);
    assert_eq!(a, CaseLoopAction::StopExceeded);
}

#[test]
fn offered_tools_follow_the_web_search_policy() {
    let tools = vec!["verify_bid_deposit".to_string(), "web_search".to_string()];
    assert_eq!(offered_tools(&tools, WebSearchPolicy::Disabled), vec!["verify_bid_deposit".to_string()]);
    assert_eq!(offered_tools(&tools, WebSearchPolicy::Enabled), tools);
    assert_eq!(offered_tools(&tools, WebSearchPolicy::Stubbed).len(), 3);
}

#[test]
fn pending_and_success_indexes() {
    let calls = vec![rec("a", "error"), rec("b", "pending"), rec("b", "success")];
    assert_eq!(pending_index(&calls, "b"), Some(1));
    assert_eq!(pending_index(&calls, "a"), None);
    assert_eq!(first_success_index(&calls), Some(2));
}
