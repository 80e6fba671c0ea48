use tender_agents::tools::answer_user::AnswerUserTool;
use tender_agents::tools::output_finding::OutputFindingTool;
use tender_agents::tools::output_verification_batch::OutputVerificationBatchTool;

#[test]
fn test_name() {
    let tool = OutputVerificationBatchTool;
    assert_eq!(tool.name(), "output_verification_batch");
}

#[test]
fn test_execute_always_returns_received() {
    let tool = OutputVerificationBatchTool;
    assert_eq!(tool.execute(), "batch_verification_received");
}

#[test]
fn terminal_tools_pass_arguments_through() {
    let args = "{\"answer\":\"可以\"}".to_string();
    assert_eq!(AnswerUserTool.execute(args.clone()), args);
    assert_eq!(OutputFindingTool.execute(args.clone()), args);
    assert_eq!(AnswerUserTool.name(), "answer_user");
    assert_eq!(OutputFindingTool.name(), "output_finding");
}
