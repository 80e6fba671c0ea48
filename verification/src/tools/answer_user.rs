//! `answer_user`: the closing tool of the chat agent.
use vstd::prelude::*;

verus! {

/// The tool through which the chat agent gives its answer; the answer is
/// handed back unchanged.
pub struct AnswerUserTool;

impl AnswerUserTool {
    /// The tool's name.
    pub fn name(&self) -> (r: &'static str)
        ensures
            r@ == "answer_user"@,
    {
        "answer_user"
    }

    /// Hands the answer's arguments back unchanged.
    pub fn execute(&self, args: String) -> (r: String)
        ensures
            r@ == args@,
    {
        args
    }
}

} // verus!
