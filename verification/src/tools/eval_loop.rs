//! The decisions of the loop that runs one evaluation case against a model:
//! how many rounds, which tools are offered, when to retry the model, when
//! to run the requested tools and when to stop; and the bookkeeping of the
//! recorded calls. The runner performs each action and reports the event.
use vstd::prelude::*;

use crate::text::{str_eq, to_owned_string};
use crate::tools::eval_cases::{ToolCallRecord, WebSearchPolicy};

verus! {

/// Where the loop of a case stands.
#[derive(Debug, Clone, Copy, PartialEq, Eq, Structural)]
pub struct CaseLoopState {
    /// Rounds started so far.
    pub round: usize,
    /// Rounds allowed.
    pub max_rounds: usize,
    /// Failed model calls in the current round.
    pub attempt: u32,
    /// Failed model calls allowed per round.
    pub retry_limit: u32,
}

/// What the runner saw.
#[derive(Debug, Clone, Copy, PartialEq, Eq, Structural)]
pub enum CaseLoopEvent {
    /// The model call failed.
    ModelFailed,
    /// The model replied, asking for this many tool calls.
    ModelReplied { tool_calls: usize },
    /// The requested tools were run and their results handed back.
    ToolsDone,
}

/// What the runner does next.
#[derive(Debug, Clone, Copy, PartialEq, Eq, Structural)]
pub enum CaseLoopAction {
    /// Call the model.
    CallModel,
    /// Wait, then call the model again.
    WaitAndRetry,
    /// Give the case up: the model kept failing.
    GiveUp,
    /// Run the requested tools.
    RunTools,
    /// The model answered without tools: its text is the final answer.
    Finish,
    /// The round limit is reached.
    StopExceeded,
}

/// The rounds allowed: the configured number, or the agent's default when
/// none is configured.
pub open spec fn rounds_allowed(configured: usize, agent_default: usize) -> usize {
    if configured > 0 {
        configured
    } else {
        agent_default
    }
}

/// The rounds allowed, as `rounds_allowed` says.
pub fn max_rounds_for(configured: usize, agent_default: usize) -> (r: usize)
    ensures
        r == rounds_allowed(configured, agent_default),
{
    if configured > 0 {
        configured
    } else {
        agent_default
    }
}

/// Starting a round from `s`: stop once the limit is reached, else the
/// next round with no failed call yet, calling the model.
pub open spec fn next_round(s: CaseLoopState) -> (CaseLoopState, CaseLoopAction) {
    if s.round >= s.max_rounds {
        (s, CaseLoopAction::StopExceeded)
    } else {
        (CaseLoopState { round: (s.round + 1) as usize, attempt: 0, ..s }, CaseLoopAction::CallModel)
    }
}

/// The start of a case.
pub open spec fn loop_start(max_rounds: usize, retry_limit: u32) -> (CaseLoopState, CaseLoopAction) {
    next_round(CaseLoopState { round: 0, max_rounds, attempt: 0, retry_limit })
}

/// The step of the loop from `s` on event `ev`: a failed model call is
/// retried until the round's failures pass the limit; a reply without tool
/// calls finishes the case; a reply with tool calls runs them; after the
/// tools, the next round starts.
pub open spec fn loop_step(s: CaseLoopState, ev: CaseLoopEvent) -> (CaseLoopState, CaseLoopAction) {
    match ev {
        CaseLoopEvent::ModelFailed => if s.attempt >= s.retry_limit {
            (s, CaseLoopAction::GiveUp)
        } else {
            (CaseLoopState { attempt: (s.attempt + 1) as u32, ..s }, CaseLoopAction::WaitAndRetry)
        },
        CaseLoopEvent::ModelReplied { tool_calls } => if tool_calls == 0 {
            (s, CaseLoopAction::Finish)
        } else {
            (s, CaseLoopAction::RunTools)
        },
        CaseLoopEvent::ToolsDone => next_round(s),
    }
}

fn start_round(s: CaseLoopState) -> (r: (CaseLoopState, CaseLoopAction))
    ensures
        r == next_round(s),
{
    if s.round >= s.max_rounds {
        (s, CaseLoopAction::StopExceeded)
    } else {
        (CaseLoopState { round: s.round + 1, attempt: 0, ..s }, CaseLoopAction::CallModel)
    }
}

/// The state and first action of a case with `max_rounds` rounds and
/// `retry_limit` retries per round.
pub fn case_start(max_rounds: usize, retry_limit: u32) -> (r: (CaseLoopState, CaseLoopAction))
    ensures
        r == loop_start(max_rounds, retry_limit),
{
    start_round(CaseLoopState { round: 0, max_rounds, attempt: 0, retry_limit })
}

/// The next state and action of the loop, as `loop_step` says.
pub fn case_step(s: CaseLoopState, ev: CaseLoopEvent) -> (r: (CaseLoopState, CaseLoopAction))
    ensures
        r == loop_step(s, ev),
{
    match ev {
        CaseLoopEvent::ModelFailed => {
            if s.attempt >= s.retry_limit {
                (s, CaseLoopAction::GiveUp)
            } else {
                (CaseLoopState { attempt: s.attempt + 1, ..s }, CaseLoopAction::WaitAndRetry)
            }
        },
        CaseLoopEvent::ModelReplied { tool_calls } => {
            if tool_calls == 0 {
                (s, CaseLoopAction::Finish)
            } else {
                (s, CaseLoopAction::RunTools)
            }
        },
        CaseLoopEvent::ToolsDone => start_round(s),
    }
}

/// The tools offered to the model: the agent's tools, without the web
/// search when it is disabled, with a web search appended when it is
/// stubbed.
pub open spec fn offered(agent_tools: Seq<Seq<char>>, policy: WebSearchPolicy) -> Seq<Seq<char>> {
    let kept = agent_tools.filter(|t: Seq<char>| !(t == "web_search"@ && policy == WebSearchPolicy::Disabled));
    if policy == WebSearchPolicy::Stubbed {
        kept.push("web_search"@)
    } else {
        kept
    }
}

/// The tools offered to the model, as `offered` says.
pub fn offered_tools(agent_tools: &Vec<String>, policy: WebSearchPolicy) -> (r: Vec<String>)
    ensures
        r.deep_view() == offered(agent_tools.deep_view(), policy),
{
    let ghost tv = agent_tools.deep_view();
    let ghost keep = |t: Seq<char>| !(t == "web_search"@ && policy == WebSearchPolicy::Disabled);
    let mut out: Vec<String> = Vec::new();
    let mut i: usize = 0;
    while i < agent_tools.len()
        invariant
            i <= tv.len(),
            tv == agent_tools.deep_view(),
            keep == (|t: Seq<char>| !(t == "web_search"@ && policy == WebSearchPolicy::Disabled)),
            out.deep_view() == tv.take(i as int).filter(keep),
        decreases tv.len() - i,
    {
        let t = &agent_tools[i];
        proof {
            assert(tv[i as int] == t@);
            assert(tv.take(i + 1) =~= tv.take(i as int).push(t@));
            tv.take(i as int).lemma_filter_push(t@, keep);
        }
        let drop = str_eq(t.as_str(), "web_search") && policy == WebSearchPolicy::Disabled;
        if !drop {
            let ghost o = out.deep_view();
            out.push(t.clone());
            proof {
                assert(out.deep_view() =~= o.push(t@));
            }
        }
        i += 1;
    }
    proof {
        assert(tv.take(tv.len() as int) =~= tv);
    }
    if policy == WebSearchPolicy::Stubbed {
        let ghost o = out.deep_view();
        out.push(to_owned_string("web_search"));
        proof {
            assert(out.deep_view() =~= o.push("web_search"@));
        }
    }
    out
}

/// The first recorded call of tool `name` still waiting for its result.
pub open spec fn first_pending(calls: Seq<ToolCallRecord>, name: Seq<char>, i: int) -> Option<usize>
    decreases calls.len() - i,
{
    if i < 0 || i >= calls.len() {
        None
    } else if calls[i].tool_name@ == name && calls[i].execution_status@ == "pending"@ {
        Some(i as usize)
    } else {
        first_pending(calls, name, i + 1)
    }
}

/// The index of the first recorded call of tool `name` still waiting for
/// its result, where the result of a run of that tool is filled in.
pub fn pending_index(calls: &Vec<ToolCallRecord>, name: &str) -> (r: Option<usize>)
    ensures
        r == first_pending(calls@, name@, 0),
{
    let mut i: usize = 0;
    while i < calls.len()
        invariant
            i <= calls@.len(),
            first_pending(calls@, name@, 0) == first_pending(calls@, name@, i as int),
        decreases calls@.len() - i,
    {
        if str_eq(calls[i].tool_name.as_str(), name) && str_eq(calls[i].execution_status.as_str(), "pending") {
            return Some(i);
        }
        i += 1;
    }
    None
}

/// The first call from index `i` on that ran with success.
pub open spec fn first_success(calls: Seq<ToolCallRecord>, i: int) -> Option<usize>
    decreases calls.len() - i,
{
    if i < 0 || i >= calls.len() {
        None
    } else if calls[i].execution_status@ == "success"@ {
        Some(i as usize)
    } else {
        first_success(calls, i + 1)
    }
}

/// The index of the first call that ran with success, whose result gives
/// the conclusion that the final answer is judged against.
pub fn first_success_index(calls: &Vec<ToolCallRecord>) -> (r: Option<usize>)
    ensures
        r == first_success(calls@, 0),
{
    let mut i: usize = 0;
    while i < calls.len()
        invariant
            i <= calls@.len(),
            first_success(calls@, 0) == first_success(calls@, i as int),
        decreases calls@.len() - i,
    {
        if str_eq(calls[i].execution_status.as_str(), "success") {
            return Some(i);
        }
        i += 1;
    }
    None
}

} // verus!
