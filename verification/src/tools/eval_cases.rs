//! The ground truth of the tool-selection evaluation: the cases, what each
//! expects of the agent, the metrics' counts, and the check of whether a
//! final answer adopts a tool's conclusion.
use vstd::prelude::*;

use crate::text::{contains_seq, lowercase, str_contains, str_eq, to_lowercase, to_owned_string};

verus! {

/// How strongly a case expects a tool call.
#[derive(Debug, Clone, Copy, PartialEq, Eq, Structural)]
pub enum Expectation {
    Required,
    Preferred,
    Negative,
}

/// An argument a call is expected to carry, with its value when one is
/// expected.
pub struct ExpectedArg {
    pub key: String,
    pub value: Option<String>,
}

impl ExpectedArg {
    /// The key must be present.
    pub fn presence(key: &str) -> (r: Self)
        ensures
            r.key@ == key@,
            r.value is None,
    {
        ExpectedArg { key: to_owned_string(key), value: None }
    }

    /// The key must be present with this value.
    pub fn value(key: &str, value: &str) -> (r: Self)
        ensures
            r.key@ == key@,
            r.value.deep_view() == Some(value@),
    {
        ExpectedArg { key: to_owned_string(key), value: Some(to_owned_string(value)) }
    }
}

/// One evaluation case.
pub struct EvalCase {
    pub case_id: String,
    /// The agent the clause goes to ("Procedure", "Scoring", "Demand").
    pub agent_id: String,
    pub clause: String,
    pub expectation: Expectation,
    /// The tool expected (none for a negative case).
    pub expected_tool: Option<String>,
    pub expected_key_args: Vec<ExpectedArg>,
    pub forbidden_tools: Vec<String>,
    pub notes: Option<String>,
}

/// The content of an expected argument: key, and value if one is expected.
pub type ExpectedArgView = (Seq<char>, Option<Seq<char>>);

impl DeepView for ExpectedArg {
    type V = ExpectedArgView;

    open spec fn deep_view(&self) -> ExpectedArgView {
        (self.key@, self.value.deep_view())
    }
}

/// The content of an evaluation case.
pub struct EvalCaseView {
    pub case_id: Seq<char>,
    pub agent_id: Seq<char>,
    pub clause: Seq<char>,
    pub expectation: Expectation,
    pub expected_tool: Option<Seq<char>>,
    pub expected_key_args: Seq<ExpectedArgView>,
    pub forbidden_tools: Seq<Seq<char>>,
    pub notes: Option<Seq<char>>,
}

impl DeepView for EvalCase {
    type V = EvalCaseView;

    open spec fn deep_view(&self) -> EvalCaseView {
        EvalCaseView {
            case_id: self.case_id@,
            agent_id: self.agent_id@,
            clause: self.clause@,
            expectation: self.expectation,
            expected_tool: self.expected_tool.deep_view(),
            expected_key_args: self.expected_key_args.deep_view(),
            forbidden_tools: self.forbidden_tools.deep_view(),
            notes: self.notes.deep_view(),
        }
    }
}

/// How the web search is offered in an evaluation.
#[derive(Debug, Clone, Copy, PartialEq, Eq, Structural)]
pub enum WebSearchPolicy {
    /// Removed from the tools offered to the model.
    Disabled,
    /// Replaced by a fixed stub.
    Stubbed,
    Enabled,
}

/// A rate as numerator over denominator.
pub struct Metric {
    pub numerator: usize,
    pub denominator: usize,
}

impl Metric {
    /// The rate `n / d`.
    pub fn new(n: usize, d: usize) -> (r: Self)
        ensures
            r.numerator == n,
            r.denominator == d,
    {
        Metric { numerator: n, denominator: d }
    }
}

/// One tool call made in an evaluation run (the parsed arguments, the tool
/// result and the latency stay with the runner).
pub struct ToolCallRecord {
    pub sequence: usize,
    pub tool_name: String,
    pub raw_arguments: String,
    pub argument_json_valid: bool,
    /// The fields that the tool definition requires are present.
    pub schema_valid: bool,
    /// "success", "error" or "unregistered".
    pub execution_status: String,
    pub error: Option<String>,
}

/// The outcome of one case (the latency stays with the runner).
pub struct CaseResult {
    pub run_id: String,
    pub case_id: String,
    pub agent_id: String,
    pub expectation: Expectation,
    pub expected_tool: Option<String>,
    /// How many key arguments the case expects.
    pub expected_key_args_count: usize,
    /// How many of them the calls carried.
    pub present_key_args_count: usize,
    pub model: String,
    pub prompt_variant: String,
    pub tool_calls: Vec<ToolCallRecord>,
    /// Required/Preferred case: the expected tool was called at least once.
    pub selected_expected_tool: bool,
    /// Required/Preferred case: a specialist tool was called, never the expected one.
    pub wrong_tool: bool,
    /// Negative case: a specialist tool was called.
    pub false_call: bool,
    pub argument_schema_valid: bool,
    pub execution_success: bool,
    /// A structured conclusion and a final answer exist.
    pub adoption_evaluable: bool,
    pub result_adopted: bool,
    /// "consistent", "ignored", "contradicted" or "unknown".
    pub tool_result_consistency: String,
    pub final_response: Option<String>,
    pub tool_round_count: usize,
    pub max_tool_rounds_exceeded: bool,
    /// Token usage (input, output, total).
    pub token_usage: Option<(u32, u32, u32)>,
    pub error: Option<String>,
}

/// The metrics of a run (the sampling temperature stays with the runner).
pub struct RunSummary {
    pub run_id: String,
    pub timestamp: String,
    pub model: String,
    pub provider: String,
    pub prompt_variant: String,
    pub prompt_hash: u64,
    pub repetitions: u32,
    pub seed: Option<u64>,
    pub web_search: String,
    pub git_revision: String,
    pub case_count: usize,
    pub required_recall: Metric,
    pub preferred_use_rate: Metric,
    pub tool_precision: Metric,
    pub wrong_tool_rate: Metric,
    pub false_call_rate: Metric,
    pub argument_json_valid_rate: Metric,
    pub argument_deserialize_success_rate: Metric,
    pub expected_key_arg_recall: Metric,
    pub tool_execution_success_rate: Metric,
    pub result_adoption_rate: Metric,
    pub final_tool_consistency_rate: Metric,
}

/// What the calls of a case show, before the answer is judged.
pub struct CallVerdicts {
    /// The expected tool was called at least once.
    pub selected_expected_tool: bool,
    /// A scored case called some tool, never the expected one.
    pub wrong_tool: bool,
    /// A Negative case called some tool.
    pub false_call: bool,
    /// Every call with valid JSON arguments carried the required fields.
    pub argument_schema_valid: bool,
    /// There were calls and every one ran with success.
    pub execution_success: bool,
}

/// The verdicts of the calls `calls` of a case that expects `expectation`
/// and `expected_tool`.
pub open spec fn call_verdicts_of(expectation: Expectation, expected_tool: Option<Seq<char>>, calls: Seq<ToolCallRecord>) -> (bool, bool, bool, bool, bool) {
    let selected = match expected_tool {
        Some(et) => exists|i: int| 0 <= i < calls.len() && #[trigger] calls[i].tool_name@ == et,
        None => false,
    };
    let called = calls.len() > 0;
    (
        selected,
        (expectation == Expectation::Required || expectation == Expectation::Preferred) && called && !selected,
        expectation == Expectation::Negative && called,
        forall|i: int| 0 <= i < calls.len() && #[trigger] calls[i].argument_json_valid ==> calls[i].schema_valid,
        called && forall|i: int| 0 <= i < calls.len() ==> #[trigger] calls[i].execution_status@ == "success"@,
    )
}

/// Judges the calls of a case: whether the expected tool was selected, a
/// wrong tool or a tool at all was called where none should be, whether the
/// arguments were well formed and every call succeeded.
pub fn judge_calls(expectation: Expectation, expected_tool: &Option<String>, calls: &Vec<ToolCallRecord>) -> (r: CallVerdicts)
    ensures
        (r.selected_expected_tool, r.wrong_tool, r.false_call, r.argument_schema_valid, r.execution_success)
            == call_verdicts_of(expectation, expected_tool.deep_view(), calls@),
{
    let mut selected = false;
    let mut schema_ok = true;
    let mut all_success = true;
    let mut i: usize = 0;
    while i < calls.len()
        invariant
            i <= calls@.len(),
            selected == match expected_tool.deep_view() {
                Some(et) => exists|j: int| 0 <= j < i && #[trigger] calls@[j].tool_name@ == et,
                None => false,
            },
            schema_ok == forall|j: int| 0 <= j < i && #[trigger] calls@[j].argument_json_valid ==> calls@[j].schema_valid,
            all_success == forall|j: int| 0 <= j < i ==> #[trigger] calls@[j].execution_status@ == "success"@,
        decreases calls@.len() - i,
    {
        let c = &calls[i];
        match expected_tool {
            Some(et) => {
                if str_eq(c.tool_name.as_str(), et.as_str()) {
                    selected = true;
                }
            },
            None => {},
        }
        if c.argument_json_valid && !c.schema_valid {
            schema_ok = false;
        }
        if !str_eq(c.execution_status.as_str(), "success") {
            all_success = false;
        }
        i += 1;
    }
    let called = calls.len() > 0;
    let scored = match expectation {
        Expectation::Required => true,
        Expectation::Preferred => true,
        Expectation::Negative => false,
    };
    CallVerdicts {
        selected_expected_tool: selected,
        wrong_tool: scored && called && !selected,
        false_call: !scored && called,
        argument_schema_valid: schema_ok,
        execution_success: called && all_success,
    }
}

/// What an adoption verdict records for a case: whether adoption could be
/// judged, whether the result was adopted, and the verdict's name.
pub open spec fn adoption_record(v: AdoptionVerdict) -> (bool, bool, Seq<char>) {
    match v {
        AdoptionVerdict::Unknown => (false, false, "unknown"@),
        AdoptionVerdict::Consistent => (true, true, "consistent"@),
        AdoptionVerdict::Ignored => (true, false, "ignored"@),
        AdoptionVerdict::Contradicted => (true, false, "contradicted"@),
    }
}

/// The record of an adoption verdict, as `adoption_record` says.
pub fn record_adoption(v: AdoptionVerdict) -> (r: (bool, bool, String))
    ensures
        (r.0, r.1, r.2@) == adoption_record(v),
{
    match v {
        AdoptionVerdict::Unknown => (false, false, to_owned_string("unknown")),
        AdoptionVerdict::Consistent => (true, true, to_owned_string("consistent")),
        AdoptionVerdict::Ignored => (true, false, to_owned_string("ignored")),
        AdoptionVerdict::Contradicted => (true, false, to_owned_string("contradicted")),
    }
}

/// How many cases of `cs` meet `p`.
pub open spec fn count_cases(cs: Seq<CaseResult>, p: spec_fn(CaseResult) -> bool) -> nat
    decreases cs.len(),
{
    if cs.len() == 0 {
        0
    } else {
        count_cases(cs.drop_last(), p) + if p(cs.last()) {
            1nat
        } else {
            0nat
        }
    }
}

/// The sum of `f` over the cases of `cs` that meet `p`.
pub open spec fn sum_cases(cs: Seq<CaseResult>, p: spec_fn(CaseResult) -> bool, f: spec_fn(CaseResult) -> nat) -> nat
    decreases cs.len(),
{
    if cs.len() == 0 {
        0
    } else {
        sum_cases(cs.drop_last(), p, f) + if p(cs.last()) {
            f(cs.last())
        } else {
            0nat
        }
    }
}

/// How many calls of `calls` meet `p`.
pub open spec fn count_calls(calls: Seq<ToolCallRecord>, p: spec_fn(ToolCallRecord) -> bool) -> nat
    decreases calls.len(),
{
    if calls.len() == 0 {
        0
    } else {
        count_calls(calls.drop_last(), p) + if p(calls.last()) {
            1nat
        } else {
            0nat
        }
    }
}

/// A Required or Preferred case, the ones that are scored.
pub open spec fn is_scored(c: CaseResult) -> bool {
    c.expectation == Expectation::Required || c.expectation == Expectation::Preferred
}

/// A call of the tool that case `c` expects.
pub open spec fn expected_call(c: CaseResult) -> spec_fn(ToolCallRecord) -> bool {
    |r: ToolCallRecord| c.expected_tool.deep_view() == Some(r.tool_name@)
}

/// A call with valid JSON arguments.
pub open spec fn json_call() -> spec_fn(ToolCallRecord) -> bool {
    |r: ToolCallRecord| r.argument_json_valid
}

/// A call whose arguments carry the required fields.
pub open spec fn schema_call() -> spec_fn(ToolCallRecord) -> bool {
    |r: ToolCallRecord| r.schema_valid
}

/// A call that ran with success.
pub open spec fn success_call() -> spec_fn(ToolCallRecord) -> bool {
    |r: ToolCallRecord| r.execution_status@ == "success"@
}

/// The calls of a case that name its expected tool.
pub open spec fn expected_calls() -> spec_fn(CaseResult) -> nat {
    |c: CaseResult| count_calls(c.tool_calls@, expected_call(c))
}

/// The calls of a case.
pub open spec fn all_calls() -> spec_fn(CaseResult) -> nat {
    |c: CaseResult| c.tool_calls@.len()
}

/// The calls of a case with valid JSON arguments.
pub open spec fn json_calls() -> spec_fn(CaseResult) -> nat {
    |c: CaseResult| count_calls(c.tool_calls@, json_call())
}

/// The calls of a case whose arguments carry the required fields.
pub open spec fn schema_calls() -> spec_fn(CaseResult) -> nat {
    |c: CaseResult| count_calls(c.tool_calls@, schema_call())
}

/// The calls of a case that ran with success.
pub open spec fn success_calls() -> spec_fn(CaseResult) -> nat {
    |c: CaseResult| count_calls(c.tool_calls@, success_call())
}

/// Every case.
pub open spec fn any_case() -> spec_fn(CaseResult) -> bool {
    |c: CaseResult| true
}

/// A case of the given expectation.
pub open spec fn expecting(e: Expectation) -> spec_fn(CaseResult) -> bool {
    |c: CaseResult| c.expectation == e
}

/// A case of the given expectation that called its expected tool.
pub open spec fn expecting_selected(e: Expectation) -> spec_fn(CaseResult) -> bool {
    |c: CaseResult| c.expectation == e && c.selected_expected_tool
}

/// A scored case.
pub open spec fn scored_case() -> spec_fn(CaseResult) -> bool {
    |c: CaseResult| is_scored(c)
}

/// A scored case that called a wrong tool.
pub open spec fn scored_wrong() -> spec_fn(CaseResult) -> bool {
    |c: CaseResult| is_scored(c) && c.wrong_tool
}

/// A Negative case that called a specialist tool.
pub open spec fn negative_false_call() -> spec_fn(CaseResult) -> bool {
    |c: CaseResult| c.expectation == Expectation::Negative && c.false_call
}

/// A scored case that called its tool and expects key arguments (the
/// cases of the key-argument recall).
pub open spec fn arg_recall_case() -> spec_fn(CaseResult) -> bool {
    |c: CaseResult| is_scored(c) && c.selected_expected_tool && c.expected_key_args_count > 0
}

/// Such a case whose calls carried every expected key argument.
pub open spec fn arg_recall_hit() -> spec_fn(CaseResult) -> bool {
    |c: CaseResult| is_scored(c) && c.selected_expected_tool && c.expected_key_args_count > 0
        && c.present_key_args_count >= c.expected_key_args_count
}

/// A case whose adoption can be judged.
pub open spec fn evaluable_case() -> spec_fn(CaseResult) -> bool {
    |c: CaseResult| c.adoption_evaluable
}

/// Such a case whose answer adopted the tool result.
pub open spec fn adopted_case() -> spec_fn(CaseResult) -> bool {
    |c: CaseResult| c.adoption_evaluable && c.result_adopted
}

/// A case with a tool call and a final answer (the cases of the
/// consistency rate).
pub open spec fn consistency_case() -> spec_fn(CaseResult) -> bool {
    |c: CaseResult| c.tool_calls@.len() > 0 && c.final_response is Some
}

/// Such a case judged consistent.
pub open spec fn consistent_case() -> spec_fn(CaseResult) -> bool {
    |c: CaseResult| c.tool_calls@.len() > 0 && c.final_response is Some && c.tool_result_consistency@ == "consistent"@
}

/// Whether `m` is the rate `n / d`.
pub open spec fn metric_is(m: Metric, n: nat, d: nat) -> bool {
    m.numerator == n && m.denominator == d
}

/// The metrics of a run over the cases `cs`: recall of Required cases,
/// use rate of Preferred ones, precision of the calls of scored cases,
/// wrong-tool rate of scored cases, false-call rate of Negative cases, the
/// JSON, schema and success rates of all calls, the key-argument recall
/// (all expected keys present), the adoption rate of evaluable cases, and
/// the consistency rate of cases with a call and a final answer; run id,
/// model and prompt variant from the first case.
pub open spec fn summarizes(r: RunSummary, cs: Seq<CaseResult>) -> bool {
    &&& r.case_count == cs.len()
    &&& metric_is(r.required_recall, count_cases(cs, expecting_selected(Expectation::Required)), count_cases(cs, expecting(Expectation::Required)))
    &&& metric_is(r.preferred_use_rate, count_cases(cs, expecting_selected(Expectation::Preferred)), count_cases(cs, expecting(Expectation::Preferred)))
    &&& metric_is(r.tool_precision, sum_cases(cs, scored_case(), expected_calls()), sum_cases(cs, scored_case(), all_calls()))
    &&& metric_is(r.wrong_tool_rate, count_cases(cs, scored_wrong()), count_cases(cs, scored_case()))
    &&& metric_is(r.false_call_rate, count_cases(cs, negative_false_call()), count_cases(cs, expecting(Expectation::Negative)))
    &&& metric_is(r.argument_json_valid_rate, sum_cases(cs, any_case(), json_calls()), sum_cases(cs, any_case(), all_calls()))
    &&& metric_is(r.argument_deserialize_success_rate, sum_cases(cs, any_case(), schema_calls()), sum_cases(cs, any_case(), all_calls()))
    &&& metric_is(r.expected_key_arg_recall, count_cases(cs, arg_recall_hit()), count_cases(cs, arg_recall_case()))
    &&& metric_is(r.tool_execution_success_rate, sum_cases(cs, any_case(), success_calls()), sum_cases(cs, any_case(), all_calls()))
    &&& metric_is(r.result_adoption_rate, count_cases(cs, adopted_case()), count_cases(cs, evaluable_case()))
    &&& metric_is(r.final_tool_consistency_rate, count_cases(cs, consistent_case()), count_cases(cs, consistency_case()))
    &&& r.run_id@ == (if cs.len() > 0 { cs[0].run_id@ } else { Seq::<char>::empty() })
    &&& r.model@ == (if cs.len() > 0 { cs[0].model@ } else { Seq::<char>::empty() })
    &&& r.prompt_variant@ == (if cs.len() > 0 { cs[0].prompt_variant@ } else { Seq::<char>::empty() })
    &&& r.timestamp@ == Seq::<char>::empty()
    &&& r.provider@ == Seq::<char>::empty()
    &&& r.web_search@ == Seq::<char>::empty()
    &&& r.git_revision@ == "unavailable"@
    &&& r.prompt_hash == 0
    &&& r.repetitions == 1
    &&& r.seed is None
}

/// Counting over one more case adds that case's share.
pub proof fn lemma_count_step(cs: Seq<CaseResult>, i: int, p: spec_fn(CaseResult) -> bool)
    requires
        0 <= i < cs.len(),
    ensures
        count_cases(cs.take(i + 1), p) == count_cases(cs.take(i), p) + if p(cs[i]) { 1nat } else { 0nat },
{
    assert(cs.take(i + 1).drop_last() =~= cs.take(i));
}

/// Summing over one more case adds that case's share.
pub proof fn lemma_sum_step(cs: Seq<CaseResult>, i: int, p: spec_fn(CaseResult) -> bool, f: spec_fn(CaseResult) -> nat)
    requires
        0 <= i < cs.len(),
    ensures
        sum_cases(cs.take(i + 1), p, f) == sum_cases(cs.take(i), p, f) + if p(cs[i]) { f(cs[i]) } else { 0nat },
{
    assert(cs.take(i + 1).drop_last() =~= cs.take(i));
}

/// A sum over fewer cases, or of smaller shares, is no larger.
pub proof fn lemma_sum_le(
    cs: Seq<CaseResult>,
    p: spec_fn(CaseResult) -> bool,
    f: spec_fn(CaseResult) -> nat,
    q: spec_fn(CaseResult) -> bool,
    g: spec_fn(CaseResult) -> nat,
)
    requires
        forall|c: CaseResult| #[trigger] p(c) ==> q(c) && f(c) <= g(c),
    ensures
        sum_cases(cs, p, f) <= sum_cases(cs, q, g),
    decreases cs.len(),
{
    if cs.len() > 0 {
        lemma_sum_le(cs.drop_last(), p, f, q, g);
    }
}

/// The sum over a prefix is no larger than over the whole.
pub proof fn lemma_sum_prefix(cs: Seq<CaseResult>, i: int, p: spec_fn(CaseResult) -> bool, f: spec_fn(CaseResult) -> nat)
    requires
        0 <= i <= cs.len(),
    ensures
        sum_cases(cs.take(i), p, f) <= sum_cases(cs, p, f),
    decreases cs.len() - i,
{
    if i < cs.len() {
        lemma_sum_step(cs, i, p, f);
        lemma_sum_prefix(cs, i + 1, p, f);
    } else {
        assert(cs.take(i) =~= cs);
    }
}

/// A count over calls is at most the number of calls.
pub proof fn lemma_count_calls_le(calls: Seq<ToolCallRecord>, p: spec_fn(ToolCallRecord) -> bool)
    ensures
        count_calls(calls, p) <= calls.len(),
    decreases calls.len(),
{
    if calls.len() > 0 {
        lemma_count_calls_le(calls.drop_last(), p);
    }
}

/// The calls of `c` that name its expected tool, have valid JSON
/// arguments, carry the required fields, and ran with success.
fn call_counts(c: &CaseResult) -> (r: (usize, usize, usize, usize))
    ensures
        r.0 == count_calls(c.tool_calls@, expected_call(*c)),
        r.1 == count_calls(c.tool_calls@, json_call()),
        r.2 == count_calls(c.tool_calls@, schema_call()),
        r.3 == count_calls(c.tool_calls@, success_call()),
{
    let calls = &c.tool_calls;
    let mut e: usize = 0;
    let mut j_ok: usize = 0;
    let mut s_ok: usize = 0;
    let mut x_ok: usize = 0;
    let mut k: usize = 0;
    while k < calls.len()
        invariant
            k <= calls@.len(),
            *calls == c.tool_calls,
            e == count_calls(calls@.take(k as int), expected_call(*c)),
            j_ok == count_calls(calls@.take(k as int), json_call()),
            s_ok == count_calls(calls@.take(k as int), schema_call()),
            x_ok == count_calls(calls@.take(k as int), success_call()),
            e <= k && j_ok <= k && s_ok <= k && x_ok <= k,
        decreases calls@.len() - k,
    {
        let rec = &calls[k];
        proof {
            assert(calls@.take(k + 1).drop_last() =~= calls@.take(k as int));
            assert(calls@.take(k + 1).last() == *rec);
        }
        let hit = match &c.expected_tool {
            Some(t) => str_eq(t.as_str(), rec.tool_name.as_str()),
            None => false,
        };
        if hit {
            e += 1;
        }
        if rec.argument_json_valid {
            j_ok += 1;
        }
        if rec.schema_valid {
            s_ok += 1;
        }
        if str_eq(rec.execution_status.as_str(), "success") {
            x_ok += 1;
        }
        k += 1;
    }
    proof {
        assert(calls@.take(calls@.len() as int) =~= calls@);
    }
    (e, j_ok, s_ok, x_ok)
}

/// The metrics of a run over its case results.
pub fn aggregate(cases: &Vec<CaseResult>) -> (r: RunSummary)
    requires
        sum_cases(cases@, any_case(), all_calls()) <= usize::MAX,
    ensures
        summarizes(r, cases@),
{
    let ghost cs = cases@;
    let ghost total = sum_cases(cs, any_case(), all_calls());
    let mut req_n: usize = 0;
    let mut req_d: usize = 0;
    let mut pref_n: usize = 0;
    let mut pref_d: usize = 0;
    let mut prec_n: usize = 0;
    let mut prec_d: usize = 0;
    let mut wrong_n: usize = 0;
    let mut scored_d: usize = 0;
    let mut false_n: usize = 0;
    let mut neg_d: usize = 0;
    let mut json_n: usize = 0;
    let mut schema_n: usize = 0;
    let mut exec_n: usize = 0;
    let mut calls_d: usize = 0;
    let mut arg_n: usize = 0;
    let mut arg_d: usize = 0;
    let mut adopt_n: usize = 0;
    let mut adopt_d: usize = 0;
    let mut con_n: usize = 0;
    let mut con_d: usize = 0;
    let mut i: usize = 0;
    while i < cases.len()
        invariant
            i <= cs.len(),
            cs == cases@,
            total == sum_cases(cs, any_case(), all_calls()),
            total <= usize::MAX,
            req_n == count_cases(cs.take(i as int), expecting_selected(Expectation::Required)),
            req_d == count_cases(cs.take(i as int), expecting(Expectation::Required)),
            pref_n == count_cases(cs.take(i as int), expecting_selected(Expectation::Preferred)),
            pref_d == count_cases(cs.take(i as int), expecting(Expectation::Preferred)),
            prec_n == sum_cases(cs.take(i as int), scored_case(), expected_calls()),
            prec_d == sum_cases(cs.take(i as int), scored_case(), all_calls()),
            wrong_n == count_cases(cs.take(i as int), scored_wrong()),
            scored_d == count_cases(cs.take(i as int), scored_case()),
            false_n == count_cases(cs.take(i as int), negative_false_call()),
            neg_d == count_cases(cs.take(i as int), expecting(Expectation::Negative)),
            json_n == sum_cases(cs.take(i as int), any_case(), json_calls()),
            schema_n == sum_cases(cs.take(i as int), any_case(), schema_calls()),
            exec_n == sum_cases(cs.take(i as int), any_case(), success_calls()),
            calls_d == sum_cases(cs.take(i as int), any_case(), all_calls()),
            arg_n == count_cases(cs.take(i as int), arg_recall_hit()),
            arg_d == count_cases(cs.take(i as int), arg_recall_case()),
            adopt_n == count_cases(cs.take(i as int), adopted_case()),
            adopt_d == count_cases(cs.take(i as int), evaluable_case()),
            con_n == count_cases(cs.take(i as int), consistent_case()),
            con_d == count_cases(cs.take(i as int), consistency_case()),
            req_n <= i && req_d <= i && pref_n <= i && pref_d <= i && wrong_n <= i && scored_d <= i,
            false_n <= i && neg_d <= i && arg_n <= i && arg_d <= i && adopt_n <= i && adopt_d <= i,
            con_n <= i && con_d <= i,
        decreases cs.len() - i,
    {
        let c = &cases[i];
        let (e, jk, sk, xk) = call_counts(c);
        let n_calls = c.tool_calls.len();
        proof {
            let ii = i as int;
            lemma_count_step(cs, ii, expecting_selected(Expectation::Required));
            lemma_count_step(cs, ii, expecting(Expectation::Required));
            lemma_count_step(cs, ii, expecting_selected(Expectation::Preferred));
            lemma_count_step(cs, ii, expecting(Expectation::Preferred));
            lemma_sum_step(cs, ii, scored_case(), expected_calls());
            lemma_sum_step(cs, ii, scored_case(), all_calls());
            lemma_count_step(cs, ii, scored_wrong());
            lemma_count_step(cs, ii, scored_case());
            lemma_count_step(cs, ii, negative_false_call());
            lemma_count_step(cs, ii, expecting(Expectation::Negative));
            lemma_sum_step(cs, ii, any_case(), json_calls());
            lemma_sum_step(cs, ii, any_case(), schema_calls());
            lemma_sum_step(cs, ii, any_case(), success_calls());
            lemma_sum_step(cs, ii, any_case(), all_calls());
            lemma_count_step(cs, ii, arg_recall_hit());
            lemma_count_step(cs, ii, arg_recall_case());
            lemma_count_step(cs, ii, adopted_case());
            lemma_count_step(cs, ii, evaluable_case());
            lemma_count_step(cs, ii, consistent_case());
            lemma_count_step(cs, ii, consistency_case());
            lemma_sum_prefix(cs, ii + 1, any_case(), all_calls());
            lemma_count_calls_le(c.tool_calls@, expected_call(*c));
            lemma_count_calls_le(c.tool_calls@, json_call());
            lemma_count_calls_le(c.tool_calls@, schema_call());
            lemma_count_calls_le(c.tool_calls@, success_call());
            assert forall|x: CaseResult| #[trigger] scored_case()(x) implies any_case()(x) && expected_calls()(x) <= all_calls()(x) by {
                lemma_count_calls_le(x.tool_calls@, expected_call(x));
            }
            lemma_sum_le(cs.take(ii + 1), scored_case(), expected_calls(), any_case(), all_calls());
            assert forall|x: CaseResult| #[trigger] scored_case()(x) implies any_case()(x) && all_calls()(x) <= all_calls()(x) by {}
            lemma_sum_le(cs.take(ii + 1), scored_case(), all_calls(), any_case(), all_calls());
            assert forall|x: CaseResult| #[trigger] any_case()(x) implies any_case()(x) && json_calls()(x) <= all_calls()(x) by {
                lemma_count_calls_le(x.tool_calls@, json_call());
            }
            lemma_sum_le(cs.take(ii + 1), any_case(), json_calls(), any_case(), all_calls());
            assert forall|x: CaseResult| #[trigger] any_case()(x) implies any_case()(x) && schema_calls()(x) <= all_calls()(x) by {
                lemma_count_calls_le(x.tool_calls@, schema_call());
            }
            lemma_sum_le(cs.take(ii + 1), any_case(), schema_calls(), any_case(), all_calls());
            assert forall|x: CaseResult| #[trigger] any_case()(x) implies any_case()(x) && success_calls()(x) <= all_calls()(x) by {
                lemma_count_calls_le(x.tool_calls@, success_call());
            }
            lemma_sum_le(cs.take(ii + 1), any_case(), success_calls(), any_case(), all_calls());
        }
        let scored = match c.expectation {
            Expectation::Required => true,
            Expectation::Preferred => true,
            Expectation::Negative => false,
        };
        match c.expectation {
            Expectation::Required => {
                req_d += 1;
                if c.selected_expected_tool {
                    req_n += 1;
                }
            },
            Expectation::Preferred => {
                pref_d += 1;
                if c.selected_expected_tool {
                    pref_n += 1;
                }
            },
            Expectation::Negative => {
                neg_d += 1;
                if c.false_call {
                    false_n += 1;
                }
            },
        }
        if scored {
            prec_n += e;
            prec_d += n_calls;
            scored_d += 1;
            if c.wrong_tool {
                wrong_n += 1;
            }
            if c.selected_expected_tool && c.expected_key_args_count > 0 {
                arg_d += 1;
                if c.present_key_args_count >= c.expected_key_args_count {
                    arg_n += 1;
                }
            }
        }
        json_n += jk;
        schema_n += sk;
        exec_n += xk;
        calls_d += n_calls;
        if c.adoption_evaluable {
            adopt_d += 1;
            if c.result_adopted {
                adopt_n += 1;
            }
        }
        if n_calls > 0 && c.final_response.is_some() {
            con_d += 1;
            if str_eq(c.tool_result_consistency.as_str(), "consistent") {
                con_n += 1;
            }
        }
        i += 1;
    }
    proof {
        assert(cs.take(cs.len() as int) =~= cs);
    }
    let (run_id, model, prompt_variant) = if cases.len() > 0 {
        (cases[0].run_id.clone(), cases[0].model.clone(), cases[0].prompt_variant.clone())
    } else {
        (String::new(), String::new(), String::new())
    };
    RunSummary {
        run_id,
        timestamp: String::new(),
        model,
        provider: String::new(),
        prompt_variant,
        prompt_hash: 0,
        repetitions: 1,
        seed: None,
        web_search: String::new(),
        git_revision: to_owned_string("unavailable"),
        case_count: cases.len(),
        required_recall: Metric::new(req_n, req_d),
        preferred_use_rate: Metric::new(pref_n, pref_d),
        tool_precision: Metric::new(prec_n, prec_d),
        wrong_tool_rate: Metric::new(wrong_n, scored_d),
        false_call_rate: Metric::new(false_n, neg_d),
        argument_json_valid_rate: Metric::new(json_n, calls_d),
        argument_deserialize_success_rate: Metric::new(schema_n, calls_d),
        expected_key_arg_recall: Metric::new(arg_n, arg_d),
        tool_execution_success_rate: Metric::new(exec_n, calls_d),
        result_adoption_rate: Metric::new(adopt_n, adopt_d),
        final_tool_consistency_rate: Metric::new(con_n, con_d),
    }
}

/// What the evaluation environment offers.
pub struct EvalEnvironment {
    pub web_search: String,
    pub registry_note: String,
}

/// The description of the web search under a policy.
pub open spec fn web_search_text(p: WebSearchPolicy) -> Seq<char> {
    match p {
        WebSearchPolicy::Disabled => "disabled (removed from tools sent to model)"@,
        WebSearchPolicy::Stubbed => "stubbed (deterministic stub)"@,
        WebSearchPolicy::Enabled => "enabled (real external I/O)"@,
    }
}

/// The environment of a run with the web search under `web_search`.
pub fn eval_environment(web_search: WebSearchPolicy) -> (r: EvalEnvironment)
    ensures
        r.web_search@ == web_search_text(web_search),
        r.registry_note@ == "Eval registry = Group A core tools + output_finding (real Tool.execute)"@,
{
    let w = match web_search {
        WebSearchPolicy::Disabled => to_owned_string("disabled (removed from tools sent to model)"),
        WebSearchPolicy::Stubbed => to_owned_string("stubbed (deterministic stub)"),
        WebSearchPolicy::Enabled => to_owned_string("enabled (real external I/O)"),
    };
    EvalEnvironment {
        web_search: w,
        registry_note: to_owned_string("Eval registry = Group A core tools + output_finding (real Tool.execute)"),
    }
}

/// Whether a final answer agrees with a tool's conclusion.
#[derive(Debug, Clone, Copy, PartialEq, Eq, Structural)]
pub enum AdoptionVerdict {
    Consistent,
    Ignored,
    Contradicted,
    Unknown,
}

/// Words that affirm compliance.
pub open spec fn compliant_words() -> Seq<Seq<char>> {
    seq!["合规"@, "符合"@, "compliant"@]
}

/// Words that affirm a violation.
pub open spec fn violation_words() -> Seq<Seq<char>> {
    seq!["违规"@, "不合规"@, "violation"@, "超标"@]
}

/// The negated forms of the compliance words, which affirm a violation
/// although they contain a compliance word.
pub open spec fn negated_words() -> Seq<Seq<char>> {
    seq!["不合规"@, "不符合"@]
}

/// Whether `t` holds one of `ws`.
pub open spec fn holds_any(t: Seq<char>, ws: Seq<Seq<char>>) -> bool {
    exists|i: int| 0 <= i < ws.len() && contains_seq(t, #[trigger] ws[i])
}

/// The verdict on a final answer for a tool conclusion (compared in lower
/// case): unknown unless the conclusion is "compliant", "ok" or
/// "violation". The negated forms ("不合规", "不符合") are matched before
/// the plain compliance words they contain, and count as affirming a
/// violation. Contradicted when the answer affirms the opposite conclusion;
/// consistent when it affirms the same; else ignored.
pub open spec fn adoption(final_response: Seq<char>, conclusion: Seq<char>) -> AdoptionVerdict {
    let norm = lowercase(conclusion);
    let text = lowercase(final_response);
    if norm == "compliant"@ || norm == "ok"@ {
        if holds_any(text, negated_words()) || holds_any(text, violation_words()) {
            AdoptionVerdict::Contradicted
        } else if holds_any(text, compliant_words()) {
            AdoptionVerdict::Consistent
        } else {
            AdoptionVerdict::Ignored
        }
    } else if norm == "violation"@ {
        if holds_any(text, negated_words()) {
            AdoptionVerdict::Consistent
        } else if holds_any(text, compliant_words()) {
            AdoptionVerdict::Contradicted
        } else if holds_any(text, violation_words()) {
            AdoptionVerdict::Consistent
        } else {
            AdoptionVerdict::Ignored
        }
    } else {
        AdoptionVerdict::Unknown
    }
}

/// Whether `t` holds "不合规" or "不符合".
fn holds_negated(t: &str) -> (r: bool)
    ensures
        r == holds_any(t@, negated_words()),
{
    let r = str_contains(t, "不合规") || str_contains(t, "不符合");
    proof {
        let ws = negated_words();
        if r {
            if contains_seq(t@, "不合规"@) {
                assert(contains_seq(t@, ws[0]));
            } else {
                assert(contains_seq(t@, ws[1]));
            }
        }
    }
    r
}

/// Whether `t` holds "合规", "符合" or "compliant".
fn holds_compliant(t: &str) -> (r: bool)
    ensures
        r == holds_any(t@, compliant_words()),
{
    let r = str_contains(t, "合规") || str_contains(t, "符合") || str_contains(t, "compliant");
    proof {
        let ws = compliant_words();
        if r {
            if contains_seq(t@, "合规"@) {
                assert(contains_seq(t@, ws[0]));
            } else if contains_seq(t@, "符合"@) {
                assert(contains_seq(t@, ws[1]));
            } else {
                assert(contains_seq(t@, ws[2]));
            }
        }
    }
    r
}

/// Whether `t` holds "违规", "不合规", "violation" or "超标".
fn holds_violation(t: &str) -> (r: bool)
    ensures
        r == holds_any(t@, violation_words()),
{
    let r = str_contains(t, "违规") || str_contains(t, "不合规") || str_contains(t, "violation") || str_contains(t, "超标");
    proof {
        let ws = violation_words();
        if r {
            if contains_seq(t@, "违规"@) {
                assert(contains_seq(t@, ws[0]));
            } else if contains_seq(t@, "不合规"@) {
                assert(contains_seq(t@, ws[1]));
            } else if contains_seq(t@, "violation"@) {
                assert(contains_seq(t@, ws[2]));
            } else {
                assert(contains_seq(t@, ws[3]));
            }
        }
    }
    r
}

/// The verdict on a final answer, as `adoption` says.
pub fn judge_adoption(final_response: &str, conclusion: &str) -> (r: AdoptionVerdict)
    ensures
        r == adoption(final_response@, conclusion@),
{
    let norm = to_lowercase(conclusion);
    let text = to_lowercase(final_response);
    let n = norm.as_str();
    let t = text.as_str();
    if str_eq(n, "compliant") || str_eq(n, "ok") {
        if holds_negated(t) || holds_violation(t) {
            AdoptionVerdict::Contradicted
        } else if holds_compliant(t) {
            AdoptionVerdict::Consistent
        } else {
            AdoptionVerdict::Ignored
        }
    } else if str_eq(n, "violation") {
        if holds_negated(t) {
            AdoptionVerdict::Consistent
        } else if holds_compliant(t) {
            AdoptionVerdict::Contradicted
        } else if holds_violation(t) {
            AdoptionVerdict::Consistent
        } else {
            AdoptionVerdict::Ignored
        }
    } else {
        AdoptionVerdict::Unknown
    }
}

/// A case of the smoke data set.
fn smoke_case(
    case_id: &str,
    agent_id: &str,
    clause: &str,
    expectation: Expectation,
    expected_tool: Option<&str>,
    expected_key_args: Vec<ExpectedArg>,
) -> (r: EvalCase)
    ensures
        r.case_id@ == case_id@,
        r.agent_id@ == agent_id@,
        r.clause@ == clause@,
        r.expectation == expectation,
        r.expected_tool.deep_view() == match expected_tool {
            Some(t) => Some(t@),
            None => None,
        },
        r.expected_key_args@ == expected_key_args@,
        r.forbidden_tools@.len() == 0,
        r.notes is None,
        r.deep_view() == (EvalCaseView {
            case_id: case_id@,
            agent_id: agent_id@,
            clause: clause@,
            expectation,
            expected_tool: match expected_tool {
                Some(t) => Some(t@),
                None => None,
            },
            expected_key_args: expected_key_args.deep_view(),
            forbidden_tools: Seq::empty(),
            notes: None,
        }),
{
    let r = EvalCase {
        case_id: to_owned_string(case_id),
        agent_id: to_owned_string(agent_id),
        clause: to_owned_string(clause),
        expectation,
        expected_tool: match expected_tool {
            Some(t) => Some(to_owned_string(t)),
            None => None,
        },
        expected_key_args,
        forbidden_tools: Vec::new(),
        notes: None,
    };
    proof {
        assert(r.forbidden_tools.deep_view() =~= Seq::<Seq<char>>::empty());
    }
    r
}

/// The ids and expectations of the smoke data set, in order.
pub open spec fn smoke_plan() -> Seq<(Seq<char>, Expectation)> {
    seq![
        ("proc_001"@, Expectation::Required),
        ("proc_002a"@, Expectation::Required),
        ("proc_002b"@, Expectation::Required),
        ("proc_003"@, Expectation::Required),
        ("proc_004"@, Expectation::Required),
        ("proc_005"@, Expectation::Preferred),
        ("proc_006"@, Expectation::Negative),
        ("score_001"@, Expectation::Required),
        ("score_002"@, Expectation::Required),
        ("score_003"@, Expectation::Required),
        ("score_004"@, Expectation::Required),
        ("score_005"@, Expectation::Required),
        ("score_006"@, Expectation::Negative),
        ("demand_001"@, Expectation::Required)
    ]
}

/// The smoke data set, case by case: id, agent, clause, expectation,
/// expected tool and expected key arguments (no forbidden tools, no notes).
pub open spec fn smoke_cases() -> Seq<EvalCaseView> {
    seq![
        EvalCaseView {
            case_id: "proc_001"@,
            agent_id: "Procedure"@,
            clause: "投标人须在投标截止时间前提交投标保证金人民币壹拾万元整（¥100,000.00），以现金形式缴纳，中标通知书发出后10个工作日内退还。合同估算金额为人民币300万元。"@,
            expectation: Expectation::Required,
            expected_tool: Some("verify_bid_deposit"@),
            expected_key_args: seq![("deposit_type"@, Some("bid"@))],
            forbidden_tools: Seq::empty(),
            notes: None,
        },
        EvalCaseView {
            case_id: "proc_002a"@,
            agent_id: "Procedure"@,
            clause: "招标公告于2025年6月2日发布，公告期至2025年6月6日结束，共4个工作日。本项目采用公开招标方式，采购货物。"@,
            expectation: Expectation::Required,
            expected_tool: Some("verify_announcement_period"@),
            expected_key_args: seq![("procurement_method"@, Some("公开招标"@)), ("period_type"@, Some("notice_publication"@))],
            forbidden_tools: Seq::empty(),
            notes: None,
        },
        EvalCaseView {
            case_id: "proc_002b"@,
            agent_id: "Procedure"@,
            clause: "招标文件自2025年6月1日起发出，投标截止时间为2025年6月14日。本项目采用公开招标方式，采购货物。"@,
            expectation: Expectation::Required,
            expected_tool: Some("verify_bid_preparation_period"@),
            expected_key_args: seq![("procurement_method"@, Some("公开招标"@))],
            forbidden_tools: Seq::empty(),
            notes: None,
        },
        EvalCaseView {
            case_id: "proc_003"@,
            agent_id: "Procedure"@,
            clause: "公告发布之日起至投标截止之日止，投标准备时间仅为8个日历日，本项目采用竞争性谈判方式。"@,
            expectation: Expectation::Required,
            expected_tool: Some("verify_bid_preparation_period"@),
            expected_key_args: seq![("procurement_method"@, Some("竞争性谈判"@))],
            forbidden_tools: Seq::empty(),
            notes: None,
        },
        EvalCaseView {
            case_id: "proc_004"@,
            agent_id: "Procedure"@,
            clause: "本项目预算金额为人民币500万元，采购货物一批，拟采用竞争性磋商方式进行采购。"@,
            expectation: Expectation::Required,
            expected_tool: Some("verify_procurement_method"@),
            expected_key_args: seq![("procurement_category"@, Some("货物"@)), ("budget_amount_wan"@, Some("500"@))],
            forbidden_tools: Seq::empty(),
            notes: None,
        },
        EvalCaseView {
            case_id: "proc_005"@,
            agent_id: "Procedure"@,
            clause: "2025年6月1日发布公告，2025年6月25日开标，2025年6月20日发售招标文件，2025年6月30日签订合同。请计算各节点之间的日期关系。"@,
            expectation: Expectation::Preferred,
            expected_tool: Some("calculate_timeline"@),
            expected_key_args: Seq::empty(),
            forbidden_tools: Seq::empty(),
            notes: None,
        },
        EvalCaseView {
            case_id: "proc_006"@,
            agent_id: "Procedure"@,
            clause: "合同签订后30日内支付合同金额的50%作为预付款，余款在验收合格后15日内付清。"@,
            expectation: Expectation::Negative,
            expected_tool: None,
            expected_key_args: Seq::empty(),
            forbidden_tools: Seq::empty(),
            notes: None,
        },
        EvalCaseView {
            case_id: "score_001"@,
            agent_id: "Scoring"@,
            clause: "价格分权重占比70%，采用最低价法计算价格分，基准价为所有有效投标报价的算术平均值。"@,
            expectation: Expectation::Required,
            expected_tool: Some("validate_scoring_formula"@),
            expected_key_args: seq![("procurement_object"@, Some("goods"@)), ("procurement_method"@, Some("open_tender"@)), ("price_weight"@, Some("70"@))],
            forbidden_tools: Seq::empty(),
            notes: None,
        },
        EvalCaseView {
            case_id: "score_002"@,
            agent_id: "Scoring"@,
            clause: "评审因素权重分配如下：价格40分，技术50分，商务5分，服务5分，总分100分。"@,
            expectation: Expectation::Required,
            expected_tool: Some("validate_weight_distribution"@),
            expected_key_args: seq![("procurement_category"@, Some("货物"@))],
            forbidden_tools: Seq::empty(),
            notes: None,
        },
        EvalCaseView {
            case_id: "score_003"@,
            agent_id: "Scoring"@,
            clause: "技术方案评分区间为0-20分，评委根据投标人的综合表现和满意程度酌情打分。"@,
            expectation: Expectation::Required,
            expected_tool: Some("detect_subjective_scoring"@),
            expected_key_args: Seq::empty(),
            forbidden_tools: Seq::empty(),
            notes: None,
        },
        EvalCaseView {
            case_id: "score_004"@,
            agent_id: "Scoring"@,
            clause: "评审因素表：价格分30分，技术分50分，商务分15分。总分应为100分但表格合计95分。"@,
            expectation: Expectation::Required,
            expected_tool: Some("check_scoring_completeness"@),
            expected_key_args: seq![("procurement_category"@, Some("货物"@))],
            forbidden_tools: Seq::empty(),
            notes: None,
        },
        EvalCaseView {
            case_id: "score_005"@,
            agent_id: "Scoring"@,
            clause: "本项目接受联合体投标。联合体成员资质可以叠加计算，牵头方须具备施工总承包一级资质。"@,
            expectation: Expectation::Required,
            expected_tool: Some("verify_consortium_rules"@),
            expected_key_args: Seq::empty(),
            forbidden_tools: Seq::empty(),
            notes: None,
        },
        EvalCaseView {
            case_id: "score_006"@,
            agent_id: "Demand"@,
            clause: "本项目核心设备须为某指定品牌原装进口产品，不接受其他品牌，且投标人须提供厂家授权书。"@,
            expectation: Expectation::Negative,
            expected_tool: None,
            expected_key_args: Seq::empty(),
            forbidden_tools: Seq::empty(),
            notes: None,
        },
        EvalCaseView {
            case_id: "demand_001"@,
            agent_id: "Demand"@,
            clause: "本项目拟采购进口医疗影像设备，采购前须经省级以上财政部门审核同意。"@,
            expectation: Expectation::Required,
            expected_tool: Some("check_imported_products"@),
            expected_key_args: seq![("procurement_category"@, Some("货物"@))],
            forbidden_tools: Seq::empty(),
            notes: None,
        }
    ]
}

/// The smoke data set: fourteen cases over the procedure, scoring and
/// demand agents.
pub fn production_smoke_cases() -> (r: Vec<EvalCase>)
    ensures
        r@.len() == 14,
        forall|i: int| 0 <= i < 14 ==> (#[trigger] r@[i].case_id@, r@[i].expectation) == smoke_plan()[i],
        r.deep_view() == smoke_cases(),
{
    let mut v: Vec<EvalCase> = Vec::new();
    let mut a0: Vec<ExpectedArg> = Vec::new();
    a0.push(ExpectedArg::value("deposit_type", "bid"));
    proof {
        assert(a0.deep_view() =~= seq![("deposit_type"@, Some("bid"@))]);
    }
    v.push(smoke_case("proc_001", "Procedure", "投标人须在投标截止时间前提交投标保证金人民币壹拾万元整（¥100,000.00），以现金形式缴纳，中标通知书发出后10个工作日内退还。合同估算金额为人民币300万元。", Expectation::Required, Some("verify_bid_deposit"), a0));
    let mut a1: Vec<ExpectedArg> = Vec::new();
    a1.push(ExpectedArg::value("procurement_method", "公开招标"));
    a1.push(ExpectedArg::value("period_type", "notice_publication"));
    proof {
        assert(a1.deep_view() =~= seq![("procurement_method"@, Some("公开招标"@)), ("period_type"@, Some("notice_publication"@))]);
    }
    v.push(smoke_case("proc_002a", "Procedure", "招标公告于2025年6月2日发布，公告期至2025年6月6日结束，共4个工作日。本项目采用公开招标方式，采购货物。", Expectation::Required, Some("verify_announcement_period"), a1));
    let mut a2: Vec<ExpectedArg> = Vec::new();
    a2.push(ExpectedArg::value("procurement_method", "公开招标"));
    proof {
        assert(a2.deep_view() =~= seq![("procurement_method"@, Some("公开招标"@))]);
    }
    v.push(smoke_case("proc_002b", "Procedure", "招标文件自2025年6月1日起发出，投标截止时间为2025年6月14日。本项目采用公开招标方式，采购货物。", Expectation::Required, Some("verify_bid_preparation_period"), a2));
    let mut a3: Vec<ExpectedArg> = Vec::new();
    a3.push(ExpectedArg::value("procurement_method", "竞争性谈判"));
    proof {
        assert(a3.deep_view() =~= seq![("procurement_method"@, Some("竞争性谈判"@))]);
    }
    v.push(smoke_case("proc_003", "Procedure", "公告发布之日起至投标截止之日止，投标准备时间仅为8个日历日，本项目采用竞争性谈判方式。", Expectation::Required, Some("verify_bid_preparation_period"), a3));
    let mut a4: Vec<ExpectedArg> = Vec::new();
    a4.push(ExpectedArg::value("procurement_category", "货物"));
    a4.push(ExpectedArg::value("budget_amount_wan", "500"));
    proof {
        assert(a4.deep_view() =~= seq![("procurement_category"@, Some("货物"@)), ("budget_amount_wan"@, Some("500"@))]);
    }
    v.push(smoke_case("proc_004", "Procedure", "本项目预算金额为人民币500万元，采购货物一批，拟采用竞争性磋商方式进行采购。", Expectation::Required, Some("verify_procurement_method"), a4));
    let mut a5: Vec<ExpectedArg> = Vec::new();
    proof {
        assert(a5.deep_view() =~= Seq::<ExpectedArgView>::empty());
    }
    v.push(smoke_case("proc_005", "Procedure", "2025年6月1日发布公告，2025年6月25日开标，2025年6月20日发售招标文件，2025年6月30日签订合同。请计算各节点之间的日期关系。", Expectation::Preferred, Some("calculate_timeline"), a5));
    let mut a6: Vec<ExpectedArg> = Vec::new();
    proof {
        assert(a6.deep_view() =~= Seq::<ExpectedArgView>::empty());
    }
    v.push(smoke_case("proc_006", "Procedure", "合同签订后30日内支付合同金额的50%作为预付款，余款在验收合格后15日内付清。", Expectation::Negative, None, a6));
    let mut a7: Vec<ExpectedArg> = Vec::new();
    a7.push(ExpectedArg::value("procurement_object", "goods"));
    a7.push(ExpectedArg::value("procurement_method", "open_tender"));
    a7.push(ExpectedArg::value("price_weight", "70"));
    proof {
        assert(a7.deep_view() =~= seq![("procurement_object"@, Some("goods"@)), ("procurement_method"@, Some("open_tender"@)), ("price_weight"@, Some("70"@))]);
    }
    v.push(smoke_case("score_001", "Scoring", "价格分权重占比70%，采用最低价法计算价格分，基准价为所有有效投标报价的算术平均值。", Expectation::Required, Some("validate_scoring_formula"), a7));
    let mut a8: Vec<ExpectedArg> = Vec::new();
    a8.push(ExpectedArg::value("procurement_category", "货物"));
    proof {
        assert(a8.deep_view() =~= seq![("procurement_category"@, Some("货物"@))]);
    }
    v.push(smoke_case("score_002", "Scoring", "评审因素权重分配如下：价格40分，技术50分，商务5分，服务5分，总分100分。", Expectation::Required, Some("validate_weight_distribution"), a8));
    let mut a9: Vec<ExpectedArg> = Vec::new();
    proof {
        assert(a9.deep_view() =~= Seq::<ExpectedArgView>::empty());
    }
    v.push(smoke_case("score_003", "Scoring", "技术方案评分区间为0-20分，评委根据投标人的综合表现和满意程度酌情打分。", Expectation::Required, Some("detect_subjective_scoring"), a9));
    let mut a10: Vec<ExpectedArg> = Vec::new();
    a10.push(ExpectedArg::value("procurement_category", "货物"));
    proof {
        assert(a10.deep_view() =~= seq![("procurement_category"@, Some("货物"@))]);
    }
    v.push(smoke_case("score_004", "Scoring", "评审因素表：价格分30分，技术分50分，商务分15分。总分应为100分但表格合计95分。", Expectation::Required, Some("check_scoring_completeness"), a10));
    let mut a11: Vec<ExpectedArg> = Vec::new();
    proof {
        assert(a11.deep_view() =~= Seq::<ExpectedArgView>::empty());
    }
    v.push(smoke_case("score_005", "Scoring", "本项目接受联合体投标。联合体成员资质可以叠加计算，牵头方须具备施工总承包一级资质。", Expectation::Required, Some("verify_consortium_rules"), a11));
    let mut a12: Vec<ExpectedArg> = Vec::new();
    proof {
        assert(a12.deep_view() =~= Seq::<ExpectedArgView>::empty());
    }
    v.push(smoke_case("score_006", "Demand", "本项目核心设备须为某指定品牌原装进口产品，不接受其他品牌，且投标人须提供厂家授权书。", Expectation::Negative, None, a12));
    let mut a13: Vec<ExpectedArg> = Vec::new();
    a13.push(ExpectedArg::value("procurement_category", "货物"));
    proof {
        assert(a13.deep_view() =~= seq![("procurement_category"@, Some("货物"@))]);
    }
    v.push(smoke_case("demand_001", "Demand", "本项目拟采购进口医疗影像设备，采购前须经省级以上财政部门审核同意。", Expectation::Required, Some("check_imported_products"), a13));
    proof {
        let p = smoke_plan();
        reveal_strlit("proc_001");
        reveal_strlit("proc_002a");
        reveal_strlit("proc_002b");
        reveal_strlit("proc_003");
        reveal_strlit("proc_004");
        reveal_strlit("proc_005");
        reveal_strlit("proc_006");
        reveal_strlit("score_001");
        reveal_strlit("score_002");
        reveal_strlit("score_003");
        reveal_strlit("score_004");
        reveal_strlit("score_005");
        reveal_strlit("score_006");
        reveal_strlit("demand_001");
        assert forall|i: int| 0 <= i < 14 implies (#[trigger] v@[i].case_id@, v@[i].expectation) == p[i] by {}
        assert(v.deep_view() =~= smoke_cases());
    }
    v
}

} // verus!
