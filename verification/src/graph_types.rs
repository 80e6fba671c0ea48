//! Nodes and edges of the session knowledge graph.
use vstd::prelude::*;

use crate::dup::Dup;
use crate::strmap::StrMap;

verus! {

/// The review agents.
#[derive(Debug, Clone, Copy, PartialEq, Eq, Hash, Structural)]
pub enum AgentId {
    FactCheck,
    Procedure,
    Scoring,
    Demand,
    Contract,
    SemanticRisk,
    LegalVerify,
    BlindSpot,
    Scout,
}

/// Severity of a risk finding.
#[derive(Debug, Clone, Copy, PartialEq, Eq, Hash, Structural)]
pub enum RiskSeverity {
    High,
    Medium,
    Low,
    Info,
}

/// Review depth tier of a clause.
#[derive(Debug, Clone, Copy, PartialEq, Eq, Hash, Structural)]
pub enum RiskTier {
    Low,
    Medium,
    High,
}

/// Role of a finding: a reviewed finding, or a scout hypothesis.
#[derive(Debug, Clone, Copy, PartialEq, Eq, Hash, Structural)]
pub enum FindingRole {
    Finding,
    Hypothesis,
}

/// Lifecycle state of a risk node.
#[derive(Debug, Clone, Copy, PartialEq, Eq, Hash, Structural)]
pub enum FindingState {
    Provisional,
    Confirmed,
    Merged,
    Rejected,
}

/// Status of a review attempt.
#[derive(Debug, Clone, Copy, PartialEq, Eq, Hash, Structural)]
pub enum ReviewAttemptStatus {
    Started,
    Completed,
    Failed,
}

/// Outcome of a completed review attempt.
#[derive(Debug, Clone, Copy, PartialEq, Eq, Hash, Structural)]
pub enum ReviewAttemptOutcome {
    Findings,
    NoRisk,
}

/// Why a review attempt failed.
#[derive(Debug, Clone, Copy, PartialEq, Eq, Hash, Structural)]
pub enum ReviewAttemptErrorCode {
    ClauseTimeout,
    TaskCancelled,
    TaskPanic,
    LlmError,
}

impl DeepView for AgentId {
    type V = AgentId;

    open spec fn deep_view(&self) -> AgentId {
        *self
    }
}

impl Dup for AgentId {
    fn dup(&self) -> (r: Self) {
        *self
    }
}

impl DeepView for RiskSeverity {
    type V = RiskSeverity;

    open spec fn deep_view(&self) -> RiskSeverity {
        *self
    }
}

impl Dup for RiskSeverity {
    fn dup(&self) -> (r: Self) {
        *self
    }
}

impl DeepView for RiskTier {
    type V = RiskTier;

    open spec fn deep_view(&self) -> RiskTier {
        *self
    }
}

impl Dup for RiskTier {
    fn dup(&self) -> (r: Self) {
        *self
    }
}

impl DeepView for FindingRole {
    type V = FindingRole;

    open spec fn deep_view(&self) -> FindingRole {
        *self
    }
}

impl Dup for FindingRole {
    fn dup(&self) -> (r: Self) {
        *self
    }
}

impl DeepView for FindingState {
    type V = FindingState;

    open spec fn deep_view(&self) -> FindingState {
        *self
    }
}

impl Dup for FindingState {
    fn dup(&self) -> (r: Self) {
        *self
    }
}

impl DeepView for ReviewAttemptStatus {
    type V = ReviewAttemptStatus;

    open spec fn deep_view(&self) -> ReviewAttemptStatus {
        *self
    }
}

impl Dup for ReviewAttemptStatus {
    fn dup(&self) -> (r: Self) {
        *self
    }
}

impl DeepView for ReviewAttemptOutcome {
    type V = ReviewAttemptOutcome;

    open spec fn deep_view(&self) -> ReviewAttemptOutcome {
        *self
    }
}

impl Dup for ReviewAttemptOutcome {
    fn dup(&self) -> (r: Self) {
        *self
    }
}

impl DeepView for ReviewAttemptErrorCode {
    type V = ReviewAttemptErrorCode;

    open spec fn deep_view(&self) -> ReviewAttemptErrorCode {
        *self
    }
}

impl Dup for ReviewAttemptErrorCode {
    fn dup(&self) -> (r: Self) {
        *self
    }
}

/// A clause (document chunk) node.
pub struct ChunkNode {
    pub chunk_id: String,
    pub section_path: Vec<String>,
    pub page_start: u32,
    pub page_end: u32,
    pub text_preview: String,
    pub tier: RiskTier,
}

impl DeepView for ChunkNode {
    type V = (Seq<char>, Seq<Seq<char>>, u32, u32, Seq<char>, RiskTier);

    open spec fn deep_view(&self) -> Self::V {
        (
            self.chunk_id@,
            self.section_path.deep_view(),
            self.page_start,
            self.page_end,
            self.text_preview@,
            self.tier,
        )
    }
}

impl Dup for ChunkNode {
    fn dup(&self) -> (r: Self) {
        ChunkNode {
            chunk_id: self.chunk_id.dup(),
            section_path: self.section_path.dup(),
            page_start: self.page_start,
            page_end: self.page_end,
            text_preview: self.text_preview.dup(),
            tier: self.tier,
        }
    }
}

/// Ghost view of a risk finding.
pub struct FindingView {
    pub risk_id: Seq<char>,
    pub clause_ids: Seq<Seq<char>>,
    pub agent: Seq<char>,
    pub no_risk: bool,
    pub severity: RiskSeverity,
    pub is_critical: bool,
    pub risk_type: Seq<char>,
    pub source_quote: Seq<char>,
    pub legal_basis: Seq<Seq<char>>,
    pub reason: Seq<char>,
    pub suggestion: Seq<char>,
    pub finding_role: FindingRole,
}

/// One risk finding produced by a review agent.
pub struct RiskFinding {
    pub risk_id: String,
    pub clause_ids: Vec<String>,
    pub agent: String,
    pub no_risk: bool,
    pub severity: RiskSeverity,
    pub is_critical: bool,
    pub risk_type: String,
    pub source_quote: String,
    pub legal_basis: Vec<String>,
    pub reason: String,
    pub suggestion: String,
    pub finding_role: FindingRole,
}

impl DeepView for RiskFinding {
    type V = FindingView;

    open spec fn deep_view(&self) -> FindingView {
        FindingView {
            risk_id: self.risk_id@,
            clause_ids: self.clause_ids.deep_view(),
            agent: self.agent@,
            no_risk: self.no_risk,
            severity: self.severity,
            is_critical: self.is_critical,
            risk_type: self.risk_type@,
            source_quote: self.source_quote@,
            legal_basis: self.legal_basis.deep_view(),
            reason: self.reason@,
            suggestion: self.suggestion@,
            finding_role: self.finding_role,
        }
    }
}

impl Dup for RiskFinding {
    fn dup(&self) -> (r: Self) {
        RiskFinding {
            risk_id: self.risk_id.dup(),
            clause_ids: self.clause_ids.dup(),
            agent: self.agent.dup(),
            no_risk: self.no_risk,
            severity: self.severity,
            is_critical: self.is_critical,
            risk_type: self.risk_type.dup(),
            source_quote: self.source_quote.dup(),
            legal_basis: self.legal_basis.dup(),
            reason: self.reason.dup(),
            suggestion: self.suggestion.dup(),
            finding_role: self.finding_role,
        }
    }
}

/// Ghost view of a risk node.
pub struct RiskNodeView {
    pub finding: FindingView,
    pub law_refs: Seq<Seq<char>>,
    pub state: FindingState,
    pub merged_into: Option<Seq<char>>,
    pub decision_reason: Option<Seq<char>>,
}

/// A risk node: a finding, the laws it cites and its lifecycle state.
pub struct RiskNode {
    pub finding: RiskFinding,
    pub law_refs: Vec<String>,
    pub state: FindingState,
    pub merged_into: Option<String>,
    pub decision_reason: Option<String>,
}

impl DeepView for RiskNode {
    type V = RiskNodeView;

    open spec fn deep_view(&self) -> RiskNodeView {
        RiskNodeView {
            finding: self.finding.deep_view(),
            law_refs: self.law_refs.deep_view(),
            state: self.state,
            merged_into: self.merged_into.deep_view(),
            decision_reason: self.decision_reason.deep_view(),
        }
    }
}

impl Dup for RiskNode {
    fn dup(&self) -> (r: Self) {
        RiskNode {
            finding: self.finding.dup(),
            law_refs: self.law_refs.dup(),
            state: self.state,
            merged_into: self.merged_into.dup(),
            decision_reason: self.decision_reason.dup(),
        }
    }
}

/// An agent node.
pub struct AgentNode {
    pub agent_id: AgentId,
    pub display_name: String,
    pub role: String,
}

impl DeepView for AgentNode {
    type V = (AgentId, Seq<char>, Seq<char>);

    open spec fn deep_view(&self) -> Self::V {
        (self.agent_id, self.display_name@, self.role@)
    }
}

impl Dup for AgentNode {
    fn dup(&self) -> (r: Self) {
        AgentNode {
            agent_id: self.agent_id,
            display_name: self.display_name.dup(),
            role: self.role.dup(),
        }
    }
}

/// A link from one clause to another, with the reason for it.
pub struct LinkedChunk {
    pub chunk_id: String,
    pub reason: String,
}

impl DeepView for LinkedChunk {
    type V = (Seq<char>, Seq<char>);

    open spec fn deep_view(&self) -> Self::V {
        (self.chunk_id@, self.reason@)
    }
}

impl Dup for LinkedChunk {
    fn dup(&self) -> (r: Self) {
        LinkedChunk { chunk_id: self.chunk_id.dup(), reason: self.reason.dup() }
    }
}

/// A law article node.
pub struct LawNode {
    pub law_id: String,
    pub article_no: String,
    pub title: String,
}

impl DeepView for LawNode {
    type V = (Seq<char>, Seq<char>, Seq<char>);

    open spec fn deep_view(&self) -> Self::V {
        (self.law_id@, self.article_no@, self.title@)
    }
}

impl Dup for LawNode {
    fn dup(&self) -> (r: Self) {
        LawNode {
            law_id: self.law_id.dup(),
            article_no: self.article_no.dup(),
            title: self.title.dup(),
        }
    }
}

/// A precedent case node.
pub struct CaseNode {
    pub case_id: String,
    pub title: String,
}

impl DeepView for CaseNode {
    type V = (Seq<char>, Seq<char>);

    open spec fn deep_view(&self) -> Self::V {
        (self.case_id@, self.title@)
    }
}

impl Dup for CaseNode {
    fn dup(&self) -> (r: Self) {
        CaseNode { case_id: self.case_id.dup(), title: self.title.dup() }
    }
}

/// Ghost view of a review attempt.
pub struct AttemptView {
    pub attempt_id: Seq<char>,
    pub agent_id: AgentId,
    pub chunk_id: Seq<char>,
    pub status: ReviewAttemptStatus,
    pub outcome: Option<ReviewAttemptOutcome>,
    pub finding_ids: Seq<Seq<char>>,
    pub error_code: Option<ReviewAttemptErrorCode>,
    pub error_message: Option<Seq<char>>,
    pub started_at: Seq<char>,
    pub finished_at: Option<Seq<char>>,
}

/// One agent's attempt to review one clause.
pub struct ReviewAttempt {
    pub attempt_id: String,
    pub agent_id: AgentId,
    pub chunk_id: String,
    pub status: ReviewAttemptStatus,
    pub outcome: Option<ReviewAttemptOutcome>,
    pub finding_ids: Vec<String>,
    pub error_code: Option<ReviewAttemptErrorCode>,
    pub error_message: Option<String>,
    pub started_at: String,
    pub finished_at: Option<String>,
}

impl DeepView for ReviewAttempt {
    type V = AttemptView;

    open spec fn deep_view(&self) -> AttemptView {
        AttemptView {
            attempt_id: self.attempt_id@,
            agent_id: self.agent_id,
            chunk_id: self.chunk_id@,
            status: self.status,
            outcome: self.outcome,
            finding_ids: self.finding_ids.deep_view(),
            error_code: self.error_code,
            error_message: self.error_message.deep_view(),
            started_at: self.started_at@,
            finished_at: self.finished_at.deep_view(),
        }
    }
}

impl Dup for ReviewAttempt {
    fn dup(&self) -> (r: Self) {
        ReviewAttempt {
            attempt_id: self.attempt_id.dup(),
            agent_id: self.agent_id,
            chunk_id: self.chunk_id.dup(),
            status: self.status,
            outcome: self.outcome,
            finding_ids: self.finding_ids.dup(),
            error_code: self.error_code,
            error_message: self.error_message.dup(),
            started_at: self.started_at.dup(),
            finished_at: self.finished_at.dup(),
        }
    }
}

/// A recorded move of a finding from provisional to a final state.
pub struct FindingTransition {
    pub risk_id: String,
    pub from: FindingState,
    pub to: FindingState,
    pub reason: String,
    pub merged_into: Option<String>,
    pub decided_at: String,
}

impl DeepView for FindingTransition {
    type V = (Seq<char>, FindingState, FindingState, Seq<char>, Option<Seq<char>>, Seq<char>);

    open spec fn deep_view(&self) -> Self::V {
        (
            self.risk_id@,
            self.from,
            self.to,
            self.reason@,
            self.merged_into.deep_view(),
            self.decided_at@,
        )
    }
}

impl Dup for FindingTransition {
    fn dup(&self) -> (r: Self) {
        FindingTransition {
            risk_id: self.risk_id.dup(),
            from: self.from,
            to: self.to,
            reason: self.reason.dup(),
            merged_into: self.merged_into.dup(),
            decided_at: self.decided_at.dup(),
        }
    }
}

/// One cached pre-search result for a clause.
pub struct SearchCacheEntry {
    pub query: String,
    pub title: String,
    pub url: String,
    pub snippet: String,
}

impl DeepView for SearchCacheEntry {
    type V = (Seq<char>, Seq<char>, Seq<char>, Seq<char>);

    open spec fn deep_view(&self) -> Self::V {
        (self.query@, self.title@, self.url@, self.snippet@)
    }
}

impl Dup for SearchCacheEntry {
    fn dup(&self) -> (r: Self) {
        SearchCacheEntry {
            query: self.query.dup(),
            title: self.title.dup(),
            url: self.url.dup(),
            snippet: self.snippet.dup(),
        }
    }
}

/// Everything the graph knows about one clause, as an agent reads it.
pub struct ClauseContext {
    pub chunk_id: String,
    pub reviewed_by: Vec<AgentId>,
    pub risks: Vec<RiskFinding>,
    pub linked_chunks: Vec<LinkedChunk>,
    pub same_law_chunks: Vec<String>,
    pub contradictions: Vec<LinkedChunk>,
}

impl ClauseContext {
    /// Whether an earlier review recorded a risk on this clause.
    pub fn has_prior_risks(&self) -> (r: bool)
        ensures
            r == (self.risks@.len() > 0),
    {
        self.risks.len() > 0
    }
}

/// A clause context together with the clause version it was read at.
pub struct VersionedClauseContext {
    pub version: u64,
    pub context: ClauseContext,
}

/// Versions produced by one atomic graph commit.
pub struct GraphCommit {
    pub graph_version: u64,
    pub chunk_versions: StrMap<u64>,
}

} // verus!
