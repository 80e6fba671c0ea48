//! `compare_versions`: compares an earlier version of a tender document with
//! the current one chunk by chunk, finds added, removed and modified
//! clauses, and flags the changes to qualifications, scoring, deadlines and
//! deposits.
use vstd::prelude::*;

use crate::chunk::{Chunk, ChunkView};
use crate::dup::Dup;
use crate::strmap::StrMap;
use crate::text::{
    alphanumeric, chars_of, decimal, decimal_string, is_alphanumeric, is_cjk, push_str, str_eq, take_chars,
    take_prefix, to_owned_string,
};
use crate::tools::keywords::{any_hit, any_keyword, join_seq, join_strings, strs};

verus! {

/// A chunk of the earlier version.
pub struct PreviousChunk {
    pub chunk_id: String,
    pub section_path: Vec<String>,
    pub text: String,
}

/// A chunk of the current version as the caller sends it.
pub struct CurrentChunk {
    pub chunk_id: String,
    pub section_path: Vec<String>,
    pub text: String,
}

/// The arguments of the tool.
pub struct CompareVersionsArgs {
    pub previous_chunks: Vec<PreviousChunk>,
    pub current_chunks: Vec<CurrentChunk>,
}

/// A clause added or removed.
pub struct DiffItem {
    pub chunk_id: String,
    pub section_path: Vec<String>,
    pub text_preview: String,
    pub page_location: String,
}

/// A clause whose text changed. Its change score is
/// `change_diff / change_base`, capped at 1.
pub struct ModifiedItem {
    pub prev_chunk_id: String,
    pub curr_chunk_id: String,
    pub section_path: Vec<String>,
    pub prev_text_preview: String,
    pub curr_text_preview: String,
    pub change_description: String,
    pub change_diff: u128,
    pub change_base: u128,
}

/// A change that touches qualifications, scoring, deadlines or deposits.
pub struct HighRiskChange {
    /// "qualification", "scoring", "deadline" or "deposit".
    pub change_type: String,
    pub section_path: Vec<String>,
    pub prev_content: String,
    pub curr_content: String,
    pub risk_detail: String,
}

/// Counts of the comparison.
pub struct DiffStats {
    pub added_count: usize,
    pub removed_count: usize,
    pub modified_count: usize,
    pub high_risk_count: usize,
    pub unchanged_count: usize,
}

/// The outcome of a comparison.
pub struct DiffResult {
    pub added: Vec<DiffItem>,
    pub removed: Vec<DiffItem>,
    pub modified: Vec<ModifiedItem>,
    pub high_risk_changes: Vec<HighRiskChange>,
    pub stats: DiffStats,
    pub summary: String,
}

/// The tool: the chunks of the current version by id, and their order.
pub struct CompareVersionsTool {
    pub current_chunks: StrMap<Chunk>,
    pub current_order: Vec<String>,
}

/// The content of a risk flag.
pub ghost struct RiskView {
    pub change_type: Seq<char>,
    pub section_path: Seq<Seq<char>>,
    pub prev_content: Seq<char>,
    pub curr_content: Seq<char>,
    pub risk_detail: Seq<char>,
}

impl DeepView for HighRiskChange {
    type V = RiskView;

    open spec fn deep_view(&self) -> RiskView {
        RiskView {
            change_type: self.change_type@,
            section_path: self.section_path.deep_view(),
            prev_content: self.prev_content@,
            curr_content: self.curr_content@,
            risk_detail: self.risk_detail@,
        }
    }
}

/// Length of a longest common subsequence of `a` and `b`.
pub open spec fn lcs(a: Seq<char>, b: Seq<char>) -> nat
    decreases a.len() + b.len(),
{
    if a.len() == 0 || b.len() == 0 {
        0
    } else if a.last() == b.last() {
        lcs(a.drop_last(), b.drop_last()) + 1
    } else {
        let x = lcs(a.drop_last(), b);
        let y = lcs(a, b.drop_last());
        if x >= y {
            x
        } else {
            y
        }
    }
}

/// The number of characters that differ between `a` and `b`: those outside
/// a longest common subsequence, on both sides.
pub open spec fn diff_count(a: Seq<char>, b: Seq<char>) -> int {
    a.len() + b.len() - 2 * lcs(a, b)
}

/// The base of the change score: the longer length, and at least 1.
pub open spec fn change_base(a: Seq<char>, b: Seq<char>) -> int {
    let m = if a.len() >= b.len() {
        a.len()
    } else {
        b.len()
    };
    if m >= 1 {
        m as int
    } else {
        1
    }
}

/// The change score of `a` and `b` (their differing characters over the
/// longer length, capped at 1) is above `num / den`.
pub open spec fn change_above(a: Seq<char>, b: Seq<char>, num: int, den: int) -> bool {
    diff_count(a, b) * den > num * change_base(a, b)
}

/// A common subsequence is no longer than either side.
pub proof fn lemma_lcs_bound(a: Seq<char>, b: Seq<char>)
    ensures
        lcs(a, b) <= a.len(),
        lcs(a, b) <= b.len(),
    decreases a.len() + b.len(),
{
    if a.len() > 0 && b.len() > 0 {
        lemma_lcs_bound(a.drop_last(), b.drop_last());
        lemma_lcs_bound(a.drop_last(), b);
        lemma_lcs_bound(a, b.drop_last());
    }
}

/// Length of a longest common subsequence of `a` and `b`.
fn lcs_len(a: &Vec<char>, b: &Vec<char>) -> (r: usize)
    ensures
        r == lcs(a@, b@),
{
    let n = b.len();
    let mut prev: Vec<usize> = Vec::new();
    prev.push(0);
    let mut j: usize = 0;
    while j < n
        invariant
            j <= n,
            n == b@.len(),
            prev@.len() == j + 1,
            forall|q: int| 0 <= q <= j ==> prev@[q] == 0,
        decreases n - j,
    {
        prev.push(0);
        j += 1;
    }
    proof {
        assert forall|q: int| 0 <= q <= n implies prev@[q] == lcs(a@.take(0), b@.take(q)) by {
            assert(a@.take(0).len() == 0);
        }
    }
    let mut i: usize = 0;
    while i < a.len()
        invariant
            i <= a@.len(),
            n == b@.len(),
            prev@.len() == n + 1,
            forall|q: int| 0 <= q <= n ==> #[trigger] prev@[q] == lcs(a@.take(i as int), b@.take(q)),
            forall|q: int| 0 <= q <= n ==> #[trigger] prev@[q] <= q,
        decreases a@.len() - i,
    {
        let ghost ai = a@.take(i + 1);
        proof {
            assert(ai.drop_last() =~= a@.take(i as int));
            assert(ai.last() == a@[i as int]);
        }
        let mut cur: Vec<usize> = Vec::new();
        cur.push(0);
        proof {
            assert(lcs(ai, b@.take(0)) == 0) by {
                assert(b@.take(0).len() == 0);
            }
        }
        let mut k: usize = 0;
        while k < n
            invariant
                k <= n,
                n == b@.len(),
                i < a@.len(),
                ai == a@.take(i + 1),
                ai.drop_last() == a@.take(i as int),
                ai.last() == a@[i as int],
                prev@.len() == n + 1,
                forall|q: int| 0 <= q <= n ==> #[trigger] prev@[q] == lcs(a@.take(i as int), b@.take(q)),
                forall|q: int| 0 <= q <= n ==> #[trigger] prev@[q] <= q,
                cur@.len() == k + 1,
                forall|q: int| 0 <= q <= k ==> #[trigger] cur@[q] == lcs(ai, b@.take(q)),
                forall|q: int| 0 <= q <= k ==> #[trigger] cur@[q] <= q,
            decreases n - k,
        {
            let ghost bk = b@.take(k + 1);
            proof {
                assert(bk.drop_last() =~= b@.take(k as int));
                assert(bk.last() == b@[k as int]);
                assert(prev@[k as int] == lcs(a@.take(i as int), b@.take(k as int)));
                assert(prev@[k + 1] == lcs(a@.take(i as int), b@.take(k + 1)));
                assert(cur@[k as int] == lcs(ai, b@.take(k as int)));
            }
            let v: usize = if a[i] == b[k] {
                prev[k] + 1
            } else if prev[k + 1] >= cur[k] {
                prev[k + 1]
            } else {
                cur[k]
            };
            proof {
                assert(v == lcs(ai, bk));
            }
            cur.push(v);
            k += 1;
        }
        prev = cur;
        i += 1;
    }
    proof {
        assert(a@.take(a@.len() as int) =~= a@);
        assert(b@.take(n as int) =~= b@);
    }
    prev[n]
}

impl CompareVersionsTool {
    /// A tool over the current version's chunks and order.
    pub fn new(current_chunks: StrMap<Chunk>, current_order: Vec<String>) -> (r: Self)
        ensures
            r.current_chunks == current_chunks,
            r.current_order == current_order,
    {
        CompareVersionsTool { current_chunks, current_order }
    }

    /// The tool's name.
    pub fn name(&self) -> (r: &'static str)
        ensures
            r@ == "compare_versions"@,
    {
        "compare_versions"
    }

    /// The number of characters of `a` and `b` outside a longest common
    /// subsequence.
    pub fn lcs_diff(a: &str, b: &str) -> (r: usize)
        requires
            a@.len() + b@.len() <= usize::MAX,
        ensures
            r == diff_count(a@, b@),
    {
        let x = chars_of(a);
        let y = chars_of(b);
        let l = lcs_len(&x, &y);
        proof {
            lemma_lcs_bound(x@, y@);
        }
        x.len() - l + (y.len() - l)
    }
}

/// The differing characters of `a` and `b` and the base of their change
/// score.
fn change_metrics(a: &str, b: &str) -> (r: (u128, u128))
    ensures
        r.0 == diff_count(a@, b@),
        r.1 == change_base(a@, b@),
        r.0 <= 2 * (u64::MAX as int),
        1 <= r.1 <= u64::MAX,
{
    let x = chars_of(a);
    let y = chars_of(b);
    let l = lcs_len(&x, &y);
    proof {
        lemma_lcs_bound(x@, y@);
    }
    let la = x.len() as u128;
    let lb = y.len() as u128;
    let ll = l as u128;
    assert(la <= u64::MAX && lb <= u64::MAX);
    let d: u128 = (la - ll) + (lb - ll);
    let m = if la >= lb {
        la
    } else {
        lb
    };
    let base: u128 = if m >= 1 {
        m
    } else {
        1
    };
    (d, base)
}

/// Whether a change of `d` characters over `base` is above `num / den`.
fn above(d: u128, base: u128, num: u128, den: u128) -> (r: bool)
    requires
        d <= 2 * (u64::MAX as int),
        base <= u64::MAX,
        num <= 100,
        den <= 100,
    ensures
        r == (d * den > num * base),
{
    assert(d * den <= 200 * (u64::MAX as u128)) by (nonlinear_arith)
        requires
            d <= 2 * (u64::MAX as u128),
            den <= 100,
    ;
    assert(num * base <= 100 * (u64::MAX as u128)) by (nonlinear_arith)
        requires
            base <= u64::MAX,
            num <= 100,
    ;
    d * den > num * base
}

/// Whether the change score of `a` and `b` is above `num / den`.
fn change_above_exec(a: &str, b: &str, num: u128, den: u128) -> (r: bool)
    requires
        num <= 100,
        den <= 100,
    ensures
        r == change_above(a@, b@, num as int, den as int),
{
    let (d, base) = change_metrics(a, b);
    above(d, base, num, den)
}

/// Words of qualification conditions.
pub open spec fn qualification_words() -> Seq<Seq<char>> {
    seq![
        "资质"@, "资格"@, "证书"@, "许可证"@, "等级"@, "备案"@, "注册"@, "业绩"@, "合同"@, "项目经验"@, "案例"@,
        "注册资本"@, "资产"@,
    ]
}

/// Words of scoring rules.
pub open spec fn scoring_words() -> Seq<Seq<char>> {
    seq![
        "评分"@, "得分"@, "分值"@, "权重"@, "价格分"@, "技术分"@, "商务分"@, "评审"@, "评估"@, "综合评分"@, "加分"@,
        "减分"@, "扣分"@,
    ]
}

/// Words of deadlines.
pub open spec fn deadline_words() -> Seq<Seq<char>> {
    seq![
        "截止"@, "期限"@, "日历日"@, "工作日"@, "交付"@, "工期"@, "进度"@, "投标截止"@, "开标"@, "公告期"@, "等标期"@,
    ]
}

/// Words of deposits.
pub open spec fn deposit_words() -> Seq<Seq<char>> {
    seq!["保证金"@, "保函"@, "履约"@, "投标保证金"@, "履约保证金"@, "比例"@, "退还"@]
}

fn qualification_list() -> (r: Vec<&'static str>)
    ensures
        strs(r@) == qualification_words(),
{
    let mut v: Vec<&'static str> = Vec::new();
    v.push("资质");
    v.push("资格");
    v.push("证书");
    v.push("许可证");
    v.push("等级");
    v.push("备案");
    v.push("注册");
    v.push("业绩");
    v.push("合同");
    v.push("项目经验");
    v.push("案例");
    v.push("注册资本");
    v.push("资产");
    assert(strs(v@) =~= qualification_words());
    v
}

fn scoring_list() -> (r: Vec<&'static str>)
    ensures
        strs(r@) == scoring_words(),
{
    let mut v: Vec<&'static str> = Vec::new();
    v.push("评分");
    v.push("得分");
    v.push("分值");
    v.push("权重");
    v.push("价格分");
    v.push("技术分");
    v.push("商务分");
    v.push("评审");
    v.push("评估");
    v.push("综合评分");
    v.push("加分");
    v.push("减分");
    v.push("扣分");
    assert(strs(v@) =~= scoring_words());
    v
}

fn deadline_list() -> (r: Vec<&'static str>)
    ensures
        strs(r@) == deadline_words(),
{
    let mut v: Vec<&'static str> = Vec::new();
    v.push("截止");
    v.push("期限");
    v.push("日历日");
    v.push("工作日");
    v.push("交付");
    v.push("工期");
    v.push("进度");
    v.push("投标截止");
    v.push("开标");
    v.push("公告期");
    v.push("等标期");
    assert(strs(v@) =~= deadline_words());
    v
}

fn deposit_list() -> (r: Vec<&'static str>)
    ensures
        strs(r@) == deposit_words(),
{
    let mut v: Vec<&'static str> = Vec::new();
    v.push("保证金");
    v.push("保函");
    v.push("履约");
    v.push("投标保证金");
    v.push("履约保证金");
    v.push("比例");
    v.push("退还");
    assert(strs(v@) =~= deposit_words());
    v
}

/// A risk flag with no headings.
pub open spec fn risk(kind: Seq<char>, prev: Seq<char>, curr: Seq<char>, detail: Seq<char>) -> RiskView {
    RiskView {
        change_type: kind,
        section_path: Seq::empty(),
        prev_content: prev,
        curr_content: curr,
        risk_detail: detail,
    }
}

/// The risk flag of a change from `p` to `c`, if any: qualification words
/// on both sides with a change above 0.3, qualification words added or
/// removed, scoring words on both sides with a change above 0.3, deadline
/// words on both sides with a change above 0.2, deposit words on either
/// side with a change above 0.2, in that order of precedence.
pub open spec fn high_risk(p: Seq<char>, c: Seq<char>) -> Option<RiskView> {
    let pq = any_hit(p, qualification_words());
    let cq = any_hit(c, qualification_words());
    if pq && cq && change_above(p, c, 3, 10) {
        Some(
            risk(
                "qualification"@,
                take_chars(p, 200),
                take_chars(c, 200),
                "资格条件内容发生了变化，可能放宽或收紧供应商准入，需检查是否存在倾向性调整"@,
            ),
        )
    } else if !pq && cq {
        Some(risk("qualification"@, "(旧版无资格条件)"@, take_chars(c, 200), "新版新增了资格条件，需检查是否构成额外限制"@))
    } else if pq && !cq {
        Some(risk("qualification"@, take_chars(p, 200), "(新版移除了资格条件)"@, "资格条件被移除，需确认是否为遗漏"@))
    } else if any_hit(p, scoring_words()) && any_hit(c, scoring_words()) && change_above(p, c, 3, 10) {
        Some(
            risk(
                "scoring"@,
                take_chars(p, 200),
                take_chars(c, 200),
                "评分标准发生了变化，可能调整了竞争格局，需检查是否存在倾向性评分"@,
            ),
        )
    } else if any_hit(p, deadline_words()) && any_hit(c, deadline_words()) && change_above(p, c, 2, 10) {
        Some(risk("deadline"@, take_chars(p, 200), take_chars(c, 200), "关键日期发生了变化，需检查是否满足法定最短期限"@))
    } else if (any_hit(p, deposit_words()) || any_hit(c, deposit_words())) && change_above(p, c, 2, 10) {
        Some(risk("deposit"@, take_chars(p, 200), take_chars(c, 200), "保证金条款发生了变化，需检查比例是否合规"@))
    } else {
        None
    }
}

/// How a change from `p` to `c` is flagged, over all texts:
/// - qualification words appearing or disappearing always flag a
///   qualification change, and so does a change above 30% where both sides
///   have them;
/// - without qualification words on either side: scoring words on both
///   sides with a change above 30% flag a scoring change; else deadline
///   words on both sides with a change above 20% flag a deadline change;
///   else deposit words on either side with a change above 20% flag a
///   deposit change; else nothing is flagged;
/// - a flag other than an added or removed qualification carries the first
///   200 characters of both versions.
pub proof fn law_high_risk_classes(p: Seq<char>, c: Seq<char>)
    ensures
        ({
            let pq = any_hit(p, qualification_words());
            let cq = any_hit(c, qualification_words());
            let sc = any_hit(p, scoring_words()) && any_hit(c, scoring_words()) && change_above(p, c, 3, 10);
            let dl = any_hit(p, deadline_words()) && any_hit(c, deadline_words()) && change_above(p, c, 2, 10);
            let dp = (any_hit(p, deposit_words()) || any_hit(c, deposit_words())) && change_above(p, c, 2, 10);
            let r = high_risk(p, c);
            &&& pq != cq ==> (r matches Some(x) && x.change_type == "qualification"@)
            &&& pq && cq && change_above(p, c, 3, 10) ==> (r matches Some(x) && x.change_type == "qualification"@
                && x.prev_content == take_chars(p, 200) && x.curr_content == take_chars(c, 200))
            &&& !pq && !cq && sc ==> (r matches Some(x) && x.change_type == "scoring"@ && x.prev_content == take_chars(p, 200)
                && x.curr_content == take_chars(c, 200))
            &&& !pq && !cq && !sc && dl ==> (r matches Some(x) && x.change_type == "deadline"@ && x.prev_content
                == take_chars(p, 200) && x.curr_content == take_chars(c, 200)
                && x.risk_detail == "关键日期发生了变化，需检查是否满足法定最短期限"@)
            &&& !pq && !cq && !sc && !dl && dp ==> (r matches Some(x) && x.change_type == "deposit"@ && x.prev_content
                == take_chars(p, 200) && x.curr_content == take_chars(c, 200))
            &&& !pq && !cq && !sc && !dl && !dp ==> r is None
        }),
{
}

fn make_risk(kind: &str, prev: String, curr: String, detail: &str) -> (r: HighRiskChange)
    ensures
        r.deep_view() == risk(kind@, prev@, curr@, detail@),
{
    let r = HighRiskChange {
        change_type: to_owned_string(kind),
        section_path: Vec::new(),
        prev_content: prev,
        curr_content: curr,
        risk_detail: to_owned_string(detail),
    };
    assert(r.section_path.deep_view() =~= Seq::<Seq<char>>::empty());
    r
}

impl CompareVersionsTool {
    /// The risk flag of a change from `prev_text` to `curr_text`, as
    /// `high_risk` says.
    pub fn detect_high_risk(prev_text: &str, curr_text: &str) -> (r: Option<HighRiskChange>)
        ensures
            r.deep_view() == high_risk(prev_text@, curr_text@),
    {
        let p = chars_of(prev_text);
        let c = chars_of(curr_text);
        let ql = qualification_list();
        let pq = any_keyword(&p, &ql);
        let cq = any_keyword(&c, &ql);
        if pq && cq && change_above_exec(prev_text, curr_text, 3, 10) {
            return Some(
                make_risk(
                    "qualification",
                    take_prefix(prev_text, 200),
                    take_prefix(curr_text, 200),
                    "资格条件内容发生了变化，可能放宽或收紧供应商准入，需检查是否存在倾向性调整",
                ),
            );
        }
        if !pq && cq {
            return Some(
                make_risk(
                    "qualification",
                    to_owned_string("(旧版无资格条件)"),
                    take_prefix(curr_text, 200),
                    "新版新增了资格条件，需检查是否构成额外限制",
                ),
            );
        }
        if pq && !cq {
            return Some(
                make_risk(
                    "qualification",
                    take_prefix(prev_text, 200),
                    to_owned_string("(新版移除了资格条件)"),
                    "资格条件被移除，需确认是否为遗漏",
                ),
            );
        }
        let sl = scoring_list();
        if any_keyword(&p, &sl) && any_keyword(&c, &sl) && change_above_exec(prev_text, curr_text, 3, 10) {
            return Some(
                make_risk(
                    "scoring",
                    take_prefix(prev_text, 200),
                    take_prefix(curr_text, 200),
                    "评分标准发生了变化，可能调整了竞争格局，需检查是否存在倾向性评分",
                ),
            );
        }
        let dl = deadline_list();
        if any_keyword(&p, &dl) && any_keyword(&c, &dl) && change_above_exec(prev_text, curr_text, 2, 10) {
            return Some(
                make_risk(
                    "deadline",
                    take_prefix(prev_text, 200),
                    take_prefix(curr_text, 200),
                    "关键日期发生了变化，需检查是否满足法定最短期限",
                ),
            );
        }
        let gl = deposit_list();
        if (any_keyword(&p, &gl) || any_keyword(&c, &gl)) && change_above_exec(prev_text, curr_text, 2, 10) {
            return Some(
                make_risk(
                    "deposit",
                    take_prefix(prev_text, 200),
                    take_prefix(curr_text, 200),
                    "保证金条款发生了变化，需检查比例是否合规",
                ),
            );
        }
        None
    }
}

/// The content of a chunk of the earlier (or current) version sent by the
/// caller.
pub ghost struct SentView {
    pub chunk_id: Seq<char>,
    pub section_path: Seq<Seq<char>>,
    pub text: Seq<char>,
}

impl DeepView for PreviousChunk {
    type V = SentView;

    open spec fn deep_view(&self) -> SentView {
        SentView { chunk_id: self.chunk_id@, section_path: self.section_path.deep_view(), text: self.text@ }
    }
}

impl DeepView for CurrentChunk {
    type V = SentView;

    open spec fn deep_view(&self) -> SentView {
        SentView { chunk_id: self.chunk_id@, section_path: self.section_path.deep_view(), text: self.text@ }
    }
}

/// The content of an added or removed clause.
pub ghost struct ItemView {
    pub chunk_id: Seq<char>,
    pub section_path: Seq<Seq<char>>,
    pub text_preview: Seq<char>,
    pub page_location: Seq<char>,
}

impl DeepView for DiffItem {
    type V = ItemView;

    open spec fn deep_view(&self) -> ItemView {
        ItemView {
            chunk_id: self.chunk_id@,
            section_path: self.section_path.deep_view(),
            text_preview: self.text_preview@,
            page_location: self.page_location@,
        }
    }
}

/// The content of a modified clause.
pub ghost struct ModView {
    pub prev_chunk_id: Seq<char>,
    pub curr_chunk_id: Seq<char>,
    pub section_path: Seq<Seq<char>>,
    pub prev_text_preview: Seq<char>,
    pub curr_text_preview: Seq<char>,
    pub change_description: Seq<char>,
    pub change_diff: int,
    pub change_base: int,
}

impl DeepView for ModifiedItem {
    type V = ModView;

    open spec fn deep_view(&self) -> ModView {
        ModView {
            prev_chunk_id: self.prev_chunk_id@,
            curr_chunk_id: self.curr_chunk_id@,
            section_path: self.section_path.deep_view(),
            prev_text_preview: self.prev_text_preview@,
            curr_text_preview: self.curr_text_preview@,
            change_description: self.change_description@,
            change_diff: self.change_diff as int,
            change_base: self.change_base as int,
        }
    }
}

/// A character that separates words: neither alphanumeric nor a CJK
/// ideograph.
pub open spec fn word_sep(c: char) -> bool {
    !alphanumeric(c) && !is_cjk(c)
}

/// Cutting `s` at separators: the pieces finished so far and the piece
/// being read.
pub open spec fn split_state(s: Seq<char>) -> (Seq<Seq<char>>, Seq<char>)
    decreases s.len(),
{
    if s.len() == 0 {
        (Seq::empty(), Seq::empty())
    } else {
        let (done, cur) = split_state(s.drop_last());
        if word_sep(s.last()) {
            (done.push(cur), Seq::empty())
        } else {
            (done, cur.push(s.last()))
        }
    }
}

/// The pieces of `ps` of at least two characters, in order.
pub open spec fn long_pieces(ps: Seq<Seq<char>>) -> Seq<Seq<char>>
    decreases ps.len(),
{
    if ps.len() == 0 {
        Seq::empty()
    } else if ps.last().len() >= 2 {
        long_pieces(ps.drop_last()).push(ps.last())
    } else {
        long_pieces(ps.drop_last())
    }
}

/// The words of `s`: the pieces between separators, of at least two
/// characters (`str::split` with the separator, then a filter).
pub open spec fn words_of(s: Seq<char>) -> Seq<Seq<char>> {
    let (done, cur) = split_state(s);
    long_pieces(done.push(cur))
}

/// How many words of `pw` (with repeats) occur among `cw`.
pub open spec fn overlap(pw: Seq<Seq<char>>, cw: Seq<Seq<char>>) -> nat
    decreases pw.len(),
{
    if pw.len() == 0 {
        0
    } else {
        overlap(pw.drop_last(), cw) + if cw.contains(pw.last()) {
            1nat
        } else {
            0nat
        }
    }
}

/// The first id of `order` whose chunk has the headings `path`.
pub open spec fn exact_match(order: Seq<Seq<char>>, chunks: Map<Seq<char>, ChunkView>, path: Seq<Seq<char>>) -> Option<Seq<char>>
    decreases order.len(),
{
    if order.len() == 0 {
        None
    } else {
        match exact_match(order.drop_last(), chunks, path) {
            Some(id) => Some(id),
            None => {
                let id = order.last();
                if chunks.dom().contains(id) && chunks[id].section_path == path {
                    Some(id)
                } else {
                    None
                }
            },
        }
    }
}

/// The last heading of `path` (empty when there is none).
pub open spec fn last_heading(path: Seq<Seq<char>>) -> Seq<char> {
    if path.len() > 0 {
        path.last()
    } else {
        Seq::empty()
    }
}

/// Among the chunks of `order` whose last heading is `last`, the first one
/// with the most words shared with `pw` (more than none), and that count.
pub open spec fn best_overlap(
    order: Seq<Seq<char>>,
    chunks: Map<Seq<char>, ChunkView>,
    last: Seq<char>,
    pw: Seq<Seq<char>>,
) -> (Option<Seq<char>>, nat)
    decreases order.len(),
{
    if order.len() == 0 {
        (None, 0)
    } else {
        let (b, o) = best_overlap(order.drop_last(), chunks, last, pw);
        let id = order.last();
        if chunks.dom().contains(id) && chunks[id].section_path.len() > 0 && chunks[id].section_path.last() == last
            && overlap(pw, words_of(chunks[id].text)) > o {
            (Some(id), overlap(pw, words_of(chunks[id].text)))
        } else {
            (b, o)
        }
    }
}

/// The current chunk matched to an earlier one: the first with the same
/// headings, else the best by shared words among those with the same last
/// heading.
pub open spec fn matching_id(
    order: Seq<Seq<char>>,
    chunks: Map<Seq<char>, ChunkView>,
    path: Seq<Seq<char>>,
    text: Seq<char>,
) -> Option<Seq<char>> {
    match exact_match(order, chunks, path) {
        Some(id) => Some(id),
        None => best_overlap(order, chunks, last_heading(path), words_of(text)).0,
    }
}

/// Whether two lists of strings are equal.
fn paths_eq(a: &Vec<String>, b: &[String]) -> (r: bool)
    ensures
        r == (a.deep_view() == b.deep_view()),
{
    if a.len() != b.len() {
        assert(a.deep_view().len() != b.deep_view().len());
        return false;
    }
    let mut i: usize = 0;
    while i < a.len()
        invariant
            i <= a@.len(),
            a@.len() == b@.len(),
            forall|j: int| 0 <= j < i ==> a.deep_view()[j] == b.deep_view()[j],
        decreases a@.len() - i,
    {
        if !str_eq(a[i].as_str(), b[i].as_str()) {
            assert(a.deep_view()[i as int] != b.deep_view()[i as int]);
            return false;
        }
        i += 1;
    }
    assert(a.deep_view() =~= b.deep_view());
    true
}

/// The words of `t`.
fn words_exec(t: &str) -> (r: Vec<String>)
    ensures
        r.deep_view() == words_of(t@),
{
    let v = chars_of(t);
    let mut pieces: Vec<String> = Vec::new();
    let mut cur: Vec<char> = Vec::new();
    let mut i: usize = 0;
    while i < v.len()
        invariant
            i <= v@.len(),
            v@ == t@,
            (pieces.deep_view(), cur@) == split_state(t@.take(i as int)),
        decreases v@.len() - i,
    {
        let c = v[i];
        proof {
            assert(t@.take(i + 1).drop_last() =~= t@.take(i as int));
            assert(t@.take(i + 1).last() == c);
        }
        let sep = !is_alphanumeric(c) && !('\u{4e00}' <= c && c <= '\u{9fff}');
        if sep {
            let piece = crate::text::string_from_chars(cur.as_slice());
            let ghost p0 = pieces.deep_view();
            pieces.push(piece);
            cur = Vec::new();
            proof {
                assert(pieces.deep_view() =~= p0.push(piece@));
            }
        } else {
            cur.push(c);
        }
        i += 1;
    }
    proof {
        assert(t@.take(v@.len() as int) =~= t@);
    }
    let last = crate::text::string_from_chars(cur.as_slice());
    let ghost p0 = pieces.deep_view();
    pieces.push(last);
    proof {
        assert(pieces.deep_view() =~= p0.push(cur@));
    }
    let ghost pv = pieces.deep_view();
    let mut out: Vec<String> = Vec::new();
    let mut k: usize = 0;
    while k < pieces.len()
        invariant
            k <= pieces@.len(),
            pv == pieces.deep_view(),
            out.deep_view() == long_pieces(pv.take(k as int)),
        decreases pieces@.len() - k,
    {
        proof {
            assert(pv.take(k + 1).drop_last() =~= pv.take(k as int));
            assert(pv.take(k + 1).last() == pieces@[k as int]@);
        }
        if crate::text::char_count(pieces[k].as_str()) >= 2 {
            let ghost o0 = out.deep_view();
            out.push(pieces[k].clone());
            proof {
                assert(out.deep_view() =~= o0.push(pieces@[k as int]@));
            }
        }
        k += 1;
    }
    proof {
        assert(pv.take(pieces@.len() as int) =~= pv);
    }
    out
}

/// How many words of `pw` occur among `cw`.
fn overlap_exec(pw: &Vec<String>, cw: &Vec<String>) -> (r: usize)
    ensures
        r == overlap(pw.deep_view(), cw.deep_view()),
{
    let ghost pv = pw.deep_view();
    let mut n: usize = 0;
    let mut i: usize = 0;
    while i < pw.len()
        invariant
            i <= pw@.len(),
            pv == pw.deep_view(),
            n == overlap(pv.take(i as int), cw.deep_view()),
            n <= i,
        decreases pw@.len() - i,
    {
        proof {
            assert(pv.take(i + 1).drop_last() =~= pv.take(i as int));
            assert(pv.take(i + 1).last() == pw@[i as int]@);
        }
        if crate::deep_eq::contains_deep(cw, &pw[i]) {
            n += 1;
        }
        i += 1;
    }
    proof {
        assert(pv.take(pw@.len() as int) =~= pv);
    }
    n
}

impl CompareVersionsTool {
    /// The current chunk that an earlier chunk with headings `prev_path` and
    /// text `prev_text` corresponds to, as `matching_id` says.
    pub fn find_matching_chunk(&self, prev_path: &[String], prev_text: &str) -> (r: Option<&Chunk>)
        requires
            self.current_chunks.wf(),
        ensures
            match matching_id(
                self.current_order.deep_view(),
                self.current_chunks.deep_view(),
                prev_path.deep_view(),
                prev_text@,
            ) {
                Some(id) => r is Some && self.current_chunks.deep_view().dom().contains(id) && r->Some_0.deep_view()
                    == self.current_chunks.deep_view()[id],
                None => r is None,
            },
    {
        let ghost ov = self.current_order.deep_view();
        let ghost cv = self.current_chunks.deep_view();
        let mut i: usize = 0;
        while i < self.current_order.len()
            invariant
                i <= self.current_order@.len(),
                self.current_chunks.wf(),
                ov == self.current_order.deep_view(),
                cv == self.current_chunks.deep_view(),
                exact_match(ov.take(i as int), cv, prev_path.deep_view()) is None,
            decreases self.current_order@.len() - i,
        {
            proof {
                assert(ov.take(i + 1).drop_last() =~= ov.take(i as int));
                assert(ov.take(i + 1).last() == self.current_order@[i as int]@);
            }
            match self.current_chunks.get(self.current_order[i].as_str()) {
                Some(ch) => {
                    if paths_eq(&ch.section_path, prev_path) {
                        proof {
                            lemma_exact_prefix(ov, cv, prev_path.deep_view(), i + 1);
                        }
                        return Some(ch);
                    }
                },
                None => {},
            }
            i += 1;
        }
        proof {
            assert(ov.take(self.current_order@.len() as int) =~= ov);
        }
        let prev_last: &str = if prev_path.len() > 0 {
            prev_path[prev_path.len() - 1].as_str()
        } else {
            ""
        };
        proof {
            if prev_path@.len() > 0 {
                assert(prev_last@ == last_heading(prev_path.deep_view()));
            } else {
                assert(prev_last@ =~= last_heading(prev_path.deep_view())) by {
                    reveal_strlit("");
                }
            }
        }
        let pw = words_exec(prev_text);
        let mut best: Option<&Chunk> = None;
        let mut best_overlap_n: usize = 0;
        let mut j: usize = 0;
        while j < self.current_order.len()
            invariant
                j <= self.current_order@.len(),
                self.current_chunks.wf(),
                ov == self.current_order.deep_view(),
                cv == self.current_chunks.deep_view(),
                ({
                    let (b, o) = best_overlap(ov.take(j as int), cv, prev_last@, pw.deep_view());
                    &&& best_overlap_n == o
                    &&& match b {
                        Some(id) => best is Some && cv.dom().contains(id) && best->Some_0.deep_view() == cv[id],
                        None => best is None,
                    }
                }),
            decreases self.current_order@.len() - j,
        {
            proof {
                assert(ov.take(j + 1).drop_last() =~= ov.take(j as int));
                assert(ov.take(j + 1).last() == self.current_order@[j as int]@);
            }
            match self.current_chunks.get(self.current_order[j].as_str()) {
                Some(ch) => {
                    let n = ch.section_path.len();
                    if n > 0 && str_eq(ch.section_path[n - 1].as_str(), prev_last) {
                        let cw = words_exec(ch.text.as_str());
                        let ov_n = overlap_exec(&pw, &cw);
                        if ov_n > best_overlap_n {
                            best_overlap_n = ov_n;
                            best = Some(ch);
                        }
                    }
                },
                None => {},
            }
            j += 1;
        }
        proof {
            assert(ov.take(self.current_order@.len() as int) =~= ov);
        }
        best
    }
}

/// A match found among the first `n` ids stays the first match.
proof fn lemma_exact_prefix(order: Seq<Seq<char>>, chunks: Map<Seq<char>, ChunkView>, path: Seq<Seq<char>>, n: int)
    requires
        0 <= n <= order.len(),
        exact_match(order.take(n), chunks, path) is Some,
    ensures
        exact_match(order, chunks, path) == exact_match(order.take(n), chunks, path),
    decreases order.len() - n,
{
    if n < order.len() {
        assert(order.take(n + 1).drop_last() =~= order.take(n));
        lemma_exact_prefix(order, chunks, path, n + 1);
    } else {
        assert(order.take(n) =~= order);
    }
}

/// What the comparison has gathered from the earlier chunks so far.
pub ghost struct DiffAcc {
    pub removed: Seq<ItemView>,
    pub modified: Seq<ModView>,
    pub risks: Seq<RiskView>,
    pub matched: Seq<Seq<char>>,
}

/// An added or removed clause.
pub open spec fn item_of(id: Seq<char>, path: Seq<Seq<char>>, text: Seq<char>) -> ItemView {
    ItemView { chunk_id: id, section_path: path, text_preview: take_chars(text, 200), page_location: Seq::empty() }
}

/// A clause modified from `p` to `c`.
pub open spec fn mod_of(p: SentView, c: ChunkView) -> ModView {
    ModView {
        prev_chunk_id: p.chunk_id,
        curr_chunk_id: c.chunk_id,
        section_path: p.section_path,
        prev_text_preview: take_chars(p.text, 200),
        curr_text_preview: take_chars(c.text, 200),
        change_description: if change_above(p.text, c.text, 5, 10) {
            "实质修改"@
        } else {
            "轻微修改"@
        },
        change_diff: diff_count(p.text, c.text),
        change_base: change_base(p.text, c.text),
    }
}

/// A risk flag placed under `path`.
pub open spec fn with_path(r: RiskView, path: Seq<Seq<char>>) -> RiskView {
    RiskView { section_path: path, ..r }
}

/// One earlier chunk compared: unmatched, it is removed; matched, its
/// match is recorded, and a change above 0.15 makes it modified (with its
/// risk flag, if any).
pub open spec fn diff_step(a: DiffAcc, p: SentView, order: Seq<Seq<char>>, chunks: Map<Seq<char>, ChunkView>) -> DiffAcc {
    match matching_id(order, chunks, p.section_path, p.text) {
        None => DiffAcc { removed: a.removed.push(item_of(p.chunk_id, p.section_path, p.text)), ..a },
        Some(id) => {
            let c = chunks[id];
            if change_above(p.text, c.text, 15, 100) {
                DiffAcc {
                    removed: a.removed,
                    modified: a.modified.push(mod_of(p, c)),
                    risks: match high_risk(p.text, c.text) {
                        Some(r) => a.risks.push(with_path(r, p.section_path)),
                        None => a.risks,
                    },
                    matched: a.matched.push(c.chunk_id),
                }
            } else {
                DiffAcc { matched: a.matched.push(c.chunk_id), ..a }
            }
        },
    }
}

/// The earlier chunks compared in order.
pub open spec fn diff_fold(prevs: Seq<SentView>, order: Seq<Seq<char>>, chunks: Map<Seq<char>, ChunkView>) -> DiffAcc
    decreases prevs.len(),
{
    if prevs.len() == 0 {
        DiffAcc { removed: Seq::empty(), modified: Seq::empty(), risks: Seq::empty(), matched: Seq::empty() }
    } else {
        diff_step(diff_fold(prevs.drop_last(), order, chunks), prevs.last(), order, chunks)
    }
}

/// Some modified clause has the current chunk `id`.
pub open spec fn modified_has(mods: Seq<ModView>, id: Seq<char>) -> bool {
    exists|i: int| 0 <= i < mods.len() && #[trigger] mods[i].curr_chunk_id == id
}

/// The sent current chunks that nothing matched, as added clauses.
pub open spec fn added_items(currs: Seq<SentView>, acc: DiffAcc) -> Seq<ItemView>
    decreases currs.len(),
{
    if currs.len() == 0 {
        Seq::empty()
    } else {
        let prev = added_items(currs.drop_last(), acc);
        let c = currs.last();
        if !acc.matched.contains(c.chunk_id) && !modified_has(acc.modified, c.chunk_id) {
            prev.push(item_of(c.chunk_id, c.section_path, c.text))
        } else {
            prev
        }
    }
}

/// The summary line of the counts.
pub open spec fn diff_summary(added: nat, removed: nat, modified: nat, risky: nat) -> Seq<char> {
    if added == 0 && removed == 0 && modified == 0 {
        "✅ 两个版本无差异"@
    } else {
        let p1: Seq<Seq<char>> = if added > 0 {
            seq!["新增 "@ + decimal(added) + " 条"@]
        } else {
            Seq::empty()
        };
        let p2: Seq<Seq<char>> = if removed > 0 {
            seq!["删除 "@ + decimal(removed) + " 条"@]
        } else {
            Seq::empty()
        };
        let p3: Seq<Seq<char>> = if modified > 0 {
            seq!["修改 "@ + decimal(modified) + " 条"@]
        } else {
            Seq::empty()
        };
        let p4: Seq<Seq<char>> = if risky > 0 {
            seq!["⚠️ "@ + decimal(risky) + " 条高风险变更"@]
        } else {
            Seq::empty()
        };
        join_seq(p1 + p2 + p3 + p4, "，"@)
    }
}

/// A count followed by its unit, as a summary part.
fn count_part(pre: &str, n: usize, post: &str) -> (r: String)
    ensures
        r@ == pre@ + decimal(n as nat) + post@,
{
    let mut s = to_owned_string(pre);
    push_str(&mut s, decimal_string(n as u64).as_str());
    push_str(&mut s, post);
    s
}

/// An added or removed clause.
fn make_item(id: &String, path: &Vec<String>, text: &String) -> (r: DiffItem)
    ensures
        r.deep_view() == item_of(id@, path.deep_view(), text@),
{
    let r = DiffItem {
        chunk_id: id.clone(),
        section_path: path.dup(),
        text_preview: take_prefix(text.as_str(), 200),
        page_location: String::new(),
    };
    proof {
        assert(r.page_location@ =~= Seq::<char>::empty());
    }
    r
}

impl CompareVersionsTool {
    /// Compares the earlier chunks with the current version: refuses an
    /// empty list of earlier chunks; otherwise gives the removed, modified
    /// and added clauses, the risk flags, the counts and a summary, as
    /// `diff_fold`, `added_items` and `diff_summary` say.
    pub fn execute(&self, args: &CompareVersionsArgs) -> (r: Result<DiffResult, String>)
        requires
            self.current_chunks.wf(),
        ensures
            r is Err <==> args.previous_chunks@.len() == 0,
            r matches Err(e) ==> e@ == "previous_chunks 不能为空"@,
            r matches Ok(res) ==> {
                let acc = diff_fold(
                    args.previous_chunks.deep_view(),
                    self.current_order.deep_view(),
                    self.current_chunks.deep_view(),
                );
                let added = added_items(args.current_chunks.deep_view(), acc);
                &&& res.removed.deep_view() == acc.removed
                &&& res.modified.deep_view() == acc.modified
                &&& res.high_risk_changes.deep_view() == acc.risks
                &&& res.added.deep_view() == added
                &&& res.stats.added_count == added.len()
                &&& res.stats.removed_count == acc.removed.len()
                &&& res.stats.modified_count == acc.modified.len()
                &&& res.stats.high_risk_count == acc.risks.len()
                &&& res.stats.unchanged_count == args.previous_chunks@.len() - acc.removed.len() - acc.modified.len()
                &&& res.summary@ == diff_summary(added.len(), acc.removed.len(), acc.modified.len(), acc.risks.len())
            },
    {
        if args.previous_chunks.len() == 0 {
            return Err(to_owned_string("previous_chunks 不能为空"));
        }
        let ghost ov = self.current_order.deep_view();
        let ghost cv = self.current_chunks.deep_view();
        let ghost pv = args.previous_chunks.deep_view();
        let mut removed: Vec<DiffItem> = Vec::new();
        let mut modified: Vec<ModifiedItem> = Vec::new();
        let mut risks: Vec<HighRiskChange> = Vec::new();
        let mut matched: Vec<String> = Vec::new();
        let mut i: usize = 0;
        while i < args.previous_chunks.len()
            invariant
                i <= args.previous_chunks@.len(),
                self.current_chunks.wf(),
                ov == self.current_order.deep_view(),
                cv == self.current_chunks.deep_view(),
                pv == args.previous_chunks.deep_view(),
                ({
                    let acc = diff_fold(pv.take(i as int), ov, cv);
                    &&& removed.deep_view() == acc.removed
                    &&& modified.deep_view() == acc.modified
                    &&& risks.deep_view() == acc.risks
                    &&& matched.deep_view() == acc.matched
                }),
                removed@.len() + modified@.len() <= i,
            decreases args.previous_chunks@.len() - i,
        {
            proof {
                assert(pv.take(i + 1).drop_last() =~= pv.take(i as int));
                assert(pv.take(i + 1).last() == args.previous_chunks@[i as int].deep_view());
            }
            let prev = &args.previous_chunks[i];
            match self.find_matching_chunk(prev.section_path.as_slice(), prev.text.as_str()) {
                Some(c) => {
                    let ghost m0 = matched.deep_view();
                    matched.push(c.chunk_id.clone());
                    proof {
                        assert(matched.deep_view() =~= m0.push(c.chunk_id@));
                    }
                    let (d, base) = change_metrics(prev.text.as_str(), c.text.as_str());
                    if above(d, base, 15, 100) {
                        let desc = if above(d, base, 5, 10) {
                            to_owned_string("实质修改")
                        } else {
                            to_owned_string("轻微修改")
                        };
                        let item = ModifiedItem {
                            prev_chunk_id: prev.chunk_id.clone(),
                            curr_chunk_id: c.chunk_id.clone(),
                            section_path: prev.section_path.dup(),
                            prev_text_preview: take_prefix(prev.text.as_str(), 200),
                            curr_text_preview: take_prefix(c.text.as_str(), 200),
                            change_description: desc,
                            change_diff: d,
                            change_base: base,
                        };
                        match Self::detect_high_risk(prev.text.as_str(), c.text.as_str()) {
                            Some(rk) => {
                                let placed = HighRiskChange {
                                    change_type: rk.change_type,
                                    section_path: prev.section_path.dup(),
                                    prev_content: rk.prev_content,
                                    curr_content: rk.curr_content,
                                    risk_detail: rk.risk_detail,
                                };
                                let ghost k0 = risks.deep_view();
                                risks.push(placed);
                                proof {
                                    assert(risks.deep_view() =~= k0.push(placed.deep_view()));
                                }
                            },
                            None => {},
                        }
                        let ghost d0 = modified.deep_view();
                        modified.push(item);
                        proof {
                            assert(modified.deep_view() =~= d0.push(item.deep_view()));
                        }
                    }
                },
                None => {
                    let item = make_item(&prev.chunk_id, &prev.section_path, &prev.text);
                    let ghost r0 = removed.deep_view();
                    removed.push(item);
                    proof {
                        assert(removed.deep_view() =~= r0.push(item.deep_view()));
                    }
                },
            }
            i += 1;
        }
        proof {
            assert(pv.take(args.previous_chunks@.len() as int) =~= pv);
        }
        let ghost acc = diff_fold(pv, ov, cv);
        let ghost qv = args.current_chunks.deep_view();
        let mut added: Vec<DiffItem> = Vec::new();
        let mut j: usize = 0;
        while j < args.current_chunks.len()
            invariant
                j <= args.current_chunks@.len(),
                qv == args.current_chunks.deep_view(),
                matched.deep_view() == acc.matched,
                modified.deep_view() == acc.modified,
                added.deep_view() == added_items(qv.take(j as int), acc),
                added@.len() <= j,
            decreases args.current_chunks@.len() - j,
        {
            proof {
                assert(qv.take(j + 1).drop_last() =~= qv.take(j as int));
                assert(qv.take(j + 1).last() == args.current_chunks@[j as int].deep_view());
            }
            let curr = &args.current_chunks[j];
            if !crate::deep_eq::contains_deep(&matched, &curr.chunk_id) {
                let mut seen = false;
                let mut q: usize = 0;
                while q < modified.len()
                    invariant
                        q <= modified@.len(),
                        modified.deep_view() == acc.modified,
                        seen == exists|x: int| 0 <= x < q && #[trigger] acc.modified[x].curr_chunk_id == curr.chunk_id@,
                    decreases modified@.len() - q,
                {
                    if str_eq(modified[q].curr_chunk_id.as_str(), curr.chunk_id.as_str()) {
                        proof {
                            assert(acc.modified[q as int].curr_chunk_id == curr.chunk_id@);
                        }
                        seen = true;
                    }
                    q += 1;
                }
                if !seen {
                    let item = make_item(&curr.chunk_id, &curr.section_path, &curr.text);
                    let ghost a0 = added.deep_view();
                    added.push(item);
                    proof {
                        assert(added.deep_view() =~= a0.push(item.deep_view()));
                    }
                }
            }
            j += 1;
        }
        proof {
            assert(qv.take(args.current_chunks@.len() as int) =~= qv);
        }
        let total_prev = args.previous_chunks.len();
        let unchanged = total_prev - (removed.len() + modified.len());
        let summary = if added.len() == 0 && removed.len() == 0 && modified.len() == 0 {
            to_owned_string("✅ 两个版本无差异")
        } else {
            let mut parts: Vec<String> = Vec::new();
            if added.len() > 0 {
                parts.push(count_part("新增 ", added.len(), " 条"));
            }
            if removed.len() > 0 {
                parts.push(count_part("删除 ", removed.len(), " 条"));
            }
            if modified.len() > 0 {
                parts.push(count_part("修改 ", modified.len(), " 条"));
            }
            if risks.len() > 0 {
                parts.push(count_part("⚠️ ", risks.len(), " 条高风险变更"));
            }
            proof {
                let a = added@.len() as nat;
                let rm = removed@.len() as nat;
                let md = modified@.len() as nat;
                let rk = risks@.len() as nat;
                let p1: Seq<Seq<char>> = if a > 0 {
                    seq!["新增 "@ + decimal(a) + " 条"@]
                } else {
                    Seq::empty()
                };
                let p2: Seq<Seq<char>> = if rm > 0 {
                    seq!["删除 "@ + decimal(rm) + " 条"@]
                } else {
                    Seq::empty()
                };
                let p3: Seq<Seq<char>> = if md > 0 {
                    seq!["修改 "@ + decimal(md) + " 条"@]
                } else {
                    Seq::empty()
                };
                let p4: Seq<Seq<char>> = if rk > 0 {
                    seq!["⚠️ "@ + decimal(rk) + " 条高风险变更"@]
                } else {
                    Seq::empty()
                };
                assert(parts.deep_view() =~= p1 + p2 + p3 + p4);
            }
            join_strings(&parts, "，")
        };
        let stats = DiffStats {
            added_count: added.len(),
            removed_count: removed.len(),
            modified_count: modified.len(),
            high_risk_count: risks.len(),
            unchanged_count: unchanged,
        };
        Ok(DiffResult { added, removed, modified, high_risk_changes: risks, stats, summary })
    }
}

} // verus!
