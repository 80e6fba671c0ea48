//! `check_imported_products`: whether a procurement text buys imported
//! products, and whether the finance department approved it (rules of the
//! government procurement measures on imported products, articles 4 to 7).
//! Keyword matching and rules only; no I/O.
use vstd::prelude::*;

use crate::deep_eq::contains_deep;
use crate::text::{
    all_white, byte_len, char_width, chars_of, contains_chars, contains_seq, find_from, is_blank,
    occurs_at, push_str, str_eq, to_owned_string,
};
use crate::tools::keywords::{
    any_hit, any_keyword, byte_at, find_first, first_occurrence, hits, lemma_byte_at_mono, lemma_byte_at_step,
    lemma_byte_split, join_seq, join_strings, keyword_hits, strs,
    sub_chars,
};

verus! {

/// Words that show a purchase of imported products (each one needs approval).
pub open spec fn import_purchase_words() -> Seq<Seq<char>> {
    seq!["采购进口"@, "采购原装进口"@, "进口设备"@, "进口产品"@, "境外采购"@, "境外提供"@]
}

/// Weak signs of imports, which count only where no excluding phrase stands
/// near them.
pub open spec fn import_weak_words() -> Seq<Seq<char>> {
    seq!["原装进口"@, "海外"@, "国际品牌"@, "CE认证"@, "FDA认证"@, "UL认证"@]
}

/// Phrases that, near a weak sign, show that it is no purchase of imports.
pub open spec fn exclude_context_words() -> Seq<Seq<char>> {
    seq![
        "不接受"@,
        "禁止"@,
        "不得采购"@,
        "不得使用"@,
        "未经审批"@,
        "海外项目"@,
        "海外市场"@,
        "国际品牌不"@,
        "不接受国际"@,
    ]
}

/// Words that only cite foreign or international standards.
pub open spec fn standard_reference_words() -> Seq<Seq<char>> {
    seq!["国外标准"@, "国际标准"@]
}

/// Vague "domestic first" wordings.
pub open spec fn domestic_priority_words() -> Seq<Seq<char>> {
    seq!["国产优先"@, "优先采购国产"@, "优先采购本国产品"@, "国产产品优先"@, "支持国产"@]
}

fn import_purchase_list() -> (r: Vec<&'static str>)
    ensures
        strs(r@) == import_purchase_words(),
{
    let mut v: Vec<&'static str> = Vec::new();
    v.push("采购进口");
    v.push("采购原装进口");
    v.push("进口设备");
    v.push("进口产品");
    v.push("境外采购");
    v.push("境外提供");
    assert(strs(v@) =~= import_purchase_words());
    v
}

fn import_weak_list() -> (r: Vec<&'static str>)
    ensures
        strs(r@) == import_weak_words(),
{
    let mut v: Vec<&'static str> = Vec::new();
    v.push("原装进口");
    v.push("海外");
    v.push("国际品牌");
    v.push("CE认证");
    v.push("FDA认证");
    v.push("UL认证");
    assert(strs(v@) =~= import_weak_words());
    v
}

fn exclude_context_list() -> (r: Vec<&'static str>)
    ensures
        strs(r@) == exclude_context_words(),
{
    let mut v: Vec<&'static str> = Vec::new();
    v.push("不接受");
    v.push("禁止");
    v.push("不得采购");
    v.push("不得使用");
    v.push("未经审批");
    v.push("海外项目");
    v.push("海外市场");
    v.push("国际品牌不");
    v.push("不接受国际");
    assert(strs(v@) =~= exclude_context_words());
    v
}

fn standard_reference_list() -> (r: Vec<&'static str>)
    ensures
        strs(r@) == standard_reference_words(),
{
    let mut v: Vec<&'static str> = Vec::new();
    v.push("国外标准");
    v.push("国际标准");
    assert(strs(v@) =~= standard_reference_words());
    v
}

fn domestic_priority_list() -> (r: Vec<&'static str>)
    ensures
        strs(r@) == domestic_priority_words(),
{
    let mut v: Vec<&'static str> = Vec::new();
    v.push("国产优先");
    v.push("优先采购国产");
    v.push("优先采购本国产品");
    v.push("国产产品优先");
    v.push("支持国产");
    assert(strs(v@) =~= domestic_priority_words());
    v
}

/// The arguments of the tool.
pub struct CheckImportedProductsArgs {
    /// The project description.
    pub project_description: String,
    /// "货物", "工程" or "服务".
    pub procurement_category: String,
    /// Whether an import approval exists.
    pub has_import_approval: Option<bool>,
    /// The approval document number, if any.
    pub approval_document: Option<String>,
}

/// The result of the check.
pub struct ImportedProductCheckResult {
    /// "compliant", "violation" or "clean".
    pub status: String,
    pub detected_keywords: Vec<String>,
    pub imported_detected: bool,
    pub has_approval: bool,
    pub need_approval: bool,
    pub risk_signals: Vec<String>,
    pub suggestion: String,
    pub legal_basis: String,
}

/// The tool.
pub struct CheckImportedProductsTool;

/// The first character index at or after `i` before which at least
/// `target` bytes lie (the length of `t` when there is none).
pub open spec fn reach(t: Seq<char>, target: int, i: int) -> int
    decreases t.len() - i,
{
    if i >= t.len() || byte_at(t, i) >= target {
        i
    } else {
        reach(t, target, i + 1)
    }
}

/// Start of the context window: the last character boundary at most 20
/// bytes before the keyword at `p`.
pub open spec fn window_start(t: Seq<char>, p: int) -> int {
    if byte_at(t, p) <= 20 {
        0
    } else {
        reach(t, byte_at(t, p) - 20 + 1, 0) - 1
    }
}

/// End of the context window: the first character boundary at least 20
/// bytes after the keyword of `kb` bytes at `p` (or the end of the text).
pub open spec fn window_end(t: Seq<char>, p: int, kb: int) -> int {
    let want = byte_at(t, p) + kb + 20;
    let cap = if want <= byte_len(t) {
        want
    } else {
        byte_len(t) as int
    };
    reach(t, cap, 0)
}

/// The text around the first occurrence of `k` in `t`.
pub open spec fn context_of(t: Seq<char>, k: Seq<char>) -> Seq<char> {
    let p = first_occurrence(t, k);
    t.subrange(window_start(t, p), window_end(t, p, byte_len(k) as int))
}

/// The weak sign `k` counts in `t`: it occurs, and no excluding phrase
/// stands in the text around its first occurrence.
pub open spec fn weak_counts(t: Seq<char>, k: Seq<char>) -> bool {
    contains_seq(t, k) && !any_hit(context_of(t, k), exclude_context_words())
}

/// The weak signs of `ws` that count in `t`, in order.
pub open spec fn weak_hits(t: Seq<char>, ws: Seq<Seq<char>>) -> Seq<Seq<char>>
    decreases ws.len(),
{
    if ws.len() == 0 {
        Seq::empty()
    } else {
        let prev = weak_hits(t, ws.drop_last());
        if weak_counts(t, ws.last()) {
            prev.push(ws.last())
        } else {
            prev
        }
    }
}

/// `acc` followed by the words of `ks` that are not already there.
pub open spec fn push_absent(acc: Seq<Seq<char>>, ks: Seq<Seq<char>>) -> Seq<Seq<char>>
    decreases ks.len(),
{
    if ks.len() == 0 {
        acc
    } else {
        let a = push_absent(acc, ks.drop_last());
        if a.contains(ks.last()) {
            a
        } else {
            a.push(ks.last())
        }
    }
}

/// The keywords found in `t`: purchase words, counted weak signs, standard
/// references, then the "domestic first" wordings not listed yet.
pub open spec fn detected_words(t: Seq<char>) -> Seq<Seq<char>> {
    push_absent(
        hits(t, import_purchase_words()) + weak_hits(t, import_weak_words()) + hits(t, standard_reference_words()),
        hits(t, domestic_priority_words()),
    )
}

/// `t` shows a purchase of imported products.
pub open spec fn import_detected(t: Seq<char>) -> bool {
    hits(t, import_purchase_words()).len() > 0 || weak_hits(t, import_weak_words()).len() > 0
}

/// The warning on a vague "domestic first" wording `k`.
pub open spec fn domestic_signal(k: Seq<char>) -> Seq<char> {
    "出现'"@ + k
        + "'表述：招标文件不应使用'国产优先'等模糊表述，如需采购本国产品应明确'本项目不接受进口产品投标'。模糊表述可能在投诉中被质疑为倾向性或歧视性条款。"@
}

/// The warnings of the text.
pub open spec fn domestic_signals(t: Seq<char>) -> Seq<Seq<char>> {
    hits(t, domestic_priority_words()).map_values(|k: Seq<char>| domestic_signal(k))
}

/// The note on warnings that ends a clean suggestion.
pub open spec fn signal_note(signals: Seq<Seq<char>>) -> Seq<char> {
    if signals.len() == 0 {
        Seq::empty()
    } else {
        " 但存在以下需注意的信号："@ + join_seq(signals, "；"@)
    }
}

/// The status of the check.
pub open spec fn status_of(t: Seq<char>, approved: bool) -> Seq<char> {
    if import_detected(t) {
        if approved {
            "compliant"@
        } else {
            "violation"@
        }
    } else {
        "clean"@
    }
}

/// The suggestion of the check.
pub open spec fn suggestion_of(t: Seq<char>, approved: bool, doc: Option<Seq<char>>) -> Seq<char> {
    let kw = join_seq(detected_words(t), "、"@);
    if import_detected(t) {
        if approved {
            let info = match doc {
                Some(d) => " 审批文件编号："@ + d + "。"@,
                None => Seq::empty(),
            };
            "检测到进口产品相关关键词（"@ + kw + "），但已取得财政部门审批。"@ + info
                + " 建议在采购文件中明确引用审批文件编号，并注明进口产品清单。"@
        } else {
            "检测到进口产品相关关键词（"@ + kw
                + "），但未提供进口产品审批。根据《政府采购进口产品管理办法》第4-7条，采购进口产品须经财政部门审核同意。建议：① 如确需采购进口产品，先向财政部门申请审批；② 如非必需，修改采购文件，将'进口产品'改为'本国产品'。"@
        }
    } else if hits(t, standard_reference_words()).len() > 0 {
        "仅检测到国际/国外标准引用关键词（"@ + kw
            + "），属于技术规范引用范畴，不属于进口产品采购，无需取得进口产品审批。"@
            + signal_note(domestic_signals(t))
    } else {
        "未检测到进口产品相关关键词，采购内容为国产产品，无需进口审批。"@ + signal_note(domestic_signals(t))
    }
}

/// The legal basis quoted by the check.
pub open spec fn import_legal_basis() -> Seq<char> {
    "《政府采购进口产品管理办法》（财库〔2007〕119号）第4-7条：第4条 政府采购应当采购本国产品，确需采购进口产品的，实行审核管理。第5条 采购人需要采购的产品在中国境内无法获取或者无法以合理的商业条件获取，以及法律法规另有规定确需采购进口产品的，应当在获得财政部门核准后，依法开展政府采购活动。第6条 采购人报财政部门审核时，应当出具以下材料……第7条 财政部门审核同意后，采购人可以依法开展采购活动。"@
}

/// A category the tool accepts.
pub open spec fn valid_category(c: Seq<char>) -> bool {
    c == "货物"@ || c == "工程"@ || c == "服务"@
}

/// The error on an empty description.
pub open spec fn empty_description_error() -> Seq<char> {
    "project_description 不能为空"@
}

/// The error on an unknown category.
pub open spec fn category_error(c: Seq<char>) -> Seq<char> {
    "无效的 procurement_category '"@ + c + "'，有效值为: 货物/工程/服务"@
}

/// What `reach` finds.
proof fn lemma_reach(t: Seq<char>, target: int, i: int)
    requires
        0 <= i <= t.len(),
    ensures
        i <= reach(t, target, i) <= t.len(),
        reach(t, target, i) == t.len() || byte_at(t, reach(t, target, i)) >= target,
        forall|j: int| i <= j < reach(t, target, i) ==> byte_at(t, j) < target,
    decreases t.len() - i,
{
    if i < t.len() && byte_at(t, i) < target {
        lemma_reach(t, target, i + 1);
    }
}

/// The first character index before which at least `target` bytes lie.
fn reach_exec(t: &Vec<char>, target: usize) -> (r: usize)
    requires
        byte_len(t@) < usize::MAX,
    ensures
        r == reach(t@, target as int, 0),
{
    let mut i: usize = 0;
    let mut acc: usize = 0;
    proof {
        assert(t@.take(0) =~= Seq::<char>::empty());
    }
    while i < t.len() && acc < target
        invariant
            i <= t@.len(),
            byte_len(t@) < usize::MAX,
            acc == byte_at(t@, i as int),
            reach(t@, target as int, 0) == reach(t@, target as int, i as int),
        decreases t@.len() - i,
    {
        proof {
            lemma_byte_at_step(t@, i as int);
            lemma_byte_at_mono(t@, i + 1, t@.len() as int);
            assert(t@.take(t@.len() as int) =~= t@);
        }
        acc = acc + char_width(t[i]);
        i += 1;
    }
    i
}

/// Whether the weak sign `k` counts in `t`.
#[verifier::rlimit(40)]
fn weak_sign_counts(t: &Vec<char>, k: &str, excl: &Vec<&str>) -> (r: bool)
    requires
        byte_len(t@) + 64 < usize::MAX,
        strs(excl@) == exclude_context_words(),
    ensures
        r == weak_counts(t@, k@),
{
    let kc = chars_of(k);
    let p = match find_first(t, &kc) {
        Some(p) => p,
        None => {
            return false;
        },
    };
    proof {
        assert(t@.take(t@.len() as int) =~= t@);
        lemma_byte_at_mono(t@, p as int, t@.len() as int);
    }
    proof {
        assert(kc@.take(kc@.len() as int) =~= kc@);
        assert(t@.subrange(p as int, p + kc@.len()) == kc@);
        lemma_byte_split(t@, p as int, p + kc@.len());
        lemma_byte_at_mono(t@, p + kc@.len(), t@.len() as int);
    }
    let total = reach_total(t);
    let bp = byte_prefix(t, p);
    let kb = byte_prefix(&kc, kc.len());
    let start: usize = if bp <= 20 {
        0
    } else {
        let q = reach_exec(t, bp - 20 + 1);
        proof {
            lemma_reach(t@, bp - 20 + 1, 0);
            if q > p {
                assert(byte_at(t@, p as int) < bp - 20 + 1);
            }
            assert(q >= 1) by {
                if q == 0 {
                    assert(t@.take(0) =~= Seq::<char>::empty());
                }
            }
        }
        q - 1
    };
    let want = bp + kb + 20;
    let cap = if want <= total {
        want
    } else {
        total
    };
    let end = reach_exec(t, cap);
    proof {
        lemma_reach(t@, cap as int, 0);
        if end < p {
            lemma_byte_at_mono(t@, end as int, p as int);
        }
        assert(start <= p);
        assert(kb == byte_len(k@));
        assert(start == window_start(t@, p as int));
        assert(end == window_end(t@, p as int, kb as int));
    }
    let ctx = sub_chars(t, start, end);
    proof {
        assert(ctx@ == context_of(t@, k@));
    }
    !any_keyword(&ctx, excl)
}

/// Bytes of the whole of `t`.
fn reach_total(t: &Vec<char>) -> (r: usize)
    requires
        byte_len(t@) < usize::MAX,
    ensures
        r == byte_len(t@),
{
    let r = byte_prefix(t, t.len());
    proof {
        assert(t@.take(t@.len() as int) =~= t@);
    }
    r
}

/// Bytes of the first `n` characters of `t`.
fn byte_prefix(t: &Vec<char>, n: usize) -> (r: usize)
    requires
        n <= t@.len(),
        byte_len(t@) < usize::MAX,
    ensures
        r == byte_at(t@, n as int),
{
    let mut i: usize = 0;
    let mut acc: usize = 0;
    proof {
        assert(t@.take(0) =~= Seq::<char>::empty());
    }
    while i < n
        invariant
            i <= n <= t@.len(),
            byte_len(t@) < usize::MAX,
            acc == byte_at(t@, i as int),
        decreases n - i,
    {
        proof {
            lemma_byte_at_step(t@, i as int);
            lemma_byte_at_mono(t@, i + 1, t@.len() as int);
            assert(t@.take(t@.len() as int) =~= t@);
        }
        acc = acc + char_width(t[i]);
        i += 1;
    }
    acc
}

/// Appends to `acc` the words of `ks` not already in it.
fn push_absent_exec(acc: &mut Vec<String>, ks: &Vec<String>)
    ensures
        final(acc).deep_view() == push_absent(old(acc).deep_view(), ks.deep_view()),
{
    let ghost a0 = acc.deep_view();
    let mut i: usize = 0;
    while i < ks.len()
        invariant
            i <= ks@.len(),
            acc.deep_view() == push_absent(a0, ks.deep_view().take(i as int)),
        decreases ks@.len() - i,
    {
        proof {
            assert(ks.deep_view().take(i + 1).drop_last() =~= ks.deep_view().take(i as int));
            assert(ks.deep_view().take(i + 1).last() == ks@[i as int]@);
        }
        if !contains_deep(acc, &ks[i]) {
            let ghost o0 = acc.deep_view();
            acc.push(ks[i].clone());
            proof {
                assert(acc.deep_view() =~= o0.push(ks@[i as int]@));
            }
        }
        i += 1;
    }
    proof {
        assert(ks.deep_view().take(ks@.len() as int) =~= ks.deep_view());
    }
}

/// The weak signs of `ws` that count in `t`.
fn weak_sign_hits(t: &Vec<char>, ws: &Vec<&str>, excl: &Vec<&str>) -> (r: Vec<String>)
    requires
        byte_len(t@) + 64 < usize::MAX,
        strs(excl@) == exclude_context_words(),
    ensures
        r.deep_view() == weak_hits(t@, strs(ws@)),
{
    let ghost wv = strs(ws@);
    let mut out: Vec<String> = Vec::new();
    let mut i: usize = 0;
    while i < ws.len()
        invariant
            i <= ws@.len(),
            byte_len(t@) + 64 < usize::MAX,
            strs(excl@) == exclude_context_words(),
            wv == strs(ws@),
            out.deep_view() == weak_hits(t@, wv.take(i as int)),
        decreases ws@.len() - i,
    {
        proof {
            assert(wv.take(i + 1).drop_last() =~= wv.take(i as int));
            assert(wv.take(i + 1).last() == ws@[i as int]@);
        }
        if weak_sign_counts(t, ws[i], excl) {
            let ghost o0 = out.deep_view();
            out.push(to_owned_string(ws[i]));
            proof {
                assert(out.deep_view() =~= o0.push(ws@[i as int]@));
            }
        }
        i += 1;
    }
    proof {
        assert(wv.take(ws@.len() as int) =~= wv);
    }
    out
}

/// Appends `v`'s strings to `acc`.
fn append_all(acc: &mut Vec<String>, v: &Vec<String>)
    ensures
        final(acc).deep_view() == old(acc).deep_view() + v.deep_view(),
{
    let ghost a0 = acc.deep_view();
    let mut i: usize = 0;
    while i < v.len()
        invariant
            i <= v@.len(),
            acc.deep_view() == a0 + v.deep_view().take(i as int),
        decreases v@.len() - i,
    {
        let ghost o0 = acc.deep_view();
        acc.push(v[i].clone());
        proof {
            assert(acc.deep_view() =~= o0.push(v@[i as int]@));
            assert(v.deep_view().take(i + 1) =~= v.deep_view().take(i as int).push(v@[i as int]@));
        }
        i += 1;
    }
    proof {
        assert(v.deep_view().take(v@.len() as int) =~= v.deep_view());
    }
}

/// The warning on each "domestic first" wording.
fn signals_of(ks: &Vec<String>) -> (r: Vec<String>)
    ensures
        r.deep_view() == ks.deep_view().map_values(|k: Seq<char>| domestic_signal(k)),
{
    let mut out: Vec<String> = Vec::new();
    let mut i: usize = 0;
    while i < ks.len()
        invariant
            i <= ks@.len(),
            out.deep_view() == ks.deep_view().take(i as int).map_values(|k: Seq<char>| domestic_signal(k)),
        decreases ks@.len() - i,
    {
        let mut s = to_owned_string("出现'");
        push_str(&mut s, ks[i].as_str());
        push_str(
            &mut s,
            "'表述：招标文件不应使用'国产优先'等模糊表述，如需采购本国产品应明确'本项目不接受进口产品投标'。模糊表述可能在投诉中被质疑为倾向性或歧视性条款。",
        );
        let ghost o0 = out.deep_view();
        out.push(s);
        proof {
            assert(out.deep_view() =~= o0.push(domestic_signal(ks@[i as int]@)));
            assert(ks.deep_view().take(i + 1).map_values(|k: Seq<char>| domestic_signal(k)) =~= ks.deep_view().take(
                i as int,
            ).map_values(|k: Seq<char>| domestic_signal(k)).push(domestic_signal(ks@[i as int]@)));
        }
        i += 1;
    }
    proof {
        assert(ks.deep_view().take(ks@.len() as int) =~= ks.deep_view());
    }
    out
}

/// Appends the note on warnings.
fn push_signal_note(s: &mut String, signals: &Vec<String>)
    ensures
        final(s)@ == old(s)@ + signal_note(signals.deep_view()),
{
    if signals.len() > 0 {
        push_str(s, " 但存在以下需注意的信号：");
        let j = join_strings(signals, "；");
        push_str(s, j.as_str());
    } else {
        assert(old(s)@ + signal_note(signals.deep_view()) =~= old(s)@);
    }
}

impl CheckImportedProductsTool {
    /// The tool's name.
    pub fn name(&self) -> (r: &'static str)
        ensures
            r@ == "check_imported_products"@,
    {
        "check_imported_products"
    }

    /// Checks a procurement text: refuses a blank description and an unknown
    /// category; otherwise reports the import keywords found, whether
    /// imports are bought and approved, the warnings on vague "domestic
    /// first" wordings, a suggestion and the legal basis.
    pub fn check(args: &CheckImportedProductsArgs) -> (r: Result<ImportedProductCheckResult, String>)
        requires
            byte_len(args.project_description@) + 64 < usize::MAX,
        ensures
            all_white(args.project_description@) ==> (r is Err && r->Err_0@ == empty_description_error()),
            !all_white(args.project_description@) && !valid_category(args.procurement_category@) ==> (r is Err
                && r->Err_0@ == category_error(args.procurement_category@)),
            r is Ok <==> !all_white(args.project_description@) && valid_category(args.procurement_category@),
            r matches Ok(res) ==> {
                let t = args.project_description@;
                let approved = args.has_import_approval == Some(true);
                &&& res.status@ == status_of(t, approved)
                &&& res.detected_keywords.deep_view() == detected_words(t)
                &&& res.imported_detected == import_detected(t)
                &&& res.has_approval == approved
                &&& res.need_approval == import_detected(t)
                &&& res.risk_signals.deep_view() == domestic_signals(t)
                &&& res.suggestion@ == suggestion_of(t, approved, args.approval_document.deep_view())
                &&& res.legal_basis@ == import_legal_basis()
            },
    {
        let text = args.project_description.as_str();
        if is_blank(text) {
            return Err(to_owned_string("project_description 不能为空"));
        }
        let cat = args.procurement_category.as_str();
        if !(str_eq(cat, "货物") || str_eq(cat, "工程") || str_eq(cat, "服务")) {
            let mut e = to_owned_string("无效的 procurement_category '");
            push_str(&mut e, cat);
            push_str(&mut e, "'，有效值为: 货物/工程/服务");
            return Err(e);
        }
        let t = chars_of(text);
        let strong = keyword_hits(&t, &import_purchase_list());
        let excl = exclude_context_list();
        let weak = weak_sign_hits(&t, &import_weak_list(), &excl);
        let standard = keyword_hits(&t, &standard_reference_list());
        let domestic = keyword_hits(&t, &domestic_priority_list());
        let mut detected: Vec<String> = Vec::new();
        append_all(&mut detected, &strong);
        append_all(&mut detected, &weak);
        append_all(&mut detected, &standard);
        push_absent_exec(&mut detected, &domestic);
        proof {
            assert(Seq::<Seq<char>>::empty() + strong.deep_view() + weak.deep_view() + standard.deep_view()
                =~= strong.deep_view() + weak.deep_view() + standard.deep_view());
        }
        let risk_signals = signals_of(&domestic);
        let has_import_purchase = strong.len() > 0 || weak.len() > 0;
        let has_standard_only = standard.len() > 0;
        let has_approval = match args.has_import_approval {
            Some(b) => b,
            None => false,
        };
        let kw = join_strings(&detected, "、");
        let status: String;
        let suggestion: String;
        if has_import_purchase {
            if has_approval {
                status = to_owned_string("compliant");
                let mut s = to_owned_string("检测到进口产品相关关键词（");
                push_str(&mut s, kw.as_str());
                push_str(&mut s, "），但已取得财政部门审批。");
                match &args.approval_document {
                    Some(d) => {
                        push_str(&mut s, " 审批文件编号：");
                        push_str(&mut s, d.as_str());
                        push_str(&mut s, "。");
                    },
                    None => {},
                }
                push_str(&mut s, " 建议在采购文件中明确引用审批文件编号，并注明进口产品清单。");
                suggestion = s;
            } else {
                status = to_owned_string("violation");
                let mut s = to_owned_string("检测到进口产品相关关键词（");
                push_str(&mut s, kw.as_str());
                push_str(
                    &mut s,
                    "），但未提供进口产品审批。根据《政府采购进口产品管理办法》第4-7条，采购进口产品须经财政部门审核同意。建议：① 如确需采购进口产品，先向财政部门申请审批；② 如非必需，修改采购文件，将'进口产品'改为'本国产品'。",
                );
                suggestion = s;
            }
        } else if has_standard_only {
            status = to_owned_string("clean");
            let mut s = to_owned_string("仅检测到国际/国外标准引用关键词（");
            push_str(&mut s, kw.as_str());
            push_str(&mut s, "），属于技术规范引用范畴，不属于进口产品采购，无需取得进口产品审批。");
            push_signal_note(&mut s, &risk_signals);
            suggestion = s;
        } else {
            status = to_owned_string("clean");
            let mut s = to_owned_string("未检测到进口产品相关关键词，采购内容为国产产品，无需进口审批。");
            push_signal_note(&mut s, &risk_signals);
            suggestion = s;
        }
        let legal_basis = to_owned_string(
            "《政府采购进口产品管理办法》（财库〔2007〕119号）第4-7条：第4条 政府采购应当采购本国产品，确需采购进口产品的，实行审核管理。第5条 采购人需要采购的产品在中国境内无法获取或者无法以合理的商业条件获取，以及法律法规另有规定确需采购进口产品的，应当在获得财政部门核准后，依法开展政府采购活动。第6条 采购人报财政部门审核时，应当出具以下材料……第7条 财政部门审核同意后，采购人可以依法开展采购活动。",
        );
        Ok(
            ImportedProductCheckResult {
                status,
                detected_keywords: detected,
                imported_detected: has_import_purchase,
                has_approval,
                need_approval: has_import_purchase,
                risk_signals,
                suggestion,
                legal_basis,
            },
        )
    }
}

} // verus!
