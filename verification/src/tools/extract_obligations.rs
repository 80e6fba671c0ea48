//! `extract_obligations`: gathers the hard conditions a bidder must meet,
//! by kind (qualifications, past performance, staff, equipment, ...), marks
//! the ★ (veto) ones and their consequences, and flags combinations that
//! may exclude competitors.
use vstd::prelude::*;

use crate::chunk::{Chunk, ChunkView};
use crate::dup::Dup;
use crate::strmap::StrMap;
use crate::text::{
    byte_len, chars_of, contains_seq, decimal, decimal_string, push_str, str_contains, str_eq, string_from_chars,
    to_owned_string, trim_seq, trim_string, utf8_len,
};
use crate::tools::keywords::{find_first, first_occurrence, join_seq, join_strings, strs, sub_chars};

verus! {

/// The arguments of the tool.
pub struct ExtractObligationsArgs {
    /// "full_document", "part" or "agent_scope".
    pub scope: String,
    /// The kinds to extract (empty: all).
    pub obligation_types: Vec<String>,
    /// With scope "part", the chunks to scan.
    pub clause_ids: Vec<String>,
    /// With scope "agent_scope", the agent whose kinds apply.
    pub agent_id: Option<String>,
}

/// One obligation.
pub struct Obligation {
    pub obligation_type: String,
    pub chunk_id: String,
    pub section_path: Vec<String>,
    /// The sentence, trimmed.
    pub text: String,
    /// A ★ (veto) requirement.
    pub is_star_marked: bool,
    /// What failing it leads to.
    pub consequence_of_failure: Option<String>,
}

/// The content of an obligation.
pub ghost struct ObView {
    pub obligation_type: Seq<char>,
    pub chunk_id: Seq<char>,
    pub section_path: Seq<Seq<char>>,
    pub text: Seq<char>,
    pub is_star_marked: bool,
    pub consequence_of_failure: Option<Seq<char>>,
}

impl DeepView for Obligation {
    type V = ObView;

    open spec fn deep_view(&self) -> ObView {
        ObView {
            obligation_type: self.obligation_type@,
            chunk_id: self.chunk_id@,
            section_path: self.section_path.deep_view(),
            text: self.text@,
            is_star_marked: self.is_star_marked,
            consequence_of_failure: self.consequence_of_failure.deep_view(),
        }
    }
}

impl Dup for Obligation {
    fn dup(&self) -> (r: Self) {
        Obligation {
            obligation_type: self.obligation_type.clone(),
            chunk_id: self.chunk_id.clone(),
            section_path: self.section_path.dup(),
            text: self.text.clone(),
            is_star_marked: self.is_star_marked,
            consequence_of_failure: self.consequence_of_failure.dup(),
        }
    }
}

/// The outcome of an extraction. The share of chunks scanned is
/// `scanned_count / total_chunks` (1 when there are no chunks).
pub struct ObligationsResult {
    pub obligations: Vec<Obligation>,
    pub by_type: StrMap<usize>,
    pub star_marked_count: usize,
    pub risk_signals: Vec<String>,
    pub scanned_count: usize,
    pub total_chunks: usize,
    pub summary: String,
}

/// The tool: every chunk by id, and the ids in document order.
pub struct ExtractObligationsTool {
    pub chunks: StrMap<Chunk>,
    pub chunk_order: Vec<String>,
}

/// Every kind of obligation.
pub open spec fn all_types() -> Seq<Seq<char>> {
    seq!["资质"@, "业绩"@, "人员"@, "设备"@, "工期"@, "付款条件"@, "售后"@, "保密"@, "保险"@, "其他"@]
}

/// The words that show an obligation of kind `t`.
pub open spec fn keywords_for(t: Seq<char>) -> Seq<Seq<char>> {
    if t == "资质"@ {
        seq!["资质"@, "证书"@, "许可证"@, "资格"@, "等级"@, "备案"@, "注册"@, "认定"@, "核准"@]
    } else if t == "业绩"@ {
        seq!["业绩"@, "合同"@, "项目经验"@, "案例"@, "成功案例"@, "同类项目"@, "类似项目"@, "承担过"@]
    } else if t == "人员"@ {
        seq!["人员"@, "项目经理"@, "技术负责人"@, "工程师"@, "注册"@, "持证"@, "职称"@, "学历"@, "专业"@, "从业"@]
    } else if t == "设备"@ {
        seq!["设备"@, "仪器"@, "工具"@, "车辆"@, "机械"@, "生产"@, "检测"@, "实验室"@, "车间"@]
    } else if t == "工期"@ {
        seq!["工期"@, "交付"@, "完成"@, "期限"@, "日历日"@, "工作日"@, "进度"@, "节点"@, "里程碑"@]
    } else if t == "付款条件"@ {
        seq!["付款"@, "预付款"@, "进度款"@, "结算"@, "质保金"@, "支付"@, "合同金额"@]
    } else if t == "售后"@ {
        seq!["售后"@, "保修"@, "维护"@, "技术支持"@, "培训"@, "响应"@, "到场"@, "7×24"@, "驻场"@]
    } else if t == "保密"@ {
        seq!["保密"@, "信息安全"@, "数据"@, "隐私"@, "商业秘密"@, "敏感"@, "加密"@]
    } else if t == "保险"@ {
        seq!["保险"@, "担保"@, "保函"@, "保证金"@, "履约"@, "投标"@]
    } else {
        seq!["必须"@, "须"@, "应"@, "不得"@, "禁止"@, "需"@, "要求"@]
    }
}

/// The kinds of obligation an agent attends to.
pub open spec fn agent_types(agent: Seq<char>) -> Seq<Seq<char>> {
    if agent == "ProcedureAgent"@ {
        seq!["工期"@, "付款条件"@, "保险"@]
    } else if agent == "DemandAgent"@ {
        seq!["资质"@, "业绩"@, "人员"@, "设备"@]
    } else if agent == "ContractAgent"@ {
        seq!["付款条件"@, "保险"@, "保密"@]
    } else if agent == "ScoringAgent"@ {
        seq!["资质"@, "业绩"@]
    } else if agent == "SemanticRiskAgent"@ {
        seq!["资质"@, "业绩"@, "人员"@, "设备"@, "保险"@]
    } else {
        all_types()
    }
}

/// A character that ends a sentence (with `bang`, `!` too).
pub open spec fn sentence_end(c: char, bang: bool) -> bool {
    c == '。' || c == '；' || c == '\n' || (bang && c == '!')
}

/// Cutting `s` into sentences: those finished so far and the one being read.
pub open spec fn sentence_state(s: Seq<char>, bang: bool) -> (Seq<Seq<char>>, Seq<char>)
    decreases s.len(),
{
    if s.len() == 0 {
        (Seq::empty(), Seq::empty())
    } else {
        let (done, cur) = sentence_state(s.drop_last(), bang);
        if sentence_end(s.last(), bang) {
            (done.push(cur), Seq::empty())
        } else {
            (done, cur.push(s.last()))
        }
    }
}

/// The sentences of `s` (`str::split` at the sentence ends, empty pieces
/// kept).
pub open spec fn sentences(s: Seq<char>, bang: bool) -> Seq<Seq<char>> {
    let (done, cur) = sentence_state(s, bang);
    done.push(cur)
}

/// The first word of `kws` that occurs in `t`.
pub open spec fn first_word(t: Seq<char>, kws: Seq<Seq<char>>) -> Option<Seq<char>>
    decreases kws.len(),
{
    if kws.len() == 0 {
        None
    } else {
        match first_word(t, kws.drop_last()) {
            Some(k) => Some(k),
            None => if contains_seq(t, kws.last()) {
                Some(kws.last())
            } else {
                None
            },
        }
    }
}

/// A sentence marks a ★ (veto) requirement.
pub open spec fn star_of(s: Seq<char>) -> bool {
    contains_seq(s, "★"@) || contains_seq(s, "*"@) || contains_seq(s, "必须满足"@) || contains_seq(s, "实质性"@)
}

/// The text after the first "否则" of `s`, up to the next one.
pub open spec fn after_otherwise(s: Seq<char>) -> Seq<char> {
    let r = s.skip(first_occurrence(s, "否则"@) + 2);
    if contains_seq(r, "否则"@) {
        r.take(first_occurrence(r, "否则"@))
    } else {
        r
    }
}

/// What failing the requirement of sentence `s` leads to.
pub open spec fn consequence_of(s: Seq<char>) -> Option<Seq<char>> {
    if contains_seq(s, "否则"@) {
        Some(trim_seq(after_otherwise(s)))
    } else if contains_seq(s, "取消"@) || contains_seq(s, "废标"@) || contains_seq(s, "无效"@) {
        Some("可能导致投标无效或被取消资格"@)
    } else {
        None
    }
}

/// Some obligation of `acc` has text `t` and kind `k`.
pub open spec fn has_obligation(acc: Seq<ObView>, t: Seq<char>, k: Seq<char>) -> bool {
    exists|i: int| 0 <= i < acc.len() && (#[trigger] acc[i]).text == t && acc[i].obligation_type == k
}

/// The sentences of `ss` that name `kw`, are longer than 6 bytes trimmed,
/// and are new for kind `k`, added to `acc` as obligations.
pub open spec fn add_sentences(
    acc: Seq<ObView>,
    ss: Seq<Seq<char>>,
    k: Seq<char>,
    kw: Seq<char>,
    id: Seq<char>,
    path: Seq<Seq<char>>,
) -> Seq<ObView>
    decreases ss.len(),
{
    if ss.len() == 0 {
        acc
    } else {
        let a = add_sentences(acc, ss.drop_last(), k, kw, id, path);
        let s = ss.last();
        let t = trim_seq(s);
        if contains_seq(s, kw) && byte_len(t) > 6 && !has_obligation(a, t, k) {
            a.push(
                ObView {
                    obligation_type: k,
                    chunk_id: id,
                    section_path: path,
                    text: t,
                    is_star_marked: star_of(s),
                    consequence_of_failure: consequence_of(s),
                },
            )
        } else {
            a
        }
    }
}

/// The obligations of the kinds of `ks` in `text`: for each kind, the
/// sentences that name its first keyword found in the text.
pub open spec fn add_kinds(acc: Seq<ObView>, ks: Seq<Seq<char>>, text: Seq<char>, id: Seq<char>, path: Seq<Seq<char>>) -> Seq<ObView>
    decreases ks.len(),
{
    if ks.len() == 0 {
        acc
    } else {
        let a = add_kinds(acc, ks.drop_last(), text, id, path);
        match first_word(text, keywords_for(ks.last())) {
            None => a,
            Some(kw) => add_sentences(a, sentences(text, true), ks.last(), kw, id, path),
        }
    }
}

/// Words of mandatory language.
pub open spec fn mandatory_markers() -> Seq<Seq<char>> {
    seq!["必须"@, "须 "@, "不得"@, "禁止"@, "强制性"@]
}

/// Some obligation of `acc` has a text that contains `t`.
pub open spec fn covered(acc: Seq<ObView>, t: Seq<char>) -> bool {
    exists|i: int| 0 <= i < acc.len() && contains_seq((#[trigger] acc[i]).text, t)
}

/// The sentences of mandatory language that no obligation covers, as
/// obligations of kind "其他".
pub open spec fn add_other(acc: Seq<ObView>, ss: Seq<Seq<char>>, id: Seq<char>, path: Seq<Seq<char>>) -> Seq<ObView>
    decreases ss.len(),
{
    if ss.len() == 0 {
        acc
    } else {
        let a = add_other(acc, ss.drop_last(), id, path);
        let s = ss.last();
        let t = trim_seq(s);
        if crate::tools::keywords::any_hit(s, mandatory_markers()) && byte_len(t) > 6 && !covered(a, t) {
            a.push(
                ObView {
                    obligation_type: "其他"@,
                    chunk_id: id,
                    section_path: path,
                    text: t,
                    is_star_marked: contains_seq(s, "★"@),
                    consequence_of_failure: None,
                },
            )
        } else {
            a
        }
    }
}

/// The obligations of `text` for the kinds `types` (all kinds when empty),
/// then, when all kinds or "其他" are asked for, the uncovered sentences of
/// mandatory language.
pub open spec fn obligations_of(text: Seq<char>, id: Seq<char>, path: Seq<Seq<char>>, types: Seq<Seq<char>>) -> Seq<ObView> {
    let ks = if types.len() == 0 {
        all_types()
    } else {
        types
    };
    let base = add_kinds(Seq::empty(), ks, text, id, path);
    if types.len() == 0 || types.contains("其他"@) {
        add_other(base, sentences(text, false), id, path)
    } else {
        base
    }
}

/// How many obligations of `obs` are of kind `k`.
pub open spec fn count_kind(obs: Seq<ObView>, k: Seq<char>) -> nat
    decreases obs.len(),
{
    if obs.len() == 0 {
        0
    } else {
        count_kind(obs.drop_last(), k) + if obs.last().obligation_type == k {
            1nat
        } else {
            0nat
        }
    }
}

/// How many obligations of `obs` are ★ ones.
pub open spec fn count_star(obs: Seq<ObView>) -> nat
    decreases obs.len(),
{
    if obs.len() == 0 {
        0
    } else {
        count_star(obs.drop_last()) + if obs.last().is_star_marked {
            1nat
        } else {
            0nat
        }
    }
}

/// Some obligation names a brand, a model or a designation.
pub open spec fn names_brand(obs: Seq<ObView>) -> bool {
    exists|i: int|
        0 <= i < obs.len() && (contains_seq((#[trigger] obs[i]).text, "品牌"@) || contains_seq(obs[i].text, "型号"@)
            || contains_seq(obs[i].text, "指定"@))
}

/// The risk signals of a set of obligations: qualifications, staff and
/// equipment all required; a brand with qualifications; more than five ★
/// requirements.
pub open spec fn risk_signals_of(obs: Seq<ObView>) -> Seq<Seq<char>> {
    let q = count_kind(obs, "资质"@);
    let p = count_kind(obs, "人员"@);
    let e = count_kind(obs, "设备"@);
    let s1: Seq<Seq<char>> = if q > 0 && p > 0 && e > 0 {
        seq![
            "⚠️ 三合一排斥风险：招标文件同时要求特定 资质（"@ + decimal(q) + "条）+ 人员（"@ + decimal(p)
                + "条）+ 设备（"@ + decimal(e) + "条），共 "@ + decimal(q + p + e) + " 项义务，合计涉及 "@
                + decimal(obs.len()) + " 个条款。这三种要求组合可能形成排他性条件，建议评估是否有足够数量的潜在供应商满足全部要求。"@,
        ]
    } else {
        Seq::empty()
    };
    let s2: Seq<Seq<char>> = if names_brand(obs) && q > 0 {
        seq!["⚠️ 萝卜标嫌疑：同时存在品牌/型号指定和特定资质要求，可能为特定供应商量身定制"@]
    } else {
        Seq::empty()
    };
    let s3: Seq<Seq<char>> = if count_star(obs) > 5 {
        seq!["⚠️ 共 "@ + decimal(count_star(obs)) + " 项 ★ 实质性要求，这可能不合理地限制竞争"@]
    } else {
        Seq::empty()
    };
    s1 + s2 + s3
}

/// The brand-tailoring warning.
pub open spec fn brand_warning() -> Seq<char> {
    "⚠️ 萝卜标嫌疑：同时存在品牌/型号指定和特定资质要求，可能为特定供应商量身定制"@
}

/// Some obligations are of kind `k` exactly when their count is positive.
pub proof fn lemma_count_kind_positive(obs: Seq<ObView>, k: Seq<char>)
    ensures
        (count_kind(obs, k) > 0) <==> exists|i: int| 0 <= i < obs.len() && (#[trigger] obs[i]).obligation_type == k,
    decreases obs.len(),
{
    if obs.len() > 0 {
        let d = obs.drop_last();
        lemma_count_kind_positive(d, k);
        assert forall|i: int| 0 <= i < d.len() implies #[trigger] d[i] == obs[i] by {}
        if exists|i: int| 0 <= i < obs.len() && (#[trigger] obs[i]).obligation_type == k {
            let i = choose|i: int| 0 <= i < obs.len() && (#[trigger] obs[i]).obligation_type == k;
            if i < d.len() {
                assert(d[i] == obs[i]);
            }
        }
        if count_kind(d, k) > 0 {
            let i = choose|i: int| 0 <= i < d.len() && (#[trigger] d[i]).obligation_type == k;
            assert(obs[i] == d[i]);
        }
        if obs.last().obligation_type == k {
            assert(obs[obs.len() - 1].obligation_type == k);
        }
    }
}

/// The brand-tailoring warning is raised exactly when some obligation's
/// text names a brand, a model or a designation (品牌, 型号, 指定) and some
/// obligation is a qualification (资质), whatever the other kinds; the
/// signals are: the three-in-one warning when qualifications, staff and
/// equipment are all required, then the brand warning, then the ★ warning
/// when more than five obligations are ★ ones.
pub proof fn law_brand_signal(obs: Seq<ObView>)
    ensures
        ({
            let brand = exists|i: int|
                0 <= i < obs.len() && (contains_seq((#[trigger] obs[i]).text, "品牌"@) || contains_seq(obs[i].text, "型号"@)
                    || contains_seq(obs[i].text, "指定"@));
            let qual = exists|j: int| 0 <= j < obs.len() && (#[trigger] obs[j]).obligation_type == "资质"@;
            let staff = exists|j: int| 0 <= j < obs.len() && (#[trigger] obs[j]).obligation_type == "人员"@;
            let equip = exists|j: int| 0 <= j < obs.len() && (#[trigger] obs[j]).obligation_type == "设备"@;
            let sig = risk_signals_of(obs);
            let n1: int = if qual && staff && equip { 1 } else { 0 };
            let n2: int = if brand && qual { 1 } else { 0 };
            let n3: int = if count_star(obs) > 5 { 1 } else { 0 };
            &&& sig.len() == n1 + n2 + n3
            &&& brand && qual ==> sig[n1] == brand_warning() && sig.contains(brand_warning())
        }),
{
    lemma_count_kind_positive(obs, "资质"@);
    lemma_count_kind_positive(obs, "人员"@);
    lemma_count_kind_positive(obs, "设备"@);
    let sig = risk_signals_of(obs);
    let brand = exists|i: int|
        0 <= i < obs.len() && (contains_seq((#[trigger] obs[i]).text, "品牌"@) || contains_seq(obs[i].text, "型号"@)
            || contains_seq(obs[i].text, "指定"@));
    let qual = count_kind(obs, "资质"@) > 0;
    let n1: int = if qual && count_kind(obs, "人员"@) > 0 && count_kind(obs, "设备"@) > 0 { 1 } else { 0 };
    if brand && qual {
        assert(names_brand(obs));
        assert(sig[n1] == brand_warning());
    }
}

fn list_of(words: &[&'static str]) -> (r: Vec<&'static str>)
    ensures
        r@ == words@,
{
    let mut v: Vec<&'static str> = Vec::new();
    let mut i: usize = 0;
    while i < words.len()
        invariant
            i <= words@.len(),
            v@ == words@.take(i as int),
        decreases words@.len() - i,
    {
        v.push(words[i]);
        i += 1;
        proof {
            assert(v@ =~= words@.take(i as int));
        }
    }
    proof {
        assert(words@.take(words@.len() as int) =~= words@);
    }
    v
}

/// The words that show an obligation of kind `t`.
fn obligation_keywords(t: &str) -> (r: Vec<&'static str>)
    ensures
        strs(r@) == keywords_for(t@),
{
    let v: Vec<&'static str> = if str_eq(t, "资质") {
        let v = list_of(&["资质", "证书", "许可证", "资格", "等级", "备案", "注册", "认定", "核准"]);
        assert(strs(v@) =~= keywords_for(t@));
        v
    } else if str_eq(t, "业绩") {
        let v = list_of(&["业绩", "合同", "项目经验", "案例", "成功案例", "同类项目", "类似项目", "承担过"]);
        assert(strs(v@) =~= keywords_for(t@));
        v
    } else if str_eq(t, "人员") {
        let v = list_of(&["人员", "项目经理", "技术负责人", "工程师", "注册", "持证", "职称", "学历", "专业", "从业"]);
        assert(strs(v@) =~= keywords_for(t@));
        v
    } else if str_eq(t, "设备") {
        let v = list_of(&["设备", "仪器", "工具", "车辆", "机械", "生产", "检测", "实验室", "车间"]);
        assert(strs(v@) =~= keywords_for(t@));
        v
    } else if str_eq(t, "工期") {
        let v = list_of(&["工期", "交付", "完成", "期限", "日历日", "工作日", "进度", "节点", "里程碑"]);
        assert(strs(v@) =~= keywords_for(t@));
        v
    } else if str_eq(t, "付款条件") {
        let v = list_of(&["付款", "预付款", "进度款", "结算", "质保金", "支付", "合同金额"]);
        assert(strs(v@) =~= keywords_for(t@));
        v
    } else if str_eq(t, "售后") {
        let v = list_of(&["售后", "保修", "维护", "技术支持", "培训", "响应", "到场", "7×24", "驻场"]);
        assert(strs(v@) =~= keywords_for(t@));
        v
    } else if str_eq(t, "保密") {
        let v = list_of(&["保密", "信息安全", "数据", "隐私", "商业秘密", "敏感", "加密"]);
        assert(strs(v@) =~= keywords_for(t@));
        v
    } else if str_eq(t, "保险") {
        let v = list_of(&["保险", "担保", "保函", "保证金", "履约", "投标"]);
        assert(strs(v@) =~= keywords_for(t@));
        v
    } else {
        let v = list_of(&["必须", "须", "应", "不得", "禁止", "需", "要求"]);
        assert(strs(v@) =~= keywords_for(t@));
        v
    };
    v
}

/// Every kind of obligation.
fn all_types_exec() -> (r: Vec<String>)
    ensures
        r.deep_view() == all_types(),
{
    let v = list_of(&["资质", "业绩", "人员", "设备", "工期", "付款条件", "售后", "保密", "保险", "其他"]);
    let mut out: Vec<String> = Vec::new();
    let mut i: usize = 0;
    while i < v.len()
        invariant
            i <= v@.len(),
            out.deep_view() == strs(v@).take(i as int),
        decreases v@.len() - i,
    {
        let ghost o0 = out.deep_view();
        let w = to_owned_string(v[i]);
        out.push(w);
        proof {
            assert(out.deep_view() =~= o0.push(w@));
            assert(strs(v@).take(i + 1) =~= strs(v@).take(i as int).push(v@[i as int]@));
        }
        i += 1;
    }
    proof {
        assert(strs(v@).take(v@.len() as int) =~= strs(v@));
        assert(strs(v@) =~= all_types());
    }
    out
}

/// The sentences of `s`.
fn sentences_exec(s: &str, bang: bool) -> (r: Vec<String>)
    ensures
        r.deep_view() == sentences(s@, bang),
{
    let v = chars_of(s);
    let mut done: Vec<String> = Vec::new();
    let mut cur: Vec<char> = Vec::new();
    let mut i: usize = 0;
    while i < v.len()
        invariant
            i <= v@.len(),
            v@ == s@,
            (done.deep_view(), cur@) == sentence_state(s@.take(i as int), bang),
        decreases v@.len() - i,
    {
        let c = v[i];
        proof {
            assert(s@.take(i + 1).drop_last() =~= s@.take(i as int));
            assert(s@.take(i + 1).last() == c);
        }
        if c == '。' || c == '；' || c == '\n' || (bang && c == '!') {
            let piece = string_from_chars(cur.as_slice());
            let ghost d0 = done.deep_view();
            done.push(piece);
            cur = Vec::new();
            proof {
                assert(done.deep_view() =~= d0.push(piece@));
            }
        } else {
            cur.push(c);
        }
        i += 1;
    }
    proof {
        assert(s@.take(v@.len() as int) =~= s@);
    }
    let last = string_from_chars(cur.as_slice());
    let ghost d0 = done.deep_view();
    done.push(last);
    proof {
        assert(done.deep_view() =~= d0.push(cur@));
    }
    done
}

/// What failing the requirement of sentence `s` leads to.
#[verifier::rlimit(40)]
fn consequence_exec(s: &str) -> (r: Option<String>)
    ensures
        r.deep_view() == consequence_of(s@),
{
    proof {
        reveal_strlit("否则");
    }
    let v = chars_of(s);
    let ot = chars_of("否则");
    match find_first(&v, &ot) {
        Some(p) => {
            let ol = ot.len();
            let vl = v.len();
            assert(p + ol <= vl);
            assert(ol == 2);
            let rest = sub_chars(&v, p + ol, vl);
            proof {
                assert(rest@ =~= s@.skip(first_occurrence(s@, "否则"@) + 2));
            }
            let piece = match find_first(&rest, &ot) {
                Some(q) => sub_chars(&rest, 0, q),
                None => rest,
            };
            proof {
                assert(piece@ == after_otherwise(s@));
            }
            let ps = string_from_chars(piece.as_slice());
            Some(trim_string(ps.as_str()))
        },
        None => {
            if str_contains(s, "取消") || str_contains(s, "废标") || str_contains(s, "无效") {
                Some(to_owned_string("可能导致投标无效或被取消资格"))
            } else {
                None
            }
        },
    }
}

/// Whether `acc` has an obligation with text `t` and kind `k`.
fn has_obligation_exec(acc: &Vec<Obligation>, t: &str, k: &str) -> (r: bool)
    ensures
        r == has_obligation(acc.deep_view(), t@, k@),
{
    let mut i: usize = 0;
    while i < acc.len()
        invariant
            i <= acc@.len(),
            forall|j: int| 0 <= j < i ==> !((#[trigger] acc.deep_view()[j]).text == t@ && acc.deep_view()[j].obligation_type == k@),
        decreases acc@.len() - i,
    {
        if str_eq(acc[i].text.as_str(), t) && str_eq(acc[i].obligation_type.as_str(), k) {
            assert(acc.deep_view()[i as int].text == t@);
            return true;
        }
        i += 1;
    }
    false
}

/// Whether some obligation of `acc` has a text that contains `t`.
fn covered_exec(acc: &Vec<Obligation>, t: &str) -> (r: bool)
    ensures
        r == covered(acc.deep_view(), t@),
{
    let mut i: usize = 0;
    while i < acc.len()
        invariant
            i <= acc@.len(),
            forall|j: int| 0 <= j < i ==> !contains_seq((#[trigger] acc.deep_view()[j]).text, t@),
        decreases acc@.len() - i,
    {
        if str_contains(acc[i].text.as_str(), t) {
            assert(contains_seq(acc.deep_view()[i as int].text, t@));
            return true;
        }
        i += 1;
    }
    false
}

/// Adds the obligations of the sentences of `ss` that name `kw`.
fn add_sentences_exec(acc: &mut Vec<Obligation>, ss: &Vec<String>, k: &str, kw: &str, id: &str, path: &[String])
    ensures
        final(acc).deep_view() == add_sentences(old(acc).deep_view(), ss.deep_view(), k@, kw@, id@, path.deep_view()),
{
    let ghost a0 = acc.deep_view();
    let ghost sv = ss.deep_view();
    let mut i: usize = 0;
    while i < ss.len()
        invariant
            i <= ss@.len(),
            sv == ss.deep_view(),
            acc.deep_view() == add_sentences(a0, sv.take(i as int), k@, kw@, id@, path.deep_view()),
        decreases ss@.len() - i,
    {
        proof {
            assert(sv.take(i + 1).drop_last() =~= sv.take(i as int));
            assert(sv.take(i + 1).last() == ss@[i as int]@);
        }
        let s = ss[i].as_str();
        let t = trim_string(s);
        if str_contains(s, kw) && utf8_len(t.as_str()) > 6 && !has_obligation_exec(acc, t.as_str(), k) {
            let star = str_contains(s, "★") || str_contains(s, "*") || str_contains(s, "必须满足") || str_contains(
                s,
                "实质性",
            );
            let ob = Obligation {
                obligation_type: to_owned_string(k),
                chunk_id: to_owned_string(id),
                section_path: path_copy(path),
                text: t,
                is_star_marked: star,
                consequence_of_failure: consequence_exec(s),
            };
            let ghost o0 = acc.deep_view();
            acc.push(ob);
            proof {
                assert(acc.deep_view() =~= o0.push(ob.deep_view()));
            }
        }
        i += 1;
    }
    proof {
        assert(sv.take(ss@.len() as int) =~= sv);
    }
}

/// A copy of a list of headings.
fn path_copy(path: &[String]) -> (r: Vec<String>)
    ensures
        r.deep_view() == path.deep_view(),
{
    let mut out: Vec<String> = Vec::new();
    let mut i: usize = 0;
    while i < path.len()
        invariant
            i <= path@.len(),
            out.deep_view() == path.deep_view().take(i as int),
        decreases path@.len() - i,
    {
        let ghost o0 = out.deep_view();
        let s = path[i].clone();
        out.push(s);
        proof {
            assert(path.deep_view()[i as int] == path@[i as int]@);
            assert(out.deep_view() =~= o0.push(s@));
            assert(path.deep_view().take(i + 1) =~= path.deep_view().take(i as int).push(path.deep_view()[i as int]));
        }
        i += 1;
    }
    proof {
        assert(path.deep_view().take(path@.len() as int) =~= path.deep_view());
    }
    out
}

/// The first word of `kws` that occurs in `t`.
fn first_word_exec(t: &str, kws: &Vec<&'static str>) -> (r: Option<usize>)
    ensures
        match r {
            Some(j) => j < kws@.len() && first_word(t@, strs(kws@)) == Some(kws@[j as int]@),
            None => first_word(t@, strs(kws@)) is None,
        },
{
    let ghost kv = strs(kws@);
    let mut j: usize = 0;
    while j < kws.len()
        invariant
            j <= kws@.len(),
            kv == strs(kws@),
            first_word(t@, kv.take(j as int)) is None,
        decreases kws@.len() - j,
    {
        proof {
            assert(kv.take(j + 1).drop_last() =~= kv.take(j as int));
            assert(kv.take(j + 1).last() == kws@[j as int]@);
        }
        if str_contains(t, kws[j]) {
            proof {
                lemma_first_word_prefix(t@, kv, j + 1);
            }
            return Some(j);
        }
        j += 1;
    }
    proof {
        assert(kv.take(kws@.len() as int) =~= kv);
    }
    None
}

/// A word found among the first `n` stays the first one found.
proof fn lemma_first_word_prefix(t: Seq<char>, kws: Seq<Seq<char>>, n: int)
    requires
        0 <= n <= kws.len(),
        first_word(t, kws.take(n)) is Some,
    ensures
        first_word(t, kws) == first_word(t, kws.take(n)),
    decreases kws.len() - n,
{
    if n < kws.len() {
        assert(kws.take(n + 1).drop_last() =~= kws.take(n));
        lemma_first_word_prefix(t, kws, n + 1);
    } else {
        assert(kws.take(n) =~= kws);
    }
}

/// Whether `v` holds `x`.
fn holds(v: &[String], x: &str) -> (r: bool)
    ensures
        r == v.deep_view().contains(x@),
{
    let mut i: usize = 0;
    while i < v.len()
        invariant
            i <= v@.len(),
            forall|j: int| 0 <= j < i ==> v.deep_view()[j] != x@,
        decreases v@.len() - i,
    {
        if str_eq(v[i].as_str(), x) {
            assert(v.deep_view()[i as int] == x@);
            return true;
        }
        i += 1;
    }
    false
}

impl ExtractObligationsTool {
    /// A tool over the given chunks and document order.
    pub fn new(chunks: StrMap<Chunk>, chunk_order: Vec<String>) -> (r: Self)
        ensures
            r.chunks == chunks,
            r.chunk_order == chunk_order,
    {
        ExtractObligationsTool { chunks, chunk_order }
    }

    /// The tool's name.
    pub fn name(&self) -> (r: &'static str)
        ensures
            r@ == "extract_obligations"@,
    {
        "extract_obligations"
    }

    /// The obligations of `text` (chunk `chunk_id` under `section_path`) for
    /// the kinds `types`, as `obligations_of` says.
    pub fn extract_from_text(&self, text: &str, chunk_id: &str, section_path: &[String], types: &[String]) -> (r: Vec<Obligation>)
        ensures
            r.deep_view() == obligations_of(text@, chunk_id@, section_path.deep_view(), types.deep_view()),
    {
        let ks: Vec<String> = if types.len() == 0 {
            all_types_exec()
        } else {
            path_copy(types)
        };
        let ghost kv = ks.deep_view();
        let ss = sentences_exec(text, true);
        let mut obs: Vec<Obligation> = Vec::new();
        let mut i: usize = 0;
        while i < ks.len()
            invariant
                i <= ks@.len(),
                kv == ks.deep_view(),
                ss.deep_view() == sentences(text@, true),
                obs.deep_view() == add_kinds(Seq::empty(), kv.take(i as int), text@, chunk_id@, section_path.deep_view()),
            decreases ks@.len() - i,
        {
            proof {
                assert(kv.take(i + 1).drop_last() =~= kv.take(i as int));
                assert(kv.take(i + 1).last() == ks@[i as int]@);
            }
            let kws = obligation_keywords(ks[i].as_str());
            match first_word_exec(text, &kws) {
                Some(j) => {
                    add_sentences_exec(&mut obs, &ss, ks[i].as_str(), kws[j], chunk_id, section_path);
                },
                None => {},
            }
            i += 1;
        }
        proof {
            assert(kv.take(ks@.len() as int) =~= kv);
        }
        if types.len() == 0 || holds(types, "其他") {
            let markers = list_of(&["必须", "须 ", "不得", "禁止", "强制性"]);
            proof {
                assert(strs(markers@) =~= mandatory_markers());
            }
            let ss2 = sentences_exec(text, false);
            let ghost sv = ss2.deep_view();
            let ghost base = obs.deep_view();
            let mut k: usize = 0;
            while k < ss2.len()
                invariant
                    k <= ss2@.len(),
                    sv == ss2.deep_view(),
                    strs(markers@) == mandatory_markers(),
                    obs.deep_view() == add_other(base, sv.take(k as int), chunk_id@, section_path.deep_view()),
                decreases ss2@.len() - k,
            {
                proof {
                    assert(sv.take(k + 1).drop_last() =~= sv.take(k as int));
                    assert(sv.take(k + 1).last() == ss2@[k as int]@);
                }
                let s = ss2[k].as_str();
                let t = trim_string(s);
                let sc = chars_of(s);
                if crate::tools::keywords::any_keyword(&sc, &markers) && utf8_len(t.as_str()) > 6 && !covered_exec(
                    &obs,
                    t.as_str(),
                ) {
                    let ob = Obligation {
                        obligation_type: to_owned_string("其他"),
                        chunk_id: to_owned_string(chunk_id),
                        section_path: path_copy(section_path),
                        text: t,
                        is_star_marked: str_contains(s, "★"),
                        consequence_of_failure: None,
                    };
                    let ghost o0 = obs.deep_view();
                    obs.push(ob);
                    proof {
                        assert(obs.deep_view() =~= o0.push(ob.deep_view()));
                    }
                }
                k += 1;
            }
            proof {
                assert(sv.take(ss2@.len() as int) =~= sv);
            }
        }
        obs
    }

    /// The risk signals of `obligations`, as `risk_signals_of` says.
    pub fn detect_risk_signals(obligations: &[Obligation]) -> (r: Vec<String>)
        ensures
            r.deep_view() == risk_signals_of(obligations.deep_view()),
    {
        let ghost ov = obligations.deep_view();
        let mut q: usize = 0;
        let mut p: usize = 0;
        let mut e: usize = 0;
        let mut star: usize = 0;
        let mut brand = false;
        let mut i: usize = 0;
        while i < obligations.len()
            invariant
                i <= obligations@.len(),
                ov == obligations.deep_view(),
                q == count_kind(ov.take(i as int), "资质"@),
                p == count_kind(ov.take(i as int), "人员"@),
                e == count_kind(ov.take(i as int), "设备"@),
                star == count_star(ov.take(i as int)),
                q <= i && p <= i && e <= i && star <= i,
                brand == names_brand(ov.take(i as int)),
            decreases obligations@.len() - i,
        {
            proof {
                assert(ov.take(i + 1).drop_last() =~= ov.take(i as int));
                assert(ov.take(i + 1).last() == obligations@[i as int].deep_view());
            }
            let o = &obligations[i];
            if str_eq(o.obligation_type.as_str(), "资质") {
                q += 1;
            }
            if str_eq(o.obligation_type.as_str(), "人员") {
                p += 1;
            }
            if str_eq(o.obligation_type.as_str(), "设备") {
                e += 1;
            }
            if o.is_star_marked {
                star += 1;
            }
            let b = str_contains(o.text.as_str(), "品牌") || str_contains(o.text.as_str(), "型号") || str_contains(
                o.text.as_str(),
                "指定",
            );
            proof {
                let pre = ov.take(i as int);
                let post = ov.take(i + 1);
                assert(names_brand(post) == (names_brand(pre) || b)) by {
                    if names_brand(pre) {
                        let w = choose|w: int|
                            0 <= w < pre.len() && (contains_seq((#[trigger] pre[w]).text, "品牌"@) || contains_seq(
                                pre[w].text,
                                "型号"@,
                            ) || contains_seq(pre[w].text, "指定"@));
                        assert(post[w] == pre[w]);
                    }
                    if b {
                        assert(post[i as int] == o.deep_view());
                    }
                    if names_brand(post) {
                        let w = choose|w: int|
                            0 <= w < post.len() && (contains_seq((#[trigger] post[w]).text, "品牌"@) || contains_seq(
                                post[w].text,
                                "型号"@,
                            ) || contains_seq(post[w].text, "指定"@));
                        if w < i {
                            assert(pre[w] == post[w]);
                        }
                    }
                }
            }
            brand = brand || b;
            i += 1;
        }
        proof {
            assert(ov.take(obligations@.len() as int) =~= ov);
        }
        let mut signals: Vec<String> = Vec::new();
        if q > 0 && p > 0 && e > 0 {
            let total3 = (q as u128) + (p as u128) + (e as u128);
            let mut s = to_owned_string("⚠️ 三合一排斥风险：招标文件同时要求特定 资质（");
            push_str(&mut s, decimal_string(q as u64).as_str());
            push_str(&mut s, "条）+ 人员（");
            push_str(&mut s, decimal_string(p as u64).as_str());
            push_str(&mut s, "条）+ 设备（");
            push_str(&mut s, decimal_string(e as u64).as_str());
            push_str(&mut s, "条），共 ");
            push_str(&mut s, crate::text::decimal_wide(total3).as_str());
            push_str(&mut s, " 项义务，合计涉及 ");
            push_str(&mut s, decimal_string(obligations.len() as u64).as_str());
            push_str(
                &mut s,
                " 个条款。这三种要求组合可能形成排他性条件，建议评估是否有足够数量的潜在供应商满足全部要求。",
            );
            signals.push(s);
        }
        let ghost s1 = signals.deep_view();
        if brand && q > 0 {
            signals.push(to_owned_string("⚠️ 萝卜标嫌疑：同时存在品牌/型号指定和特定资质要求，可能为特定供应商量身定制"));
        }
        let ghost s2 = signals.deep_view();
        if star > 5 {
            let mut s = to_owned_string("⚠️ 共 ");
            push_str(&mut s, decimal_string(star as u64).as_str());
            push_str(&mut s, " 项 ★ 实质性要求，这可能不合理地限制竞争");
            signals.push(s);
        }
        proof {
            assert(signals.deep_view() =~= risk_signals_of(ov));
        }
        signals
    }
}

/// The kinds of obligation an extraction uses.
pub open spec fn effective_types(args: ExtractObligationsArgs) -> Seq<Seq<char>> {
    if args.scope@ == "agent_scope"@ && args.agent_id is Some {
        if args.obligation_types@.len() == 0 {
            agent_types(args.agent_id->Some_0@)
        } else {
            args.obligation_types.deep_view()
        }
    } else {
        args.obligation_types.deep_view()
    }
}

/// The chunks an extraction scans.
pub open spec fn scanned_ids(args: ExtractObligationsArgs, order: Seq<Seq<char>>) -> Seq<Seq<char>> {
    if args.scope@ == "part"@ && args.clause_ids@.len() > 0 {
        args.clause_ids.deep_view()
    } else {
        order
    }
}

/// The obligations of the chunks of `scan`, chunk after chunk.
pub open spec fn obligations_in(scan: Seq<Seq<char>>, chunks: Map<Seq<char>, ChunkView>, types: Seq<Seq<char>>) -> Seq<ObView>
    decreases scan.len(),
{
    if scan.len() == 0 {
        Seq::empty()
    } else {
        let prev = obligations_in(scan.drop_last(), chunks, types);
        let id = scan.last();
        if chunks.dom().contains(id) {
            let ch = chunks[id];
            prev + obligations_of(ch.text, ch.chunk_id, ch.section_path, types)
        } else {
            prev
        }
    }
}

/// The summary of an extraction.
pub open spec fn obligations_summary(n: nat, star: nat, signals: nat) -> Seq<char> {
    if n == 0 {
        "未提取到义务条款。"@
    } else {
        let p1: Seq<Seq<char>> = seq!["共提取 "@ + decimal(n) + " 条投标人义务"@];
        let p2: Seq<Seq<char>> = if star > 0 {
            seq!["其中 "@ + decimal(star) + " 条为 ★ 实质性要求"@]
        } else {
            Seq::empty()
        };
        let p3: Seq<Seq<char>> = if signals > 0 {
            seq!["发现 "@ + decimal(signals) + " 个组合风险信号"@]
        } else {
            Seq::empty()
        };
        join_seq(p1 + p2 + p3, "。"@)
    }
}

/// The kinds of obligation an agent attends to.
fn agent_obligation_types(agent: &str) -> (r: Vec<String>)
    ensures
        r.deep_view() == agent_types(agent@),
{
    let v: Vec<&'static str> = if str_eq(agent, "ProcedureAgent") {
        list_of(&["工期", "付款条件", "保险"])
    } else if str_eq(agent, "DemandAgent") {
        list_of(&["资质", "业绩", "人员", "设备"])
    } else if str_eq(agent, "ContractAgent") {
        list_of(&["付款条件", "保险", "保密"])
    } else if str_eq(agent, "ScoringAgent") {
        list_of(&["资质", "业绩"])
    } else if str_eq(agent, "SemanticRiskAgent") {
        list_of(&["资质", "业绩", "人员", "设备", "保险"])
    } else {
        let r = all_types_exec();
        return r;
    };
    let mut out: Vec<String> = Vec::new();
    let mut i: usize = 0;
    while i < v.len()
        invariant
            i <= v@.len(),
            out.deep_view() == strs(v@).take(i as int),
        decreases v@.len() - i,
    {
        let ghost o0 = out.deep_view();
        let w = to_owned_string(v[i]);
        out.push(w);
        proof {
            assert(out.deep_view() =~= o0.push(w@));
            assert(strs(v@).take(i + 1) =~= strs(v@).take(i as int).push(v@[i as int]@));
        }
        i += 1;
    }
    proof {
        assert(strs(v@).take(v@.len() as int) =~= strs(v@));
        assert(strs(v@) =~= agent_types(agent@));
    }
    out
}

/// Adds one to the count of `k`.
fn bump(m: &mut StrMap<usize>, k: &str, bound: usize)
    requires
        old(m).wf(),
        old(m).deep_view().dom().contains(k@) ==> old(m).deep_view()[k@] < bound,
    ensures
        final(m).wf(),
        final(m).deep_view() == old(m).deep_view().insert(
            k@,
            if old(m).deep_view().dom().contains(k@) {
                (old(m).deep_view()[k@] + 1) as usize
            } else {
                1usize
            },
        ),
{
    let cur: usize = match m.get(k) {
        Some(v) => *v,
        None => 0,
    };
    let ghost m0 = m.deep_view();
    m.insert(to_owned_string(k), cur + 1);
    proof {
        assert(m.deep_view() =~= m0.insert(k@, (cur + 1) as usize));
    }
}

/// The obligation counts by kind.
fn counts_by_type(obs: &Vec<Obligation>) -> (r: StrMap<usize>)
    ensures
        r.wf(),
        forall|k: Seq<char>| #[trigger] r.deep_view().dom().contains(k) <==> exists|i: int|
            0 <= i < obs@.len() && #[trigger] obs.deep_view()[i].obligation_type == k,
        forall|k: Seq<char>| #[trigger] r.deep_view().dom().contains(k) ==> r.deep_view()[k] == count_kind(
            obs.deep_view(),
            k,
        ),
{
    let ghost ov = obs.deep_view();
    let mut m: StrMap<usize> = StrMap::new();
    let mut i: usize = 0;
    while i < obs.len()
        invariant
            m.wf(),
            i <= obs@.len(),
            ov == obs.deep_view(),
            forall|k: Seq<char>| #[trigger] m.deep_view().dom().contains(k) <==> exists|j: int|
                0 <= j < i && #[trigger] ov[j].obligation_type == k,
            forall|k: Seq<char>| #[trigger] m.deep_view().dom().contains(k) ==> m.deep_view()[k] == count_kind(ov.take(i as int), k),
            forall|k: Seq<char>| #[trigger] count_kind(ov.take(i as int), k) <= i,
        decreases obs@.len() - i,
    {
        let t = obs[i].obligation_type.as_str();
        let ghost m0 = m.deep_view();
        proof {
            assert(ov.take(i + 1).drop_last() =~= ov.take(i as int));
            assert(ov.take(i + 1).last() == ov[i as int]);
            assert(count_kind(ov.take(i as int), t@) <= i);
        }
        bump(&mut m, t, i + 1);
        proof {
            assert forall|k: Seq<char>| #[trigger] count_kind(ov.take(i + 1), k) <= i + 1 by {
                assert(count_kind(ov.take(i as int), k) <= i);
            }
            assert forall|k: Seq<char>| #[trigger] m.deep_view().dom().contains(k) <==> exists|j: int|
                0 <= j < i + 1 && #[trigger] ov[j].obligation_type == k by {
                if exists|j: int| 0 <= j < i + 1 && #[trigger] ov[j].obligation_type == k {
                    let j = choose|j: int| 0 <= j < i + 1 && #[trigger] ov[j].obligation_type == k;
                    if j < i {
                        assert(m0.dom().contains(k));
                    }
                }
                if m0.dom().contains(k) {
                    let j = choose|j: int| 0 <= j < i && #[trigger] ov[j].obligation_type == k;
                    assert(0 <= j < i + 1);
                }
                if k == t@ {
                    assert(ov[i as int].obligation_type == k);
                }
            }
            assert forall|k: Seq<char>| #[trigger] m.deep_view().dom().contains(k) implies m.deep_view()[k] == count_kind(
                ov.take(i + 1),
                k,
            ) by {
                if k == t@ && !m0.dom().contains(k) {
                    assert(count_kind(ov.take(i as int), k) == 0) by {
                        lemma_count_kind_absent(ov.take(i as int), k);
                    }
                }
            }
        }
        i += 1;
    }
    proof {
        assert(ov.take(obs@.len() as int) =~= ov);
    }
    m
}

/// A kind that no obligation has is counted zero times.
proof fn lemma_count_kind_absent(obs: Seq<ObView>, k: Seq<char>)
    requires
        forall|j: int| 0 <= j < obs.len() ==> (#[trigger] obs[j]).obligation_type != k,
    ensures
        count_kind(obs, k) == 0,
    decreases obs.len(),
{
    if obs.len() > 0 {
        assert forall|j: int| 0 <= j < obs.drop_last().len() implies (#[trigger] obs.drop_last()[j]).obligation_type != k by {
            assert(obs.drop_last()[j] == obs[j]);
        }
        lemma_count_kind_absent(obs.drop_last(), k);
    }
}

/// How many ★ obligations `obs` has.
fn star_count_exec(obs: &Vec<Obligation>) -> (r: usize)
    ensures
        r == count_star(obs.deep_view()),
{
    let ghost ov = obs.deep_view();
    let mut n: usize = 0;
    let mut i: usize = 0;
    while i < obs.len()
        invariant
            i <= obs@.len(),
            ov == obs.deep_view(),
            n == count_star(ov.take(i as int)),
            n <= i,
        decreases obs@.len() - i,
    {
        proof {
            assert(ov.take(i + 1).drop_last() =~= ov.take(i as int));
            assert(ov.take(i + 1).last() == ov[i as int]);
        }
        if obs[i].is_star_marked {
            n += 1;
        }
        i += 1;
    }
    proof {
        assert(ov.take(obs@.len() as int) =~= ov);
    }
    n
}

impl ExtractObligationsTool {
    /// Extracts the obligations of the chunks the scope names (the given
    /// clauses for "part" with some, else the whole document) for the kinds
    /// that apply (the agent's for "agent_scope" without kinds given), with
    /// counts by kind, the ★ count, the risk signals, the share scanned and
    /// a summary.
    pub fn execute(&self, args: &ExtractObligationsArgs) -> (r: ObligationsResult)
        requires
            self.chunks.wf(),
        ensures
            ({
                let scan = scanned_ids(*args, self.chunk_order.deep_view());
                let obs = obligations_in(scan, self.chunks.deep_view(), effective_types(*args));
                let signals = risk_signals_of(obs);
                &&& r.obligations.deep_view() == obs
                &&& r.by_type.wf()
                &&& forall|k: Seq<char>| #[trigger] r.by_type.deep_view().dom().contains(k) <==> exists|i: int|
                    0 <= i < obs.len() && #[trigger] obs[i].obligation_type == k
                &&& forall|k: Seq<char>| #[trigger] r.by_type.deep_view().dom().contains(k) ==> r.by_type.deep_view()[k]
                    == count_kind(obs, k)
                &&& r.star_marked_count == count_star(obs)
                &&& r.risk_signals.deep_view() == signals
                &&& r.scanned_count == scan.len()
                &&& r.total_chunks == self.chunk_order@.len()
                &&& r.summary@ == obligations_summary(obs.len(), count_star(obs), signals.len())
            }),
    {
        let types: Vec<String> = if str_eq(args.scope.as_str(), "agent_scope") && args.agent_id.is_some() {
            if args.obligation_types.len() == 0 {
                match &args.agent_id {
                    Some(a) => agent_obligation_types(a.as_str()),
                    None => Vec::new(),
                }
            } else {
                args.obligation_types.dup()
            }
        } else {
            args.obligation_types.dup()
        };
        let scan: Vec<String> = if str_eq(args.scope.as_str(), "part") && args.clause_ids.len() > 0 {
            args.clause_ids.dup()
        } else {
            self.chunk_order.dup()
        };
        let ghost sv = scan.deep_view();
        let ghost cv = self.chunks.deep_view();
        let ghost tv = types.deep_view();
        let mut all: Vec<Obligation> = Vec::new();
        let mut i: usize = 0;
        while i < scan.len()
            invariant
                i <= scan@.len(),
                self.chunks.wf(),
                sv == scan.deep_view(),
                cv == self.chunks.deep_view(),
                tv == types.deep_view(),
                all.deep_view() == obligations_in(sv.take(i as int), cv, tv),
            decreases scan@.len() - i,
        {
            proof {
                assert(sv.take(i + 1).drop_last() =~= sv.take(i as int));
                assert(sv.take(i + 1).last() == scan@[i as int]@);
            }
            match self.chunks.get(scan[i].as_str()) {
                Some(ch) => {
                    let sp = ch.section_path.as_slice();
                    let ts = types.as_slice();
                    proof {
                        assert(sp.deep_view() =~= ch.section_path.deep_view());
                        assert(ts.deep_view() =~= tv);
                    }
                    let obs = self.extract_from_text(ch.text.as_str(), ch.chunk_id.as_str(), sp, ts);
                    let ghost a0 = all.deep_view();
                    let mut k: usize = 0;
                    while k < obs.len()
                        invariant
                            k <= obs@.len(),
                            all.deep_view() == a0 + obs.deep_view().take(k as int),
                        decreases obs@.len() - k,
                    {
                        let ghost o1 = all.deep_view();
                        let ob = obs[k].dup();
                        all.push(ob);
                        proof {
                            assert(all.deep_view() =~= o1.push(obs@[k as int].deep_view()));
                            assert(obs.deep_view().take(k + 1) =~= obs.deep_view().take(k as int).push(
                                obs@[k as int].deep_view(),
                            ));
                        }
                        k += 1;
                    }
                    proof {
                        assert(obs.deep_view().take(obs@.len() as int) =~= obs.deep_view());
                        assert(cv[scan@[i as int]@] == ch.deep_view());
                    }
                },
                None => {},
            }
            i += 1;
        }
        proof {
            assert(sv.take(scan@.len() as int) =~= sv);
        }
        let by_type = counts_by_type(&all);
        let star = star_count_exec(&all);
        let al = all.as_slice();
        proof {
            assert(al.deep_view() =~= all.deep_view());
        }
        let signals = Self::detect_risk_signals(al);
        let summary = if all.len() == 0 {
            to_owned_string("未提取到义务条款。")
        } else {
            let mut parts: Vec<String> = Vec::new();
            let mut p1 = to_owned_string("共提取 ");
            push_str(&mut p1, decimal_string(all.len() as u64).as_str());
            push_str(&mut p1, " 条投标人义务");
            parts.push(p1);
            if star > 0 {
                let mut p2 = to_owned_string("其中 ");
                push_str(&mut p2, decimal_string(star as u64).as_str());
                push_str(&mut p2, " 条为 ★ 实质性要求");
                parts.push(p2);
            }
            if signals.len() > 0 {
                let mut p3 = to_owned_string("发现 ");
                push_str(&mut p3, decimal_string(signals.len() as u64).as_str());
                push_str(&mut p3, " 个组合风险信号");
                parts.push(p3);
            }
            proof {
                let n = all@.len() as nat;
                let st = star as nat;
                let sg = signals@.len() as nat;
                let q1: Seq<Seq<char>> = seq!["共提取 "@ + decimal(n) + " 条投标人义务"@];
                let q2: Seq<Seq<char>> = if st > 0 {
                    seq!["其中 "@ + decimal(st) + " 条为 ★ 实质性要求"@]
                } else {
                    Seq::empty()
                };
                let q3: Seq<Seq<char>> = if sg > 0 {
                    seq!["发现 "@ + decimal(sg) + " 个组合风险信号"@]
                } else {
                    Seq::empty()
                };
                assert(parts.deep_view() =~= q1 + q2 + q3);
            }
            join_strings(&parts, "。")
        };
        let scanned_count = scan.len();
        let total_chunks = self.chunk_order.len();
        ObligationsResult {
            obligations: all,
            by_type,
            star_marked_count: star,
            risk_signals: signals,
            scanned_count,
            total_chunks,
            summary,
        }
    }
}

} // verus!
