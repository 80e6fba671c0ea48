//! `check_cross_reference`: where a clause says "see attachment three" or
//! "per chapter three section two", find the target among the chunks and
//! judge the reference (valid, dangling, ambiguous or content mismatch).
use vstd::prelude::*;

use crate::chunk::{Chunk, ChunkView};
use crate::deep_eq::contains_deep;
use crate::dup::Dup;
use crate::strmap::StrMap;
use crate::text::{
    capped_byte_len, chars_byte_len, chars_of, contains_seq, decimal, decimal_string, lemma_lex_refl,
    lemma_lex_total, lemma_lex_trans, lex_le, push_char, push_str, str_contains, str_eq, str_le,
    string_from_chars, take_chars, take_prefix, to_owned_string,
};
use crate::tools::keywords::{find_first, first_occurrence, join_seq, join_strings, sub_chars};

verus! {

/// The arguments of the tool.
pub struct CheckCrossReferenceArgs {
    /// The chunk that holds the reference.
    pub source_chunk: String,
    /// The reference as written, such as "详见附件三".
    pub reference_expression: String,
    /// The kind of target, if the caller knows it.
    pub reference_type: Option<String>,
    /// Words the referring text says the target holds.
    pub reference_claims: Vec<String>,
}

/// How a reference was judged.
#[derive(PartialEq, Eq, Structural, Clone, Copy, Debug)]
pub enum RefStatus {
    Valid,
    Dangling,
    Ambiguous,
    ContentMismatch,
}

/// A chunk that may be the target.
pub struct CandidateRef {
    pub chunk_id: String,
    pub section_path: Vec<String>,
    pub match_reason: String,
    pub match_score: u32,
    pub text_preview: String,
}

/// The content of a candidate.
pub ghost struct CandView {
    pub chunk_id: Seq<char>,
    pub section_path: Seq<Seq<char>>,
    pub match_reason: Seq<char>,
    pub match_score: u32,
    pub text_preview: Seq<char>,
}

impl DeepView for CandidateRef {
    type V = CandView;

    open spec fn deep_view(&self) -> CandView {
        CandView {
            chunk_id: self.chunk_id@,
            section_path: self.section_path.deep_view(),
            match_reason: self.match_reason@,
            match_score: self.match_score,
            text_preview: self.text_preview@,
        }
    }
}

impl Dup for CandidateRef {
    fn dup(&self) -> (r: Self) {
        CandidateRef {
            chunk_id: self.chunk_id.clone(),
            section_path: self.section_path.dup(),
            match_reason: self.match_reason.clone(),
            match_score: self.match_score,
            text_preview: self.text_preview.clone(),
        }
    }
}

/// The judgement of one reference.
pub struct CrossReferenceResult {
    pub status: RefStatus,
    pub reference_expression: String,
    pub reference_type: String,
    pub target_chunk: Option<String>,
    pub target_section: Option<Vec<String>>,
    pub mismatch_detail: Option<String>,
    pub candidates: Vec<CandidateRef>,
}

/// The tool: every chunk by id, and the ids in document order.
pub struct CheckCrossReferenceTool {
    pub chunks: StrMap<Chunk>,
    pub chunk_order: Vec<String>,
}

/// The first index at or after `i` where `s` holds `c` (`s.len()` if none).
pub open spec fn char_index_from(s: Seq<char>, c: char, i: int) -> int
    decreases s.len() - i,
{
    if i >= s.len() {
        s.len() as int
    } else if i >= 0 && s[i] == c {
        i
    } else {
        char_index_from(s, c, i + 1)
    }
}

/// The clause number of a `第…条` expression: what stands between the first
/// '第' and the first '条' after it, when that is not empty.
pub open spec fn clause_part(expr: Seq<char>) -> Option<Seq<char>> {
    let p = char_index_from(expr, '第', 0);
    if p < expr.len() {
        let q = char_index_from(expr, '条', p + 1);
        if q < expr.len() && q > p + 1 {
            Some(expr.subrange(p + 1, q))
        } else {
            None
        }
    } else {
        None
    }
}

/// The kind of target a reference names, when no hint is given: an
/// attachment or appendix, a chapter or section ("章", "节"), a clause
/// ("第…条"), a section for any other "条", a table or figure, else a clause.
pub open spec fn guessed_type(expr: Seq<char>) -> Seq<char> {
    if contains_seq(expr, "附件"@) || contains_seq(expr, "附录"@) {
        if contains_seq(expr, "附件"@) {
            "attachment"@
        } else {
            "appendix"@
        }
    } else if contains_seq(expr, "章"@) || contains_seq(expr, "节"@) {
        "section"@
    } else if clause_part(expr) is Some {
        "clause"@
    } else if contains_seq(expr, "条"@) {
        "section"@
    } else if contains_seq(expr, "表"@) || contains_seq(expr, "图"@) {
        "table"@
    } else {
        "clause"@
    }
}

/// The kind of target: the hint, else the guess.
pub open spec fn ref_type_of(expr: Seq<char>, hint: Option<Seq<char>>) -> Seq<char> {
    match hint {
        Some(h) => h,
        None => guessed_type(expr),
    }
}

/// A character the numeral reading looks at: a digit from 一 to 九, or 十,
/// 百, 零 (so that "十二" reads 12, "二十" 20, "十一" 11).
pub open spec fn cn_kept(c: char) -> bool {
    cn_digit(c) > 0 || c == '十' || c == '百' || c == '零'
}

/// The value of a Chinese digit (0 for other characters).
pub open spec fn cn_digit(c: char) -> nat {
    if c == '一' {
        1
    } else if c == '二' {
        2
    } else if c == '三' {
        3
    } else if c == '四' {
        4
    } else if c == '五' {
        5
    } else if c == '六' {
        6
    } else if c == '七' {
        7
    } else if c == '八' {
        8
    } else if c == '九' {
        9
    } else {
        0
    }
}

/// `x`, or the largest `u64` where `x` is larger.
pub open spec fn sat(x: nat) -> nat {
    if x > u64::MAX {
        u64::MAX as nat
    } else {
        x
    }
}

/// The numeral reading after the characters of `s` (sums held at the
/// largest `u64` rather than past it): the pending digit, the
/// sum of tens and hundreds so far, and whether any numeral was seen.
pub open spec fn cn_state(s: Seq<char>) -> (nat, nat, bool)
    decreases s.len(),
{
    if s.len() == 0 {
        (0, 0, false)
    } else {
        let (l, a, n) = cn_state(s.drop_last());
        let c = s.last();
        let unit: nat = if l == 0 {
            1
        } else {
            l
        };
        if !cn_kept(c) {
            (l, a, n)
        } else if cn_digit(c) > 0 {
            (cn_digit(c), a, true)
        } else if c == '十' {
            (0, sat(a + unit * 10), true)
        } else if c == '百' {
            (0, sat(a + unit * 100), true)
        } else if c == '零' {
            (l, a, true)
        } else {
            (l, a, n)
        }
    }
}

/// The clause words of a `第…条` expression: its number and the whole
/// `第…条` form (left out where it is the expression itself).
pub open spec fn clause_words(expr: Seq<char>) -> Seq<Seq<char>> {
    match clause_part(expr) {
        Some(x) => if "第"@ + x + "条"@ == expr {
            seq![x]
        } else {
            seq![x, "第"@ + x + "条"@]
        },
        None => Seq::empty(),
    }
}

/// The search words of a reference: the expression itself, the clause words
/// of a `第…条` expression, then its Chinese numeral in Arabic digits when
/// it has one.
pub open spec fn reference_keywords(expr: Seq<char>) -> Seq<Seq<char>> {
    let (l, a, n) = cn_state(expr);
    if n {
        seq![expr] + clause_words(expr) + seq![decimal(sat(a + l))]
    } else {
        seq![expr] + clause_words(expr)
    }
}

/// The markers after which a target's name starts.
pub open spec fn ref_markers() -> Seq<Seq<char>> {
    seq!["附件"@, "附录"@, "附表"@, "第"@, "表"@]
}

/// Up to ten characters of `kw` from the first `m` on.
#[verifier::opaque]
pub open spec fn snippet(kw: Seq<char>, m: Seq<char>) -> Seq<char> {
    take_chars(kw.subrange(first_occurrence(kw, m), kw.len() as int), 10)
}

/// `acc` with the snippets of `kw` after the markers of `ms` that are at
/// least three bytes long and not there yet.
pub open spec fn add_snippets(acc: Seq<Seq<char>>, kw: Seq<char>, ms: Seq<Seq<char>>) -> Seq<Seq<char>>
    decreases ms.len(),
{
    if ms.len() == 0 {
        acc
    } else {
        let a = add_snippets(acc, kw, ms.drop_last());
        let m = ms.last();
        if contains_seq(kw, m) && crate::text::byte_len(snippet(kw, m)) >= 3 && !a.contains(snippet(kw, m)) {
            a.push(snippet(kw, m))
        } else {
            a
        }
    }
}

/// `acc` with the snippets of every word of `kws`.
pub open spec fn expand_terms(acc: Seq<Seq<char>>, kws: Seq<Seq<char>>) -> Seq<Seq<char>>
    decreases kws.len(),
{
    if kws.len() == 0 {
        acc
    } else {
        add_snippets(expand_terms(acc, kws.drop_last()), kws.last(), ref_markers())
    }
}

/// The words searched for: the keywords, then their snippets.
pub open spec fn search_terms(kws: Seq<Seq<char>>) -> Seq<Seq<char>> {
    expand_terms(kws, kws)
}

/// The first word of `terms` that occurs in `t`.
pub open spec fn first_in(t: Seq<char>, terms: Seq<Seq<char>>) -> Option<Seq<char>>
    decreases terms.len(),
{
    if terms.len() == 0 {
        None
    } else {
        match first_in(t, terms.drop_last()) {
            Some(x) => Some(x),
            None => if contains_seq(t, terms.last()) {
                Some(terms.last())
            } else {
                None
            },
        }
    }
}

/// The first word of `terms` that occurs in `a` or in `b`.
pub open spec fn first_in_either(a: Seq<char>, b: Seq<char>, terms: Seq<Seq<char>>) -> Option<Seq<char>>
    decreases terms.len(),
{
    if terms.len() == 0 {
        None
    } else {
        match first_in_either(a, b, terms.drop_last()) {
            Some(x) => Some(x),
            None => if contains_seq(a, terms.last()) || contains_seq(b, terms.last()) {
                Some(terms.last())
            } else {
                None
            },
        }
    }
}

/// The text a chunk is searched in: its headings joined with spaces, a
/// space, and the first 500 characters of its text.
pub open spec fn search_text(ch: ChunkView) -> Seq<char> {
    join_seq(ch.section_path, " "@) + " "@ + take_chars(ch.text, 500)
}

/// The candidate a chunk gives, if any: a word in its search text scores 3;
/// for a section reference, a word in its headings (joined with spaces or
/// with nothing) scores 2.
pub open spec fn candidate_for(id: Seq<char>, ch: ChunkView, terms: Seq<Seq<char>>, rtype: Seq<char>) -> Option<CandView> {
    match first_in(search_text(ch), terms) {
        Some(kw) => Some(
            CandView {
                chunk_id: id,
                section_path: ch.section_path,
                match_reason: "文本包含'"@ + kw + "'"@,
                match_score: 3,
                text_preview: take_chars(ch.text, 200),
            },
        ),
        None => if rtype == "section"@ {
            match first_in_either(join_seq(ch.section_path, " "@), join_seq(ch.section_path, ""@), terms) {
                Some(kw) => Some(
                    CandView {
                        chunk_id: id,
                        section_path: ch.section_path,
                        match_reason: "章节路径包含'"@ + kw + "'"@,
                        match_score: 2,
                        text_preview: take_chars(ch.text, 200),
                    },
                ),
                None => None,
            }
        } else {
            None
        },
    }
}

/// The candidates of the chunks of `order`, in that order.
pub open spec fn raw_candidates(
    order: Seq<Seq<char>>,
    chunks: Map<Seq<char>, ChunkView>,
    terms: Seq<Seq<char>>,
    rtype: Seq<char>,
) -> Seq<CandView>
    decreases order.len(),
{
    if order.len() == 0 {
        Seq::empty()
    } else {
        let prev = raw_candidates(order.drop_last(), chunks, terms, rtype);
        let id = order.last();
        if chunks.dom().contains(id) {
            match candidate_for(id, chunks[id], terms, rtype) {
                Some(c) => prev.push(c),
                None => prev,
            }
        } else {
            prev
        }
    }
}

/// `a` comes no later than `b`: higher score first, then by chunk id.
pub open spec fn cand_le(a: CandView, b: CandView) -> bool {
    a.match_score > b.match_score || (a.match_score == b.match_score && lex_le(a.chunk_id, b.chunk_id))
}

/// The candidates are in order.
pub open spec fn sorted_cands(s: Seq<CandView>) -> bool {
    forall|i: int, j: int| 0 <= i < j < s.len() ==> cand_le(s[i], s[j])
}

/// The view of an optional string slice.
pub open spec fn str_opt(h: Option<&str>) -> Option<Seq<char>> {
    match h {
        Some(x) => Some(x@),
        None => None,
    }
}

/// The name of a kind of target.
pub open spec fn ref_type_name(t: Seq<char>) -> Seq<char> {
    if t == "attachment"@ {
        "附件"@
    } else if t == "section"@ {
        "章节"@
    } else if t == "clause"@ {
        "条款"@
    } else if t == "table"@ {
        "表格"@
    } else if t == "appendix"@ {
        "附录"@
    } else {
        "文档"@
    }
}

/// The claims of `cs` that occur (`yes`) or do not occur in `t`, in order.
pub open spec fn claims_where(t: Seq<char>, cs: Seq<Seq<char>>, yes: bool) -> Seq<Seq<char>>
    decreases cs.len(),
{
    if cs.len() == 0 {
        Seq::empty()
    } else {
        let prev = claims_where(t, cs.drop_last(), yes);
        if contains_seq(t, cs.last()) == yes {
            prev.push(cs.last())
        } else {
            prev
        }
    }
}

/// How a candidate is listed in the ambiguity message.
pub open spec fn cand_label(c: CandView) -> Seq<char> {
    c.chunk_id + "("@ + join_seq(c.section_path, " > "@) + ")"@
}

/// The judgement of a reference from its sorted candidates: status, target
/// chunk, target headings and detail.
pub open spec fn judgement(
    chunks: Map<Seq<char>, ChunkView>,
    source: Seq<char>,
    expr: Seq<char>,
    rtype: Seq<char>,
    claims: Seq<Seq<char>>,
    cands: Seq<CandView>,
) -> (RefStatus, Option<Seq<char>>, Option<Seq<Seq<char>>>, Option<Seq<char>>) {
    if cands.len() == 0 {
        (
            RefStatus::Dangling,
            None,
            None,
            Some("未找到引用目标 '"@ + expr + "'。文档中不存在匹配的"@ + ref_type_name(rtype) + "。"@),
        )
    } else if cands.len() == 1 {
        let c = cands[0];
        if !chunks.dom().contains(source) {
            (RefStatus::Dangling, None, None, Some("源 chunk '"@ + source + "' 不存在"@))
        } else if claims.len() > 0 {
            let target = if chunks.dom().contains(c.chunk_id) {
                chunks[c.chunk_id].text
            } else {
                c.text_preview
            };
            let yes = claims_where(target, claims, true);
            let no = claims_where(target, claims, false);
            if no.len() == 0 {
                (RefStatus::Valid, Some(c.chunk_id), Some(c.section_path), None)
            } else if yes.len() == 0 {
                (
                    RefStatus::ContentMismatch,
                    Some(c.chunk_id),
                    Some(c.section_path),
                    Some(
                        "引用声称的内容（"@ + join_seq(no, "、"@) + "）在目标中均未找到。目标实际标题为 '"@
                            + join_seq(c.section_path, " > "@) + "'，内容摘要：'"@ + c.text_preview + "'"@,
                    ),
                )
            } else {
                (
                    RefStatus::ContentMismatch,
                    Some(c.chunk_id),
                    Some(c.section_path),
                    Some(
                        "部分声称匹配("@ + join_seq(yes, "、"@) + ")，但以下关键词未找到："@ + join_seq(no, "、"@)
                            + "。请确认引用目标是否正确。"@,
                    ),
                )
            }
        } else {
            (RefStatus::Valid, Some(c.chunk_id), Some(c.section_path), None)
        }
    } else {
        (
            RefStatus::Ambiguous,
            None,
            None,
            Some(
                "找到 "@ + decimal(cands.len()) + " 个可能的目标: "@ + join_seq(
                    cands.map_values(|c: CandView| cand_label(c)),
                    ", "@,
                ) + "。请用 read_section 确认。"@,
            ),
        )
    }
}

/// The claims found in `t` and those not found split `cs`: nothing is
/// missing exactly when every claim occurs in `t`, and nothing is found
/// exactly when no claim does.
pub proof fn lemma_claims_split(t: Seq<char>, cs: Seq<Seq<char>>)
    ensures
        (claims_where(t, cs, false).len() == 0) <==> (forall|i: int| 0 <= i < cs.len() ==> contains_seq(t, #[trigger] cs[i])),
        (claims_where(t, cs, true).len() == 0) <==> (forall|i: int| 0 <= i < cs.len() ==> !contains_seq(t, #[trigger] cs[i])),
    decreases cs.len(),
{
    if cs.len() > 0 {
        lemma_claims_split(t, cs.drop_last());
        let d = cs.drop_last();
        assert forall|i: int| 0 <= i < cs.len() - 1 implies #[trigger] cs[i] == d[i] by {}
        if !contains_seq(t, cs.last()) {
            assert(!contains_seq(t, cs[cs.len() - 1]));
        } else {
            assert(contains_seq(t, cs[cs.len() - 1]));
        }
    }
}

/// A reference with one candidate target, from a known source chunk and
/// with claims, is valid exactly when every claim occurs in the target's
/// text (the chunk's full text, else the candidate's preview), and
/// otherwise its content does not match; the target is that candidate.
pub proof fn law_single_target_claims(
    chunks: Map<Seq<char>, ChunkView>,
    source: Seq<char>,
    expr: Seq<char>,
    rtype: Seq<char>,
    claims: Seq<Seq<char>>,
    cands: Seq<CandView>,
)
    requires
        cands.len() == 1,
        chunks.dom().contains(source),
        claims.len() > 0,
    ensures
        ({
            let j = judgement(chunks, source, expr, rtype, claims, cands);
            let target = if chunks.dom().contains(cands[0].chunk_id) {
                chunks[cands[0].chunk_id].text
            } else {
                cands[0].text_preview
            };
            &&& (j.0 == RefStatus::Valid) <==> (forall|i: int| 0 <= i < claims.len() ==> contains_seq(target, #[trigger] claims[i]))
            &&& (exists|i: int| 0 <= i < claims.len() && !contains_seq(target, #[trigger] claims[i])) ==> j.0
                == RefStatus::ContentMismatch
            &&& j.1 == Some(cands[0].chunk_id)
            &&& j.0 == RefStatus::Valid ==> j.3 is None
        }),
{
    let target = if chunks.dom().contains(cands[0].chunk_id) {
        chunks[cands[0].chunk_id].text
    } else {
        cands[0].text_preview
    };
    lemma_claims_split(target, claims);
}

/// The status of a reference by its candidates: none dangles; more than
/// one is ambiguous (no single target); one from an unknown source chunk
/// dangles; one without claims is valid, with that candidate as target.
pub proof fn law_reference_status(
    chunks: Map<Seq<char>, ChunkView>,
    source: Seq<char>,
    expr: Seq<char>,
    rtype: Seq<char>,
    claims: Seq<Seq<char>>,
    cands: Seq<CandView>,
)
    ensures
        ({
            let j = judgement(chunks, source, expr, rtype, claims, cands);
            &&& cands.len() == 0 ==> j.0 == RefStatus::Dangling && j.1 is None
            &&& cands.len() > 1 ==> j.0 == RefStatus::Ambiguous && j.1 is None && j.2 is None
            &&& cands.len() == 1 && !chunks.dom().contains(source) ==> j.0 == RefStatus::Dangling && j.1 is None
            &&& cands.len() == 1 && chunks.dom().contains(source) && claims.len() == 0 ==> j.0 == RefStatus::Valid && j.1
                == Some(cands[0].chunk_id) && j.2 == Some(cands[0].section_path) && j.3 is None
        }),
{
}


/// The first index at or after `start` where `v` holds `c` (`v.len()` if none).
fn char_index_exec(v: &Vec<char>, c: char, start: usize) -> (r: usize)
    requires
        start <= v@.len(),
    ensures
        r as int == char_index_from(v@, c, start as int),
{
    let mut i = start;
    while i < v.len()
        invariant
            start <= i <= v@.len(),
            char_index_from(v@, c, start as int) == char_index_from(v@, c, i as int),
        decreases v@.len() - i,
    {
        if v[i] == c {
            return i;
        }
        i += 1;
    }
    i
}

/// The clause number of a `第…条` expression, if it has one.
fn clause_part_exec(v: &Vec<char>) -> (r: Option<String>)
    ensures
        r.deep_view() == clause_part(v@),
{
    let p = char_index_exec(v, '第', 0);
    if p < v.len() {
        let q = char_index_exec(v, '条', p + 1);
        if q < v.len() && q > p + 1 {
            let mut x = String::new();
            let mut i = p + 1;
            while i < q
                invariant
                    p + 1 <= i <= q < v@.len(),
                    x@ == v@.subrange(p + 1, i as int),
                decreases q - i,
            {
                push_char(&mut x, v[i]);
                proof {
                    assert(v@.subrange(p + 1, i + 1) =~= v@.subrange(p + 1, i as int).push(v@[i as int]));
                }
                i += 1;
            }
            Some(x)
        } else {
            None
        }
    } else {
        None
    }
}

/// The numeral reading of `v`, as Arabic digits, if it has a numeral.
fn cn_number(v: &Vec<char>) -> (r: Option<u64>)
    ensures
        ({
            let (l, a, n) = cn_state(v@);
            match r {
                Some(x) => n && x == sat(a + l),
                None => !n,
            }
        }),
{
    let mut last: u64 = 0;
    let mut acc: u64 = 0;
    let mut in_num = false;
    let mut i: usize = 0;
    while i < v.len()
        invariant
            i <= v@.len(),
            (last as nat, acc as nat, in_num) == cn_state(v@.take(i as int)),
            last <= 9,
        decreases v@.len() - i,
    {
        let c = v[i];
        proof {
            assert(v@.take(i + 1).drop_last() =~= v@.take(i as int));
            assert(v@.take(i + 1).last() == c);
        }
        let d: u64 = if c == '一' {
            1
        } else if c == '二' {
            2
        } else if c == '三' {
            3
        } else if c == '四' {
            4
        } else if c == '五' {
            5
        } else if c == '六' {
            6
        } else if c == '七' {
            7
        } else if c == '八' {
            8
        } else if c == '九' {
            9
        } else {
            0
        };
        let kept = d > 0 || c == '十' || c == '百' || c == '零';
        if kept {
            let unit: u64 = if last == 0 {
                1
            } else {
                last
            };
            if d > 0 {
                last = d;
                in_num = true;
            } else if c == '十' {
                acc = acc.saturating_add(unit * 10);
                last = 0;
                in_num = true;
            } else if c == '百' {
                acc = acc.saturating_add(unit * 100);
                last = 0;
                in_num = true;
            } else if c == '零' {
                in_num = true;
            }
        }
        i += 1;
    }
    proof {
        assert(v@.take(v@.len() as int) =~= v@);
    }
    if in_num {
        Some(acc.saturating_add(last))
    } else {
        None
    }
}

/// Up to ten characters of `kc` from the first `m` on, if `m` occurs.
#[verifier::rlimit(30)]
fn snippet_exec(kc: &Vec<char>, m: &str) -> (r: Option<String>)
    ensures
        match r {
            Some(s) => contains_seq(kc@, m@) && s@ == snippet(kc@, m@),
            None => !contains_seq(kc@, m@),
        },
{
    let mc = chars_of(m);
    match find_first(kc, &mc) {
        Some(p) => {
            let rest = sub_chars(kc, p, kc.len());
            let n = if rest.len() < 10 {
                rest.len()
            } else {
                10
            };
            let sn = sub_chars(&rest, 0, n);
            proof {
                assert(sn@ =~= take_chars(rest@, 10));
                reveal(snippet);
                assert(sn@ == snippet(kc@, m@));
            }
            Some(string_from_chars(sn.as_slice()))
        },
        None => None,
    }
}

/// Number of UTF-8 bytes of `s` (capped at `usize::MAX`).
fn utf8_len_of(s: &String) -> (r: usize)
    ensures
        r == capped_byte_len(s@),
{
    crate::text::utf8_len(s.as_str())
}

/// Appends to `acc` the snippet of `kc` after `m`, if there is one of at
/// least three bytes that `acc` lacks.
fn add_one_snippet(acc: &mut Vec<String>, kc: &Vec<char>, m: &str)
    ensures
        final(acc).deep_view() == if contains_seq(kc@, m@) && crate::text::byte_len(snippet(kc@, m@)) >= 3
            && !old(acc).deep_view().contains(snippet(kc@, m@)) {
            old(acc).deep_view().push(snippet(kc@, m@))
        } else {
            old(acc).deep_view()
        },
{
    match snippet_exec(kc, m) {
        Some(s) => {
            let bytes = utf8_len_of(&s);
            if bytes >= 3 && !contains_deep(acc, &s) {
                let ghost o0 = acc.deep_view();
                acc.push(s);
                proof {
                    assert(acc.deep_view() =~= o0.push(s@));
                }
            }
        },
        None => {},
    }
}

/// Appends to `acc` the snippets of `kw`.
fn add_snippets_exec(acc: &mut Vec<String>, kw: &String)
    ensures
        final(acc).deep_view() == add_snippets(old(acc).deep_view(), kw@, ref_markers()),
{
    let mut ms: Vec<&str> = Vec::new();
    ms.push("附件");
    ms.push("附录");
    ms.push("附表");
    ms.push("第");
    ms.push("表");
    let ghost mv = ms@.map_values(|m: &str| m@);
    assert(mv =~= ref_markers());
    let ghost a0 = acc.deep_view();
    let kc = chars_of(kw.as_str());
    let mut i: usize = 0;
    while i < ms.len()
        invariant
            i <= ms@.len(),
            mv == ms@.map_values(|m: &str| m@),
            kc@ == kw@,
            acc.deep_view() == add_snippets(a0, kw@, mv.take(i as int)),
        decreases ms@.len() - i,
    {
        proof {
            assert(mv.take(i + 1).drop_last() =~= mv.take(i as int));
            assert(mv.take(i + 1).last() == ms@[i as int]@);
        }
        add_one_snippet(acc, &kc, ms[i]);
        i += 1;
    }
    proof {
        assert(mv.take(ms@.len() as int) =~= mv);
    }
}

/// The first word of `terms` that occurs in `t`.
fn first_in_exec(t: &str, terms: &Vec<String>) -> (r: Option<usize>)
    ensures
        match r {
            Some(j) => j < terms@.len() && first_in(t@, terms.deep_view()) == Some(terms@[j as int]@),
            None => first_in(t@, terms.deep_view()) is None,
        },
{
    let ghost tv = terms.deep_view();
    let mut j: usize = 0;
    while j < terms.len()
        invariant
            j <= terms@.len(),
            tv == terms.deep_view(),
            first_in(t@, tv.take(j as int)) is None,
        decreases terms@.len() - j,
    {
        proof {
            assert(tv.take(j + 1).drop_last() =~= tv.take(j as int));
            assert(tv.take(j + 1).last() == terms@[j as int]@);
        }
        if str_contains(t, terms[j].as_str()) {
            proof {
                lemma_first_in_prefix(t@, tv, j + 1);
            }
            return Some(j);
        }
        j += 1;
    }
    proof {
        assert(tv.take(terms@.len() as int) =~= tv);
    }
    None
}

/// A word found among the first `n` words stays the first one found.
proof fn lemma_first_in_prefix(t: Seq<char>, terms: Seq<Seq<char>>, n: int)
    requires
        0 <= n <= terms.len(),
        first_in(t, terms.take(n)) is Some,
    ensures
        first_in(t, terms) == first_in(t, terms.take(n)),
    decreases terms.len() - n,
{
    if n < terms.len() {
        assert(terms.take(n + 1).drop_last() =~= terms.take(n));
        lemma_first_in_prefix(t, terms, n + 1);
    } else {
        assert(terms.take(n) =~= terms);
    }
}

/// The first word of `terms` that occurs in `a` or `b`.
fn first_in_either_exec(a: &str, b: &str, terms: &Vec<String>) -> (r: Option<usize>)
    ensures
        match r {
            Some(j) => j < terms@.len() && first_in_either(a@, b@, terms.deep_view()) == Some(terms@[j as int]@),
            None => first_in_either(a@, b@, terms.deep_view()) is None,
        },
{
    let ghost tv = terms.deep_view();
    let mut j: usize = 0;
    while j < terms.len()
        invariant
            j <= terms@.len(),
            tv == terms.deep_view(),
            first_in_either(a@, b@, tv.take(j as int)) is None,
        decreases terms@.len() - j,
    {
        proof {
            assert(tv.take(j + 1).drop_last() =~= tv.take(j as int));
            assert(tv.take(j + 1).last() == terms@[j as int]@);
        }
        if str_contains(a, terms[j].as_str()) || str_contains(b, terms[j].as_str()) {
            proof {
                lemma_first_in_either_prefix(a@, b@, tv, j + 1);
            }
            return Some(j);
        }
        j += 1;
    }
    proof {
        assert(tv.take(terms@.len() as int) =~= tv);
    }
    None
}

/// A word found among the first `n` words stays the first one found.
proof fn lemma_first_in_either_prefix(a: Seq<char>, b: Seq<char>, terms: Seq<Seq<char>>, n: int)
    requires
        0 <= n <= terms.len(),
        first_in_either(a, b, terms.take(n)) is Some,
    ensures
        first_in_either(a, b, terms) == first_in_either(a, b, terms.take(n)),
    decreases terms.len() - n,
{
    if n < terms.len() {
        assert(terms.take(n + 1).drop_last() =~= terms.take(n));
        lemma_first_in_either_prefix(a, b, terms, n + 1);
    } else {
        assert(terms.take(n) =~= terms);
    }
}

/// The candidate chunk `ch` (under `id`) gives.
fn candidate_exec(id: &String, ch: &Chunk, terms: &Vec<String>, rtype: &str) -> (r: Option<CandidateRef>)
    ensures
        r.deep_view() == candidate_for(id@, ch.deep_view(), terms.deep_view(), rtype@),
{
    let spaced = join_strings(&ch.section_path, " ");
    let mut st = spaced.clone();
    push_str(&mut st, " ");
    let head = take_prefix(ch.text.as_str(), 500);
    push_str(&mut st, head.as_str());
    match first_in_exec(st.as_str(), terms) {
        Some(j) => {
            let mut reason = to_owned_string("文本包含'");
            push_str(&mut reason, terms[j].as_str());
            push_str(&mut reason, "'");
            Some(
                CandidateRef {
                    chunk_id: id.clone(),
                    section_path: ch.section_path.dup(),
                    match_reason: reason,
                    match_score: 3,
                    text_preview: take_prefix(ch.text.as_str(), 200),
                },
            )
        },
        None => {
            if str_eq(rtype, "section") {
                let concat = join_strings(&ch.section_path, "");
                match first_in_either_exec(spaced.as_str(), concat.as_str(), terms) {
                    Some(j) => {
                        let mut reason = to_owned_string("章节路径包含'");
                        push_str(&mut reason, terms[j].as_str());
                        push_str(&mut reason, "'");
                        Some(
                            CandidateRef {
                                chunk_id: id.clone(),
                                section_path: ch.section_path.dup(),
                                match_reason: reason,
                                match_score: 2,
                                text_preview: take_prefix(ch.text.as_str(), 200),
                            },
                        )
                    },
                    None => None,
                }
            } else {
                None
            }
        },
    }
}

/// Whether `a` comes no later than `b`.
fn cand_le_exec(a: &CandidateRef, b: &CandidateRef) -> (r: bool)
    ensures
        r == cand_le(a.deep_view(), b.deep_view()),
{
    a.match_score > b.match_score || (a.match_score == b.match_score && str_le(
        a.chunk_id.as_str(),
        b.chunk_id.as_str(),
    ))
}

/// The order of candidates is total.
proof fn lemma_cand_total(a: CandView, b: CandView)
    ensures
        cand_le(a, b) || cand_le(b, a),
{
    lemma_lex_total(a.chunk_id, b.chunk_id);
}

/// The order of candidates is transitive.
proof fn lemma_cand_trans(a: CandView, b: CandView, c: CandView)
    requires
        cand_le(a, b),
        cand_le(b, c),
    ensures
        cand_le(a, c),
{
    if a.match_score == b.match_score && b.match_score == c.match_score {
        lemma_lex_trans(a.chunk_id, b.chunk_id, c.chunk_id);
    }
}

/// The candidates of `v` in order (higher score first, then by chunk id).
fn sort_candidates(v: &Vec<CandidateRef>) -> (r: Vec<CandidateRef>)
    ensures
        r.deep_view().to_multiset() == v.deep_view().to_multiset(),
        sorted_cands(r.deep_view()),
{
    broadcast use vstd::seq_lib::group_to_multiset_ensures;

    let mut r: Vec<CandidateRef> = Vec::new();
    let mut i: usize = 0;
    while i < v.len()
        invariant
            i <= v@.len(),
            r.deep_view().to_multiset() == v.deep_view().take(i as int).to_multiset(),
            sorted_cands(r.deep_view()),
        decreases v@.len() - i,
    {
        let x = v[i].dup();
        let mut pos: usize = 0;
        while pos < r.len() && cand_le_exec(&r[pos], &x)
            invariant
                pos <= r@.len(),
                forall|q: int| 0 <= q < pos ==> cand_le(#[trigger] r.deep_view()[q], x.deep_view()),
            decreases r@.len() - pos,
        {
            pos += 1;
        }
        let ghost r0 = r.deep_view();
        proof {
            if pos < r@.len() {
                lemma_cand_total(r0[pos as int], x.deep_view());
                assert forall|q: int| pos <= q < r0.len() implies cand_le(x.deep_view(), #[trigger] r0[q]) by {
                    if q > pos {
                        lemma_cand_trans(x.deep_view(), r0[pos as int], r0[q]);
                    }
                }
            }
        }
        r.insert(pos, x);
        proof {
            assert(r.deep_view() =~= r0.insert(pos as int, v@[i as int].deep_view()));
            vstd::seq_lib::to_multiset_insert(r0, pos as int, v@[i as int].deep_view());
            vstd::seq_lib::to_multiset_build(v.deep_view().take(i as int), v@[i as int].deep_view());
            assert(v.deep_view().take(i + 1) =~= v.deep_view().take(i as int).push(v@[i as int].deep_view()));
            let rv = r.deep_view();
            assert forall|a: int, b: int| 0 <= a < b < rv.len() implies cand_le(rv[a], rv[b]) by {
                if b < pos {
                    assert(rv[a] == r0[a] && rv[b] == r0[b]);
                } else if b == pos {
                    assert(rv[a] == r0[a]);
                } else if a < pos {
                    assert(rv[a] == r0[a] && rv[b] == r0[b - 1]);
                    lemma_cand_trans(r0[a], x.deep_view(), r0[b - 1]);
                } else if a == pos {
                    assert(rv[b] == r0[b - 1]);
                } else {
                    assert(rv[a] == r0[a - 1] && rv[b] == r0[b - 1]);
                }
            }
        }
        i += 1;
    }
    proof {
        assert(v.deep_view().take(v@.len() as int) =~= v.deep_view());
    }
    r
}

impl CheckCrossReferenceTool {
    /// A tool over the given chunks and document order.
    pub fn new(chunks: StrMap<Chunk>, chunk_order: Vec<String>) -> (r: Self)
        ensures
            r.chunks == chunks,
            r.chunk_order == chunk_order,
    {
        CheckCrossReferenceTool { chunks, chunk_order }
    }

    /// The tool's name.
    pub fn name(&self) -> (r: &'static str)
        ensures
            r@ == "check_cross_reference"@,
    {
        "check_cross_reference"
    }

    /// The kind of target and the search words of a reference: the kind is
    /// the hint, else guessed from the words "附件", "附录", "章", "节", "条",
    /// "表", "图"; the words are the expression and, if it has a Chinese
    /// numeral, that numeral in Arabic digits.
    pub fn parse_reference(expr: &str, hint: Option<&str>) -> (r: (String, Vec<String>))
        ensures
            r.0@ == ref_type_of(expr@, str_opt(hint)),
            r.1.deep_view() == reference_keywords(expr@),
    {
        let v = chars_of(expr);
        let part = clause_part_exec(&v);
        let ref_type = match hint {
            Some(h) => to_owned_string(h),
            None => {
                if str_contains(expr, "附件") || str_contains(expr, "附录") {
                    if str_contains(expr, "附件") {
                        to_owned_string("attachment")
                    } else {
                        to_owned_string("appendix")
                    }
                } else if str_contains(expr, "章") || str_contains(expr, "节") {
                    to_owned_string("section")
                } else if part.is_some() {
                    to_owned_string("clause")
                } else if str_contains(expr, "条") {
                    to_owned_string("section")
                } else if str_contains(expr, "表") || str_contains(expr, "图") {
                    to_owned_string("table")
                } else {
                    to_owned_string("clause")
                }
            },
        };
        let mut keywords: Vec<String> = Vec::new();
        keywords.push(to_owned_string(expr));
        match part {
            Some(x) => {
                let mut whole = to_owned_string("第");
                push_str(&mut whole, x.as_str());
                push_str(&mut whole, "条");
                let same = str_eq(whole.as_str(), expr);
                keywords.push(x);
                if !same {
                    keywords.push(whole);
                }
            },
            None => {},
        }
        let ghost k1 = keywords.deep_view();
        match cn_number(&v) {
            Some(n) => {
                keywords.push(decimal_string(n));
            },
            None => {},
        }
        proof {
            assert(k1 =~= seq![expr@] + clause_words(expr@));
            assert(keywords.deep_view() =~= reference_keywords(expr@));
        }
        (ref_type, keywords)
    }

    /// The chunks that may be the target, best first: each chunk of the
    /// document order that the tool holds, scored by `candidate_for` over
    /// the search words, sorted by score (high first) and then chunk id.
    pub fn search_targets(&self, expr: &str, ref_type: &str, keywords: &[String]) -> (r: Vec<CandidateRef>)
        requires
            self.chunks.wf(),
        ensures
            sorted_cands(r.deep_view()),
            r.deep_view().to_multiset() == raw_candidates(
                self.chunk_order.deep_view(),
                self.chunks.deep_view(),
                search_terms(keywords.deep_view()),
                ref_type@,
            ).to_multiset(),
    {
        let terms = build_terms(keywords);
        let found = self.collect_candidates(&terms, ref_type);
        sort_candidates(&found)
    }

    /// The candidates of the chunks in document order.
    fn collect_candidates(&self, terms: &Vec<String>, ref_type: &str) -> (r: Vec<CandidateRef>)
        requires
            self.chunks.wf(),
        ensures
            r.deep_view() == raw_candidates(
                self.chunk_order.deep_view(),
                self.chunks.deep_view(),
                terms.deep_view(),
                ref_type@,
            ),
    {
        let ghost tv = terms.deep_view();
        let ghost ov = self.chunk_order.deep_view();
        let ghost cv = self.chunks.deep_view();
        let mut found: Vec<CandidateRef> = Vec::new();
        let mut j: usize = 0;
        while j < self.chunk_order.len()
            invariant
                j <= self.chunk_order@.len(),
                self.chunks.wf(),
                tv == terms.deep_view(),
                ov == self.chunk_order.deep_view(),
                cv == self.chunks.deep_view(),
                found.deep_view() == raw_candidates(ov.take(j as int), cv, tv, ref_type@),
            decreases self.chunk_order@.len() - j,
        {
            proof {
                assert(ov.take(j + 1).drop_last() =~= ov.take(j as int));
                assert(ov.take(j + 1).last() == self.chunk_order@[j as int]@);
            }
            let id = &self.chunk_order[j];
            match self.chunks.get(id.as_str()) {
                Some(ch) => {
                    proof {
                        assert(cv.dom().contains(id@));
                        assert(cv[id@] == ch.deep_view());
                    }
                    match candidate_exec(id, ch, terms, ref_type) {
                        Some(c) => {
                            let ghost f0 = found.deep_view();
                            found.push(c);
                            proof {
                                assert(found.deep_view() =~= f0.push(c.deep_view()));
                            }
                        },
                        None => {},
                    }
                },
                None => {
                    proof {
                        assert(!cv.dom().contains(id@));
                    }
                },
            }
            j += 1;
        }
        proof {
            assert(ov.take(self.chunk_order@.len() as int) =~= ov);
        }
        found
    }

    /// Judges a reference: finds its candidates (`search_targets` over the
    /// words of `parse_reference`) and decides, as `judgement` says, whether
    /// it dangles, is ambiguous, valid, or names a target whose content
    /// does not match the claims.
    pub fn execute(&self, args: &CheckCrossReferenceArgs) -> (r: CrossReferenceResult)
        requires
            self.chunks.wf(),
        ensures
            ({
                let expr = args.reference_expression@;
                let rtype = ref_type_of(expr, args.reference_type.deep_view());
                let cands = r.candidates.deep_view();
                let j = judgement(
                    self.chunks.deep_view(),
                    args.source_chunk@,
                    expr,
                    rtype,
                    args.reference_claims.deep_view(),
                    cands,
                );
                &&& sorted_cands(cands)
                &&& cands.to_multiset() == raw_candidates(
                    self.chunk_order.deep_view(),
                    self.chunks.deep_view(),
                    search_terms(reference_keywords(expr)),
                    rtype,
                ).to_multiset()
                &&& r.reference_expression@ == expr
                &&& r.reference_type@ == rtype
                &&& r.status == j.0
                &&& r.target_chunk.deep_view() == j.1
                &&& r.target_section.deep_view() == j.2
                &&& r.mismatch_detail.deep_view() == j.3
            }),
    {
        let hint: Option<&str> = match &args.reference_type {
            Some(h) => Some(h.as_str()),
            None => None,
        };
        proof {
            assert(str_opt(hint) == args.reference_type.deep_view());
        }
        let (ref_type, keywords) = Self::parse_reference(args.reference_expression.as_str(), hint);
        let candidates = self.search_targets(args.reference_expression.as_str(), ref_type.as_str(), keywords.as_slice());
        let ghost cands = candidates.deep_view();
        let ghost cv = self.chunks.deep_view();
        let n = candidates.len();
        let status: RefStatus;
        let target_chunk: Option<String>;
        let target_section: Option<Vec<String>>;
        let detail: Option<String>;
        if n == 0 {
            status = RefStatus::Dangling;
            target_chunk = None;
            target_section = None;
            let mut d = to_owned_string("未找到引用目标 '");
            push_str(&mut d, args.reference_expression.as_str());
            push_str(&mut d, "'。文档中不存在匹配的");
            push_str(&mut d, ref_type_name_exec(ref_type.as_str()));
            push_str(&mut d, "。");
            detail = Some(d);
        } else if n == 1 {
            let c = &candidates[0];
            if !self.chunks.contains_key(args.source_chunk.as_str()) {
                status = RefStatus::Dangling;
                target_chunk = None;
                target_section = None;
                let mut d = to_owned_string("源 chunk '");
                push_str(&mut d, args.source_chunk.as_str());
                push_str(&mut d, "' 不存在");
                detail = Some(d);
            } else if args.reference_claims.len() > 0 {
                let target: &String = match self.chunks.get(c.chunk_id.as_str()) {
                    Some(ch) => &ch.text,
                    None => &c.text_preview,
                };
                let yes = claims_split(target.as_str(), &args.reference_claims, true);
                let no = claims_split(target.as_str(), &args.reference_claims, false);
                target_chunk = Some(c.chunk_id.clone());
                target_section = Some(c.section_path.dup());
                if no.len() == 0 {
                    status = RefStatus::Valid;
                    detail = None;
                } else if yes.len() == 0 {
                    status = RefStatus::ContentMismatch;
                    let mut d = to_owned_string("引用声称的内容（");
                    push_str(&mut d, join_strings(&no, "、").as_str());
                    push_str(&mut d, "）在目标中均未找到。目标实际标题为 '");
                    push_str(&mut d, join_strings(&c.section_path, " > ").as_str());
                    push_str(&mut d, "'，内容摘要：'");
                    push_str(&mut d, c.text_preview.as_str());
                    push_str(&mut d, "'");
                    detail = Some(d);
                } else {
                    status = RefStatus::ContentMismatch;
                    let mut d = to_owned_string("部分声称匹配(");
                    push_str(&mut d, join_strings(&yes, "、").as_str());
                    push_str(&mut d, ")，但以下关键词未找到：");
                    push_str(&mut d, join_strings(&no, "、").as_str());
                    push_str(&mut d, "。请确认引用目标是否正确。");
                    detail = Some(d);
                }
            } else {
                status = RefStatus::Valid;
                target_chunk = Some(c.chunk_id.clone());
                target_section = Some(c.section_path.dup());
                detail = None;
            }
        } else {
            status = RefStatus::Ambiguous;
            target_chunk = None;
            target_section = None;
            let mut labels: Vec<String> = Vec::new();
            let mut q: usize = 0;
            while q < n
                invariant
                    q <= n == candidates@.len(),
                    cands == candidates.deep_view(),
                    labels.deep_view() == cands.take(q as int).map_values(|c: CandView| cand_label(c)),
                decreases n - q,
            {
                let c = &candidates[q];
                let mut s = c.chunk_id.clone();
                push_str(&mut s, "(");
                push_str(&mut s, join_strings(&c.section_path, " > ").as_str());
                push_str(&mut s, ")");
                let ghost l0 = labels.deep_view();
                labels.push(s);
                proof {
                    assert(labels.deep_view() =~= l0.push(cand_label(cands[q as int])));
                    assert(cands.take(q + 1).map_values(|c: CandView| cand_label(c)) =~= cands.take(
                        q as int,
                    ).map_values(|c: CandView| cand_label(c)).push(cand_label(cands[q as int])));
                }
                q += 1;
            }
            proof {
                assert(cands.take(n as int) =~= cands);
            }
            let mut d = to_owned_string("找到 ");
            push_str(&mut d, decimal_string(n as u64).as_str());
            push_str(&mut d, " 个可能的目标: ");
            push_str(&mut d, join_strings(&labels, ", ").as_str());
            push_str(&mut d, "。请用 read_section 确认。");
            detail = Some(d);
        }
        CrossReferenceResult {
            status,
            reference_expression: args.reference_expression.clone(),
            reference_type: ref_type,
            target_chunk,
            target_section,
            mismatch_detail: detail,
            candidates,
        }
    }
}

/// The search words: the keywords, then their snippets.
fn build_terms(keywords: &[String]) -> (r: Vec<String>)
    ensures
        r.deep_view() == search_terms(keywords.deep_view()),
{
    let ghost kv = keywords.deep_view();
    let mut terms: Vec<String> = Vec::new();
    let mut i: usize = 0;
    while i < keywords.len()
        invariant
            i <= keywords@.len(),
            kv == keywords.deep_view(),
            terms.deep_view() == kv.take(i as int),
        decreases keywords@.len() - i,
    {
        let ghost t0 = terms.deep_view();
        let w = keywords[i].clone();
        terms.push(w);
        proof {
            assert(kv[i as int] == keywords@[i as int]@);
            assert(w@ == keywords@[i as int]@);
            assert(terms.deep_view() =~= t0.push(w@));
            assert(terms.deep_view() =~= kv.take(i + 1));
        }
        i += 1;
    }
    proof {
        assert(kv.take(keywords@.len() as int) =~= kv);
    }
    let mut k: usize = 0;
    while k < keywords.len()
        invariant
            k <= keywords@.len(),
            kv == keywords.deep_view(),
            terms.deep_view() == expand_terms(kv, kv.take(k as int)),
        decreases keywords@.len() - k,
    {
        proof {
            assert(kv.take(k + 1).drop_last() =~= kv.take(k as int));
            assert(kv.take(k + 1).last() == keywords@[k as int]@);
        }
        add_snippets_exec(&mut terms, &keywords[k]);
        k += 1;
    }
    proof {
        assert(kv.take(keywords@.len() as int) =~= kv);
    }
    terms
}

/// The claims of `cs` that occur (`yes`) or do not occur in `t`.
fn claims_split(t: &str, cs: &Vec<String>, yes: bool) -> (r: Vec<String>)
    ensures
        r.deep_view() == claims_where(t@, cs.deep_view(), yes),
{
    let ghost cv = cs.deep_view();
    let mut out: Vec<String> = Vec::new();
    let mut i: usize = 0;
    while i < cs.len()
        invariant
            i <= cs@.len(),
            cv == cs.deep_view(),
            out.deep_view() == claims_where(t@, cv.take(i as int), yes),
        decreases cs@.len() - i,
    {
        proof {
            assert(cv.take(i + 1).drop_last() =~= cv.take(i as int));
            assert(cv.take(i + 1).last() == cs@[i as int]@);
        }
        if str_contains(t, cs[i].as_str()) == yes {
            let ghost o0 = out.deep_view();
            out.push(cs[i].clone());
            proof {
                assert(out.deep_view() =~= o0.push(cs@[i as int]@));
            }
        }
        i += 1;
    }
    proof {
        assert(cv.take(cs@.len() as int) =~= cv);
    }
    out
}

/// The name of a kind of target.
fn ref_type_name_exec(t: &str) -> (r: &'static str)
    ensures
        r@ == ref_type_name(t@),
{
    if str_eq(t, "attachment") {
        "附件"
    } else if str_eq(t, "section") {
        "章节"
    } else if str_eq(t, "clause") {
        "条款"
    } else if str_eq(t, "table") {
        "表格"
    } else if str_eq(t, "appendix") {
        "附录"
    } else {
        "文档"
    }
}

} // verus!
