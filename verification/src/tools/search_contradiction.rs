//! `search_contradiction`: whether two clauses contradict each other
//! (a hidden raise of the qualification bar, a logical conflict, differing
//! figures, a reference with nothing behind it), or which clauses may
//! contradict a given one.
use vstd::prelude::*;

use crate::chunk::{Chunk, ChunkView};
use crate::dup::Dup;
use crate::session_graph::{contradicts_after, SessionGraph};
use crate::strmap::StrMap;
use crate::text::{
    chars_of, contains_seq, decimal, decimal_string, digit_char, lowercase, push_char, push_str, str_contains,
    str_eq, take_chars, take_prefix, to_lowercase, to_owned_string,
};
use crate::tools::keywords::{any_hit, any_keyword, strs};

verus! {

/// The arguments of the tool.
pub struct SearchContradictionArgs {
    pub clause_a: String,
    /// The second clause, or none to search the document.
    pub clause_b: Option<String>,
}

/// The kind of contradiction found.
#[derive(PartialEq, Eq, Structural, Clone, Copy, Debug)]
pub enum ContradictionType {
    ImplicitUpgrade,
    DanglingReference,
    DataInconsistency,
    LogicConflict,
    NoContradiction,
}

/// A clause that may contradict the given one.
pub struct ContradictionCandidate {
    pub chunk_id: String,
    pub section_path: Vec<String>,
    pub contradiction_type: String,
    pub contrast: String,
    pub text_preview: String,
}

/// The content of a candidate.
pub ghost struct CandidateView {
    pub chunk_id: Seq<char>,
    pub section_path: Seq<Seq<char>>,
    pub contradiction_type: Seq<char>,
    pub contrast: Seq<char>,
    pub text_preview: Seq<char>,
}

impl DeepView for ContradictionCandidate {
    type V = CandidateView;

    open spec fn deep_view(&self) -> CandidateView {
        CandidateView {
            chunk_id: self.chunk_id@,
            section_path: self.section_path.deep_view(),
            contradiction_type: self.contradiction_type@,
            contrast: self.contrast@,
            text_preview: self.text_preview@,
        }
    }
}

/// The outcome of a search.
pub struct ContradictionResult {
    pub contradiction_type: ContradictionType,
    pub clause_pair: (String, Option<String>),
    pub contrast: String,
    pub severity: String,
    pub legal_basis: Option<String>,
    pub candidates: Vec<ContradictionCandidate>,
}

/// The tool: every chunk by id, and the ids in document order.
pub struct SearchContradictionTool {
    pub chunks: StrMap<Chunk>,
    pub chunk_order: Vec<String>,
}

impl ContradictionType {
    /// The kind named by `s` (no contradiction for other names).
    pub fn from_str(s: &str) -> (r: Self)
        ensures
            r == type_of_name(s@),
    {
        if str_eq(s, "implicit_upgrade") {
            ContradictionType::ImplicitUpgrade
        } else if str_eq(s, "dangling_reference") {
            ContradictionType::DanglingReference
        } else if str_eq(s, "data_inconsistency") {
            ContradictionType::DataInconsistency
        } else if str_eq(s, "logic_conflict") {
            ContradictionType::LogicConflict
        } else {
            ContradictionType::NoContradiction
        }
    }

    /// The name of the kind.
    pub fn as_str(&self) -> (r: &'static str)
        ensures
            r@ == kind_name(*self),
    {
        match self {
            ContradictionType::ImplicitUpgrade => "implicit_upgrade",
            ContradictionType::DanglingReference => "dangling_reference",
            ContradictionType::DataInconsistency => "data_inconsistency",
            ContradictionType::LogicConflict => "logic_conflict",
            ContradictionType::NoContradiction => "no_contradiction",
        }
    }
}

/// The name of a kind.
pub open spec fn kind_name(t: ContradictionType) -> Seq<char> {
    match t {
        ContradictionType::ImplicitUpgrade => "implicit_upgrade"@,
        ContradictionType::DanglingReference => "dangling_reference"@,
        ContradictionType::DataInconsistency => "data_inconsistency"@,
        ContradictionType::LogicConflict => "logic_conflict"@,
        ContradictionType::NoContradiction => "no_contradiction"@,
    }
}

/// The kind a name names.
pub open spec fn type_of_name(s: Seq<char>) -> ContradictionType {
    if s == "implicit_upgrade"@ {
        ContradictionType::ImplicitUpgrade
    } else if s == "dangling_reference"@ {
        ContradictionType::DanglingReference
    } else if s == "data_inconsistency"@ {
        ContradictionType::DataInconsistency
    } else if s == "logic_conflict"@ {
        ContradictionType::LogicConflict
    } else {
        ContradictionType::NoContradiction
    }
}

/// Words of qualification thresholds.
pub open spec fn qual_words() -> Seq<Seq<char>> {
    seq!["资质"@, "等级"@, "资格"@, "门槛"@]
}

/// Words of scoring advantages.
pub open spec fn score_words() -> Seq<Seq<char>> {
    seq!["加分"@, "评分"@, "优先"@, "额外"@]
}

/// The grade words, with their levels.
pub open spec fn level_words() -> Seq<(Seq<char>, nat)> {
    seq![("一级"@, 1nat), ("二级"@, 2nat), ("三级"@, 3nat), ("甲级"@, 1nat), ("乙级"@, 2nat), ("丙级"@, 3nat)]
}

/// The level of the first grade word of `ws` found in `t`.
pub open spec fn level_in(t: Seq<char>, ws: Seq<(Seq<char>, nat)>) -> Option<nat>
    decreases ws.len(),
{
    if ws.len() == 0 {
        None
    } else {
        match level_in(t, ws.drop_last()) {
            Some(l) => Some(l),
            None => if contains_seq(t, ws.last().0) {
                Some(ws.last().1)
            } else {
                None
            },
        }
    }
}

/// The hidden-upgrade finding of texts `a` and `b`.
pub open spec fn implicit_upgrade(a: Seq<char>, b: Seq<char>) -> Option<Seq<char>> {
    if any_hit(a, qual_words()) && any_hit(b, score_words()) {
        match (level_in(a, level_words()), level_in(b, level_words())) {
            (Some(la), Some(lb)) if la > lb => Some(
                "隐性升级：条款 A 接受低资质（第"@ + decimal(la) + "级），但条款 B 给高资质（第"@ + decimal(lb)
                    + "级）额外加分——形成事实上的资质升级"@,
            ),
            _ => Some("可能存在隐性升级：一个条款设定了资格门槛，另一个条款在评分中给超出门槛的条件额外加分"@),
        }
    } else {
        None
    }
}

/// The conflicting pairs: a negation, what it negates, and the finding.
pub open spec fn conflict_pairs() -> Seq<(Seq<char>, Seq<char>, Seq<char>)> {
    seq![
        ("不接受联合体"@, "联合体"@, "联合体投标矛盾：一个条款不接受，另一个条款涉及联合体"@),
        ("不允许分包"@, "分包"@, "分包矛盾：一个条款不允许，另一个条款涉及分包"@),
        ("不允许转包"@, "转包"@, "转包矛盾"@),
        ("资格后审"@, "资格预审"@, "资格审查方式矛盾"@),
        ("最低评标价法"@, "综合评分法"@, "评标方法矛盾"@),
        ("不接受替代方案"@, "备选方案"@, "备选方案矛盾"@),
        ("不接受进口"@, "进口产品"@, "进口产品政策矛盾"@),
    ]
}

/// The first conflicting pair of `ps` between `a` and `b` (either way).
pub open spec fn logic_conflict_in(a: Seq<char>, b: Seq<char>, ps: Seq<(Seq<char>, Seq<char>, Seq<char>)>) -> Option<Seq<char>>
    decreases ps.len(),
{
    if ps.len() == 0 {
        None
    } else {
        match logic_conflict_in(a, b, ps.drop_last()) {
            Some(d) => Some(d),
            None => {
                let (n, p, d) = ps.last();
                if (contains_seq(a, n) && contains_seq(b, p)) || (contains_seq(b, n) && contains_seq(a, p)) {
                    Some(d)
                } else {
                    None
                }
            },
        }
    }
}

/// Logical conflicts do not depend on the order of the two clauses, and a
/// conflict is found exactly when, for some pair, one clause holds the
/// negation and the other the positive phrase; what is reported is then the
/// description of such a pair.
pub proof fn law_logic_conflict_symmetric(a: Seq<char>, b: Seq<char>, ps: Seq<(Seq<char>, Seq<char>, Seq<char>)>)
    ensures
        logic_conflict_in(a, b, ps) == logic_conflict_in(b, a, ps),
        logic_conflict_in(a, b, ps) is Some <==> exists|i: int|
            0 <= i < ps.len() && ((contains_seq(a, (#[trigger] ps[i]).0) && contains_seq(b, ps[i].1)) || (contains_seq(b, ps[i].0)
                && contains_seq(a, ps[i].1))),
        logic_conflict_in(a, b, ps) matches Some(d) ==> exists|i: int|
            0 <= i < ps.len() && (#[trigger] ps[i]).2 == d && ((contains_seq(a, ps[i].0) && contains_seq(b, ps[i].1)) || (
            contains_seq(b, ps[i].0) && contains_seq(a, ps[i].1))),
    decreases ps.len(),
{
    if ps.len() > 0 {
        let d = ps.drop_last();
        law_logic_conflict_symmetric(a, b, d);
        assert forall|i: int| 0 <= i < d.len() implies #[trigger] d[i] == ps[i] by {}
        let last = ps.last();
        assert(last == ps[ps.len() - 1]);
        if logic_conflict_in(a, b, d) is Some {
            let i = choose|i: int| 0 <= i < d.len() && ((contains_seq(a, (#[trigger] d[i]).0) && contains_seq(b, d[i].1)) || (contains_seq(b, d[i].0)
                && contains_seq(a, d[i].1)));
            assert(ps[i] == d[i]);
            match logic_conflict_in(a, b, d) {
                Some(dd) => {
                    let k = choose|k: int| 0 <= k < d.len() && (#[trigger] d[k]).2 == dd && ((contains_seq(a, d[k].0) && contains_seq(b, d[k].1)) || (
                        contains_seq(b, d[k].0) && contains_seq(a, d[k].1)));
                    assert(ps[k] == d[k]);
                },
                None => {},
            }
        } else {
            if exists|i: int| 0 <= i < ps.len() && ((contains_seq(a, (#[trigger] ps[i]).0) && contains_seq(b, ps[i].1)) || (contains_seq(b, ps[i].0)
                && contains_seq(a, ps[i].1))) {
                let i = choose|i: int| 0 <= i < ps.len() && ((contains_seq(a, (#[trigger] ps[i]).0) && contains_seq(b, ps[i].1)) || (contains_seq(b, ps[i].0)
                    && contains_seq(a, ps[i].1)));
                if i < d.len() {
                    assert(d[i] == ps[i]);
                }
            }
        }
    }
}

/// Reference words.
pub open spec fn reference_words() -> Seq<Seq<char>> {
    seq!["详见"@, "参照"@, "按照"@, "参见"@, "见附件"@, "见附表"@]
}

/// The first reference word of `ws` in `a` but not in `b`.
pub open spec fn dangling_word(a: Seq<char>, b: Seq<char>, ws: Seq<Seq<char>>) -> Option<Seq<char>>
    decreases ws.len(),
{
    if ws.len() == 0 {
        None
    } else {
        match dangling_word(a, b, ws.drop_last()) {
            Some(w) => Some(w),
            None => if contains_seq(a, ws.last()) && !contains_seq(b, ws.last()) {
                Some(ws.last())
            } else {
                None
            },
        }
    }
}

/// The dangling-reference finding of `a` and `b`.
pub open spec fn dangling_reference(a: Seq<char>, b: Seq<char>) -> Option<Seq<char>> {
    match dangling_word(a, b, reference_words()) {
        Some(w) => Some("可能的悬空引用：条款 A 包含'"@ + w + "'引用，但关联条款中未找到对应内容"@),
        None => None,
    }
}

/// Words of shared financial context.
pub open spec fn context_words() -> Seq<Seq<char>> {
    seq!["保证金"@, "合同金额"@, "预算"@, "付款"@, "预付款"@, "质保金"@, "履约"@]
}

/// Both texts name a word of `ws`.
pub open spec fn shared_context(a: Seq<char>, b: Seq<char>, ws: Seq<Seq<char>>) -> bool {
    exists|i: int| 0 <= i < ws.len() && contains_seq(a, #[trigger] ws[i]) && contains_seq(b, ws[i])
}

/// An ASCII digit.
pub open spec fn is_digit(c: char) -> bool {
    '0' <= c && c <= '9'
}

/// The first index at or after `i` where the run of digits and dots that
/// starts at `i` ends.
pub open spec fn run_end(s: Seq<char>, i: int) -> int
    decreases s.len() - i,
{
    if i < 0 || i >= s.len() || !(is_digit(s[i]) || s[i] == '.') {
        i
    } else {
        run_end(s, i + 1)
    }
}

/// The number tokens of `s` from index `i`: each run of digits and dots
/// that starts with a digit.
pub open spec fn tokens_from(s: Seq<char>, i: int) -> Seq<Seq<char>>
    decreases s.len() - i,
{
    if i < 0 || i >= s.len() {
        Seq::empty()
    } else if is_digit(s[i]) {
        let e = run_end(s, i);
        if i < e <= s.len() {
            seq![s.subrange(i, e)] + tokens_from(s, e)
        } else {
            Seq::empty()
        }
    } else {
        tokens_from(s, i + 1)
    }
}

/// Ten to the `k`.
pub open spec fn pow10(k: nat) -> nat
    decreases k,
{
    if k == 0 {
        1
    } else {
        10 * pow10((k - 1) as nat)
    }
}

/// How many dots `t` has.
pub open spec fn dots(t: Seq<char>) -> nat
    decreases t.len(),
{
    if t.len() == 0 {
        0
    } else {
        dots(t.drop_last()) + if t.last() == '.' {
            1nat
        } else {
            0nat
        }
    }
}

/// The digits of `t` read as one integer (dots skipped).
pub open spec fn digits_value(t: Seq<char>) -> nat
    decreases t.len(),
{
    if t.len() == 0 {
        0
    } else if t.last() == '.' {
        digits_value(t.drop_last())
    } else {
        digits_value(t.drop_last()) * 10 + ((t.last() as u32 - '0' as u32) as nat)
    }
}

/// How many digits follow the dot of `t` (0 without a dot).
pub open spec fn frac_digits(t: Seq<char>) -> nat
    decreases t.len(),
{
    if t.len() == 0 || t.last() == '.' {
        0
    } else if dots(t.drop_last()) > 0 {
        frac_digits(t.drop_last()) + 1
    } else {
        0
    }
}

/// A token reads as a positive number below 10^15 with at most 15
/// decimals (numbers of at most 15 digits, which `f64` holds exactly as
/// written).
pub open spec fn usable(t: Seq<char>) -> bool {
    dots(t) <= 1 && digits_value(t) > 0 && digits_value(t) < pow10(15) && frac_digits(t) <= 15
}

/// The usable numbers of a text, as (digits, decimals): the value is
/// digits / 10^decimals.
pub open spec fn numbers_of(ts: Seq<Seq<char>>) -> Seq<(nat, nat)>
    decreases ts.len(),
{
    if ts.len() == 0 {
        Seq::empty()
    } else {
        let prev = numbers_of(ts.drop_last());
        if usable(ts.last()) {
            prev.push((digits_value(ts.last()), frac_digits(ts.last())))
        } else {
            prev
        }
    }
}

/// Two numbers differ by more than 1 and neither is 100 times the other.
pub open spec fn differs(a: (nat, nat), b: (nat, nat)) -> bool {
    let x = a.0 * pow10(b.1);
    let y = b.0 * pow10(a.1);
    let one = pow10(a.1 + b.1);
    (x > y + one || y > x + one) && x < 100 * y && y < 100 * x
}

/// `n` as `f64` formats it: the digits with a dot before the last `k`,
/// trailing zeros of the fraction dropped.
pub open spec fn number_text(n: nat, k: nat) -> Seq<char> {
    let int_part = decimal(n / pow10(k));
    let frac = strip_zeros(padded(n % pow10(k), k));
    if frac.len() > 0 {
        int_part + "."@ + frac
    } else {
        int_part
    }
}

/// The last `k` decimal digits of `x`, with leading zeros.
pub open spec fn padded(x: nat, k: nat) -> Seq<char>
    decreases k,
{
    if k == 0 {
        Seq::empty()
    } else {
        padded(x / 10, (k - 1) as nat).push(digit_char(x % 10))
    }
}

/// `s` without its trailing zeros.
pub open spec fn strip_zeros(s: Seq<char>) -> Seq<char>
    decreases s.len(),
{
    if s.len() > 0 && s.last() == '0' {
        strip_zeros(s.drop_last())
    } else {
        s
    }
}

/// The first pair (in order of `xs`, then of `ys`) of numbers that differ.
pub open spec fn first_differing(xs: Seq<(nat, nat)>, ys: Seq<(nat, nat)>) -> Option<((nat, nat), (nat, nat))>
    decreases xs.len(),
{
    if xs.len() == 0 {
        None
    } else {
        match first_differing(xs.drop_last(), ys) {
            Some(p) => Some(p),
            None => match first_partner(xs.last(), ys) {
                Some(y) => Some((xs.last(), y)),
                None => None,
            },
        }
    }
}

/// The first number of `ys` that differs from `x`.
pub open spec fn first_partner(x: (nat, nat), ys: Seq<(nat, nat)>) -> Option<(nat, nat)>
    decreases ys.len(),
{
    if ys.len() == 0 {
        None
    } else {
        match first_partner(x, ys.drop_last()) {
            Some(y) => Some(y),
            None => if differs(x, ys.last()) {
                Some(ys.last())
            } else {
                None
            },
        }
    }
}

/// The differing-figures finding of `a` and `b`: with a shared financial
/// word, the first pair of their numbers that differ.
pub open spec fn data_inconsistency(a: Seq<char>, b: Seq<char>) -> Option<Seq<char>> {
    if shared_context(a, b, context_words()) {
        match first_differing(numbers_of(tokens_from(a, 0)), numbers_of(tokens_from(b, 0))) {
            Some((x, y)) => Some(
                "数据不一致：相同上下文中的数值差异。A="@ + number_text(x.0, x.1) + ", B="@ + number_text(y.0, y.1),
            ),
            None => None,
        }
    } else {
        None
    }
}

/// The legal basis of a hidden upgrade.
pub open spec fn upgrade_basis() -> Seq<char> {
    "《政府采购法实施条例》第20条：不得以不合理条件对供应商实行差别待遇或者歧视待遇"@
}

/// The contradiction between the (lower-cased) texts `a` and `b`: a
/// hidden upgrade, else a logical conflict, else differing figures, else a
/// dangling reference.
pub open spec fn contradiction_of(a: Seq<char>, b: Seq<char>) -> Option<(ContradictionType, Seq<char>, Option<Seq<char>>)> {
    match implicit_upgrade(a, b) {
        Some(c) => Some((ContradictionType::ImplicitUpgrade, c, Some(upgrade_basis()))),
        None => match logic_conflict_in(a, b, conflict_pairs()) {
            Some(c) => Some((ContradictionType::LogicConflict, c, None)),
            None => match data_inconsistency(a, b) {
                Some(c) => Some((ContradictionType::DataInconsistency, c, None)),
                None => match dangling_reference(a, b) {
                    Some(c) => Some((ContradictionType::DanglingReference, c, None)),
                    None => None,
                },
            },
        },
    }
}

/// The contradiction between two chunks (their texts lower-cased).
pub open spec fn pair_contradiction(a: ChunkView, b: ChunkView) -> Option<(ContradictionType, Seq<char>, Option<Seq<char>>)> {
    contradiction_of(lowercase(a.text), lowercase(b.text))
}

fn word_list(words: &[&'static str]) -> (r: Vec<&'static str>)
    ensures
        r@ == words@,
{
    let mut v: Vec<&'static str> = Vec::new();
    let mut i: usize = 0;
    while i < words.len()
        invariant
            i <= words@.len(),
            v@ == words@.take(i as int),
        decreases words@.len() - i,
    {
        v.push(words[i]);
        i += 1;
        proof {
            assert(v@ =~= words@.take(i as int));
        }
    }
    proof {
        assert(words@.take(words@.len() as int) =~= words@);
    }
    v
}

/// The level of the first grade word found in `t`.
fn level_exec(t: &str) -> (r: Option<u64>)
    ensures
        match r {
            Some(l) => level_in(t@, level_words()) == Some(l as nat),
            None => level_in(t@, level_words()) is None,
        },
{
    let ws = word_list(&["一级", "二级", "三级", "甲级", "乙级", "丙级"]);
    let ls: [u64; 6] = [1, 2, 3, 1, 2, 3];
    let ghost lw = level_words();
    proof {
        assert(lw.len() == 6);
    }
    let mut i: usize = 0;
    while i < 6
        invariant
            i <= 6,
            ws@.len() == 6,
            lw == level_words(),
            forall|q: int| 0 <= q < 6 ==> #[trigger] lw[q].0 == ws@[q]@ && lw[q].1 == ls@[q] as nat,
            level_in(t@, lw.take(i as int)) is None,
        decreases 6 - i,
    {
        proof {
            assert(lw.take(i + 1).drop_last() =~= lw.take(i as int));
            assert(lw.take(i + 1).last() == lw[i as int]);
        }
        if str_contains(t, ws[i]) {
            proof {
                lemma_level_prefix(t@, lw, i + 1);
            }
            return Some(ls[i]);
        }
        i += 1;
    }
    proof {
        assert(lw.take(6) =~= lw);
    }
    None
}

/// A level found among the first `n` words stays the first one found.
proof fn lemma_level_prefix(t: Seq<char>, ws: Seq<(Seq<char>, nat)>, n: int)
    requires
        0 <= n <= ws.len(),
        level_in(t, ws.take(n)) is Some,
    ensures
        level_in(t, ws) == level_in(t, ws.take(n)),
    decreases ws.len() - n,
{
    if n < ws.len() {
        assert(ws.take(n + 1).drop_last() =~= ws.take(n));
        lemma_level_prefix(t, ws, n + 1);
    } else {
        assert(ws.take(n) =~= ws);
    }
}

/// The first conflicting pair between `a` and `b`.
fn logic_conflict_exec(a: &str, b: &str) -> (r: Option<&'static str>)
    ensures
        match r {
            Some(d) => logic_conflict_in(a@, b@, conflict_pairs()) == Some(d@),
            None => logic_conflict_in(a@, b@, conflict_pairs()) is None,
        },
{
    let mut ps: Vec<(&'static str, &'static str, &'static str)> = Vec::new();
    ps.push(("不接受联合体", "联合体", "联合体投标矛盾：一个条款不接受，另一个条款涉及联合体"));
    ps.push(("不允许分包", "分包", "分包矛盾：一个条款不允许，另一个条款涉及分包"));
    ps.push(("不允许转包", "转包", "转包矛盾"));
    ps.push(("资格后审", "资格预审", "资格审查方式矛盾"));
    ps.push(("最低评标价法", "综合评分法", "评标方法矛盾"));
    ps.push(("不接受替代方案", "备选方案", "备选方案矛盾"));
    ps.push(("不接受进口", "进口产品", "进口产品政策矛盾"));
    let ghost pv = conflict_pairs();
    proof {
        assert(ps@.map_values(|p: (&str, &str, &str)| (p.0@, p.1@, p.2@)) =~= pv);
    }
    let mut i: usize = 0;
    while i < ps.len()
        invariant
            i <= ps@.len(),
            pv == conflict_pairs(),
            ps@.map_values(|p: (&str, &str, &str)| (p.0@, p.1@, p.2@)) == pv,
            logic_conflict_in(a@, b@, pv.take(i as int)) is None,
        decreases ps@.len() - i,
    {
        proof {
            assert(pv.take(i + 1).drop_last() =~= pv.take(i as int));
            assert(pv.take(i + 1).last() == pv[i as int]);
            assert(pv[i as int] == (ps@[i as int].0@, ps@[i as int].1@, ps@[i as int].2@));
        }
        let (n, q, d) = ps[i];
        if (str_contains(a, n) && str_contains(b, q)) || (str_contains(b, n) && str_contains(a, q)) {
            proof {
                lemma_conflict_prefix(a@, b@, pv, i + 1);
            }
            return Some(d);
        }
        i += 1;
    }
    proof {
        assert(pv.take(ps@.len() as int) =~= pv);
    }
    None
}

/// A conflict found among the first `n` pairs stays the first one found.
proof fn lemma_conflict_prefix(a: Seq<char>, b: Seq<char>, ps: Seq<(Seq<char>, Seq<char>, Seq<char>)>, n: int)
    requires
        0 <= n <= ps.len(),
        logic_conflict_in(a, b, ps.take(n)) is Some,
    ensures
        logic_conflict_in(a, b, ps) == logic_conflict_in(a, b, ps.take(n)),
    decreases ps.len() - n,
{
    if n < ps.len() {
        assert(ps.take(n + 1).drop_last() =~= ps.take(n));
        lemma_conflict_prefix(a, b, ps, n + 1);
    } else {
        assert(ps.take(n) =~= ps);
    }
}

/// The first reference word in `a` but not in `b`.
fn dangling_word_exec(a: &str, b: &str) -> (r: Option<&'static str>)
    ensures
        match r {
            Some(w) => dangling_word(a@, b@, reference_words()) == Some(w@),
            None => dangling_word(a@, b@, reference_words()) is None,
        },
{
    let ws = word_list(&["详见", "参照", "按照", "参见", "见附件", "见附表"]);
    let ghost wv = reference_words();
    proof {
        assert(strs(ws@) =~= wv);
    }
    let mut i: usize = 0;
    while i < ws.len()
        invariant
            i <= ws@.len(),
            wv == reference_words(),
            strs(ws@) == wv,
            dangling_word(a@, b@, wv.take(i as int)) is None,
        decreases ws@.len() - i,
    {
        proof {
            assert(wv.take(i + 1).drop_last() =~= wv.take(i as int));
            assert(wv.take(i + 1).last() == ws@[i as int]@);
        }
        if str_contains(a, ws[i]) && !str_contains(b, ws[i]) {
            proof {
                lemma_dangling_prefix(a@, b@, wv, i + 1);
            }
            return Some(ws[i]);
        }
        i += 1;
    }
    proof {
        assert(wv.take(ws@.len() as int) =~= wv);
    }
    None
}

/// A word found among the first `n` stays the first one found.
proof fn lemma_dangling_prefix(a: Seq<char>, b: Seq<char>, ws: Seq<Seq<char>>, n: int)
    requires
        0 <= n <= ws.len(),
        dangling_word(a, b, ws.take(n)) is Some,
    ensures
        dangling_word(a, b, ws) == dangling_word(a, b, ws.take(n)),
    decreases ws.len() - n,
{
    if n < ws.len() {
        assert(ws.take(n + 1).drop_last() =~= ws.take(n));
        lemma_dangling_prefix(a, b, ws, n + 1);
    } else {
        assert(ws.take(n) =~= ws);
    }
}

/// Whether both texts name a word of shared financial context.
fn shared_context_exec(a: &Vec<char>, b: &Vec<char>) -> (r: bool)
    ensures
        r == shared_context(a@, b@, context_words()),
{
    let ws = word_list(&["保证金", "合同金额", "预算", "付款", "预付款", "质保金", "履约"]);
    let ghost wv = context_words();
    proof {
        assert(strs(ws@) =~= wv);
    }
    let mut i: usize = 0;
    while i < ws.len()
        invariant
            i <= ws@.len(),
            strs(ws@) == wv,
            wv == context_words(),
            forall|q: int| 0 <= q < i ==> !(contains_seq(a@, #[trigger] wv[q]) && contains_seq(b@, wv[q])),
        decreases ws@.len() - i,
    {
        let w = chars_of(ws[i]);
        if crate::text::contains_chars(a, &w) && crate::text::contains_chars(b, &w) {
            assert(contains_seq(a@, wv[i as int]) && contains_seq(b@, wv[i as int]));
            return true;
        }
        i += 1;
    }
    false
}

/// A run of digits and dots ends where `run_end` says.
proof fn lemma_run_end(s: Seq<char>, i: int, j: int)
    requires
        0 <= i <= j <= s.len(),
        forall|q: int| i <= q < j ==> is_digit(#[trigger] s[q]) || s[q] == '.',
        j < s.len() ==> !(is_digit(s[j]) || s[j] == '.'),
    ensures
        run_end(s, i) == j,
    decreases j - i,
{
    if i < j {
        lemma_run_end(s, i + 1, j);
    }
}

/// The number tokens of `v`.
fn tokens_exec(v: &Vec<char>) -> (r: Vec<Vec<char>>)
    ensures
        r@.map_values(|t: Vec<char>| t@) == tokens_from(v@, 0),
{
    let mut out: Vec<Vec<char>> = Vec::new();
    let mut i: usize = 0;
    proof {
        assert(out@.map_values(|t: Vec<char>| t@) + tokens_from(v@, 0) =~= tokens_from(v@, 0));
    }
    while i < v.len()
        invariant
            i <= v@.len(),
            out@.map_values(|t: Vec<char>| t@) + tokens_from(v@, i as int) == tokens_from(v@, 0),
        decreases v@.len() - i,
    {
        if '0' <= v[i] && v[i] <= '9' {
            let mut j: usize = i;
            while j < v.len() && (('0' <= v[j] && v[j] <= '9') || v[j] == '.')
                invariant
                    i <= j <= v@.len(),
                    forall|q: int| i <= q < j ==> is_digit(#[trigger] v@[q]) || v@[q] == '.',
                decreases v@.len() - j,
            {
                j += 1;
            }
            proof {
                lemma_run_end(v@, i as int, j as int);
            }
            let tok = crate::tools::keywords::sub_chars(v, i, j);
            let ghost o0 = out@.map_values(|t: Vec<char>| t@);
            out.push(tok);
            proof {
                assert(out@.map_values(|t: Vec<char>| t@) =~= o0.push(tok@));
                assert(o0 + tokens_from(v@, i as int) =~= o0.push(tok@) + tokens_from(v@, j as int));
            }
            i = j;
        } else {
            i += 1;
        }
    }
    proof {
        assert(out@.map_values(|t: Vec<char>| t@) + tokens_from(v@, i as int) =~= out@.map_values(
            |t: Vec<char>| t@,
        ));
    }
    out
}

/// Ten to the `k`.
fn pow10_exec(k: u64) -> (r: u128)
    requires
        k <= 30,
    ensures
        r == pow10(k as nat),
        r <= 1_000_000_000_000_000_000_000_000_000_000u128,
{
    proof {
        reveal_with_fuel(pow10, 31);
        assert(pow10(30) == 1_000_000_000_000_000_000_000_000_000_000);
        lemma_pow10_mono(0, 30);
    }
    let mut r: u128 = 1;
    let mut i: u64 = 0;
    while i < k
        invariant
            i <= k <= 30,
            r == pow10(i as nat),
            pow10(30) == 1_000_000_000_000_000_000_000_000_000_000,
        decreases k - i,
    {
        proof {
            lemma_pow10_mono((i + 1) as nat, 30);
        }
        r = r * 10;
        i += 1;
    }
    proof {
        lemma_pow10_mono(k as nat, 30);
    }
    r
}

/// Powers of ten grow.
proof fn lemma_pow10_mono(a: nat, b: nat)
    requires
        a <= b,
    ensures
        pow10(a) <= pow10(b),
        pow10(a) >= 1,
    decreases b,
{
    if b > a {
        lemma_pow10_mono(a, (b - 1) as nat);
    } else if a > 0 {
        lemma_pow10_mono((a - 1) as nat, (a - 1) as nat);
    }
}

/// The number a token reads as (digits, decimals), if usable.
fn parse_number(t: &Vec<char>) -> (r: Option<(u64, u64)>)
    requires
        forall|q: int| 0 <= q < t@.len() ==> is_digit(#[trigger] t@[q]) || t@[q] == '.',
    ensures
        match r {
            Some((n, k)) => usable(t@) && n == digits_value(t@) && k == frac_digits(t@),
            None => !usable(t@),
        },
{
    let limit: u64 = 1_000_000_000_000_000;
    proof {
        reveal_with_fuel(pow10, 16);
        assert(pow10(15) == 1_000_000_000_000_000);
    }
    let mut val: u64 = 0;
    let mut big = false;
    let mut dcount: u64 = 0;
    let mut fr: u64 = 0;
    let mut i: usize = 0;
    proof {
        assert(t@.take(0) =~= Seq::<char>::empty());
    }
    while i < t.len()
        invariant
            i <= t@.len(),
            limit == pow10(15),
            limit == 1_000_000_000_000_000,
            dcount == if dots(t@.take(i as int)) < 2 {
                dots(t@.take(i as int))
            } else {
                2
            },
            big == (digits_value(t@.take(i as int)) >= limit),
            !big ==> val == digits_value(t@.take(i as int)),
            fr == if frac_digits(t@.take(i as int)) < 16 {
                frac_digits(t@.take(i as int))
            } else {
                16
            },
            frac_digits(t@.take(i as int)) > 0 ==> dots(t@.take(i as int)) > 0,
            forall|q: int| 0 <= q < t@.len() ==> is_digit(#[trigger] t@[q]) || t@[q] == '.',
        decreases t@.len() - i,
    {
        let c = t[i];
        proof {
            assert(t@.take(i + 1).drop_last() =~= t@.take(i as int));
            assert(t@.take(i + 1).last() == c);
        }
        if c == '.' {
            if dcount < 2 {
                dcount += 1;
            }
            fr = 0;
        } else {
            if dcount > 0 && fr < 16 {
                fr += 1;
            }
            if !big {
                assert(is_digit(t@[i as int]));
                let d: u64 = (c as u32 - '0' as u32) as u64;
                if val >= 100_000_000_000_000 || val * 10 + d >= limit {
                    big = true;
                } else {
                    val = val * 10 + d;
                }
            }
        }
        i += 1;
    }
    proof {
        assert(t@.take(t@.len() as int) =~= t@);
    }
    if dcount <= 1 && !big && val > 0 && fr <= 15 {
        Some((val, fr))
    } else {
        None
    }
}

/// Every character of every token is a digit or a dot.
proof fn lemma_tokens_chars(s: Seq<char>, i: int)
    ensures
        forall|j: int, q: int|
            0 <= j < tokens_from(s, i).len() && 0 <= q < tokens_from(s, i)[j].len() ==> is_digit(
                #[trigger] tokens_from(s, i)[j][q],
            ) || tokens_from(s, i)[j][q] == '.',
    decreases s.len() - i,
{
    if 0 <= i < s.len() {
        if is_digit(s[i]) {
            let e = run_end(s, i);
            if i < e <= s.len() {
                lemma_tokens_chars(s, e);
                lemma_run_chars(s, i);
                let ts = tokens_from(s, i);
                assert forall|j: int, q: int| 0 <= j < ts.len() && 0 <= q < ts[j].len() implies is_digit(
                    #[trigger] ts[j][q],
                ) || ts[j][q] == '.' by {
                    assert(ts == seq![s.subrange(i, e)] + tokens_from(s, e));
                    if j == 0 {
                        assert(ts[0] == s.subrange(i, e));
                        assert(ts[0][q] == s[i + q]);
                    } else {
                        assert(ts[j] == tokens_from(s, e)[j - 1]);
                        assert(is_digit(tokens_from(s, e)[j - 1][q]) || tokens_from(s, e)[j - 1][q] == '.');
                    }
                }
            }
        } else {
            lemma_tokens_chars(s, i + 1);
            assert(tokens_from(s, i) == tokens_from(s, i + 1));
        }
    }
}

/// A run holds digits and dots only.
proof fn lemma_run_chars(s: Seq<char>, i: int)
    requires
        0 <= i,
    ensures
        forall|q: int| i <= q < run_end(s, i) ==> is_digit(#[trigger] s[q]) || s[q] == '.',
    decreases s.len() - i,
{
    if i < s.len() && (is_digit(s[i]) || s[i] == '.') {
        lemma_run_chars(s, i + 1);
    }
}

/// The usable numbers of `v`.
fn numbers_exec(v: &Vec<char>) -> (r: Vec<(u64, u64)>)
    ensures
        r@.map_values(|p: (u64, u64)| (p.0 as nat, p.1 as nat)) == numbers_of(tokens_from(v@, 0)),
        forall|j: int| 0 <= j < r@.len() ==> (#[trigger] r@[j]).0 < 1_000_000_000_000_000 && r@[j].1 <= 15,
{
    let toks = tokens_exec(v);
    let ghost tv = toks@.map_values(|t: Vec<char>| t@);
    proof {
        lemma_tokens_chars(v@, 0);
        reveal_with_fuel(pow10, 16);
    }
    let mut out: Vec<(u64, u64)> = Vec::new();
    let mut i: usize = 0;
    while i < toks.len()
        invariant
            i <= toks@.len(),
            tv == toks@.map_values(|t: Vec<char>| t@),
            tv == tokens_from(v@, 0),
            pow10(15) == 1_000_000_000_000_000,
            forall|j: int, q: int| 0 <= j < tv.len() && 0 <= q < tv[j].len() ==> is_digit(#[trigger] tv[j][q])
                || tv[j][q] == '.',
            out@.map_values(|p: (u64, u64)| (p.0 as nat, p.1 as nat)) == numbers_of(tv.take(i as int)),
            forall|j: int| 0 <= j < out@.len() ==> (#[trigger] out@[j]).0 < 1_000_000_000_000_000 && out@[j].1 <= 15,
        decreases toks@.len() - i,
    {
        proof {
            assert(tv.take(i + 1).drop_last() =~= tv.take(i as int));
            assert(tv.take(i + 1).last() == toks@[i as int]@);
            assert forall|q: int| 0 <= q < toks@[i as int]@.len() implies is_digit(#[trigger] toks@[i as int]@[q])
                || toks@[i as int]@[q] == '.' by {
                assert(tv[i as int][q] == toks@[i as int]@[q]);
            }
        }
        match parse_number(&toks[i]) {
            Some(p) => {
                let ghost o0 = out@.map_values(|p: (u64, u64)| (p.0 as nat, p.1 as nat));
                out.push(p);
                proof {
                    assert(out@.map_values(|p: (u64, u64)| (p.0 as nat, p.1 as nat)) =~= o0.push(
                        (p.0 as nat, p.1 as nat),
                    ));
                }
            },
            None => {},
        }
        i += 1;
    }
    proof {
        assert(tv.take(toks@.len() as int) =~= tv);
    }
    out
}

/// Whether two numbers differ.
fn differs_exec(a: (u64, u64), b: (u64, u64)) -> (r: bool)
    requires
        a.0 < 1_000_000_000_000_000 && a.1 <= 15,
        b.0 < 1_000_000_000_000_000 && b.1 <= 15,
    ensures
        r == differs((a.0 as nat, a.1 as nat), (b.0 as nat, b.1 as nat)),
{
    let pa = pow10_exec(a.1);
    let pb = pow10_exec(b.1);
    let po = pow10_exec(a.1 + b.1);
    proof {
        lemma_pow10_mono(a.1 as nat, 15);
        lemma_pow10_mono(b.1 as nat, 15);
        reveal_with_fuel(pow10, 16);
    }
    let a0 = a.0 as u128;
    let b0 = b.0 as u128;
    assert(pb <= 1_000_000_000_000_000 && pa <= 1_000_000_000_000_000);
    assert(a0 * pb <= 1_000_000_000_000_000_000_000_000_000_000u128) by (nonlinear_arith)
        requires
            a0 < 1_000_000_000_000_000,
            pb <= 1_000_000_000_000_000,
    ;
    assert(b0 * pa <= 1_000_000_000_000_000_000_000_000_000_000u128) by (nonlinear_arith)
        requires
            b0 < 1_000_000_000_000_000,
            pa <= 1_000_000_000_000_000,
    ;
    let x = a0 * pb;
    let y = b0 * pa;
    (x > y + po || y > x + po) && x < 100 * y && y < 100 * x
}

/// The last `k` decimal digits of `x`, with leading zeros.
fn padded_exec(x: u64, k: u64) -> (r: Vec<char>)
    ensures
        r@ == padded(x as nat, k as nat),
    decreases k,
{
    if k == 0 {
        Vec::new()
    } else {
        let mut r = padded_exec(x / 10, k - 1);
        let d = x % 10;
        let c = if d == 0 {
            '0'
        } else if d == 1 {
            '1'
        } else if d == 2 {
            '2'
        } else if d == 3 {
            '3'
        } else if d == 4 {
            '4'
        } else if d == 5 {
            '5'
        } else if d == 6 {
            '6'
        } else if d == 7 {
            '7'
        } else if d == 8 {
            '8'
        } else {
            '9'
        };
        r.push(c);
        r
    }
}

/// A number as `f64` formats it.
fn number_text_exec(n: u64, k: u64) -> (r: String)
    requires
        k <= 15,
    ensures
        r@ == number_text(n as nat, k as nat),
{
    let p = pow10_exec(k);
    proof {
        lemma_pow10_mono(k as nat, 15);
        reveal_with_fuel(pow10, 16);
    }
    let p64 = p as u64;
    let ip = n / p64;
    let fp = n % p64;
    let mut frac = padded_exec(fp, k);
    let ghost f0 = frac@;
    while frac.len() > 0 && frac[frac.len() - 1] == '0'
        invariant
            strip_zeros(frac@) == strip_zeros(f0),
        decreases frac@.len(),
    {
        let ghost before = frac@;
        frac.pop();
        proof {
            assert(frac@ == before.drop_last());
        }
    }
    let mut s = decimal_string(ip);
    if frac.len() > 0 {
        push_str(&mut s, ".");
        let fs = crate::text::string_from_chars(frac.as_slice());
        push_str(&mut s, fs.as_str());
    }
    proof {
        assert(strip_zeros(frac@) == frac@);
    }
    s
}

/// The first pair of differing numbers.
fn first_differing_exec(xs: &Vec<(u64, u64)>, ys: &Vec<(u64, u64)>) -> (r: Option<((u64, u64), (u64, u64))>)
    requires
        forall|j: int| 0 <= j < xs@.len() ==> (#[trigger] xs@[j]).0 < 1_000_000_000_000_000 && xs@[j].1 <= 15,
        forall|j: int| 0 <= j < ys@.len() ==> (#[trigger] ys@[j]).0 < 1_000_000_000_000_000 && ys@[j].1 <= 15,
    ensures
        ({
            let xv = xs@.map_values(|p: (u64, u64)| (p.0 as nat, p.1 as nat));
            let yv = ys@.map_values(|p: (u64, u64)| (p.0 as nat, p.1 as nat));
            match r {
                Some((a, b)) => first_differing(xv, yv) == Some(((a.0 as nat, a.1 as nat), (b.0 as nat, b.1 as nat)))
                    && a.0 < 1_000_000_000_000_000 && a.1 <= 15 && b.0 < 1_000_000_000_000_000 && b.1 <= 15,
                None => first_differing(xv, yv) is None,
            }
        }),
{
    let ghost xv = xs@.map_values(|p: (u64, u64)| (p.0 as nat, p.1 as nat));
    let ghost yv = ys@.map_values(|p: (u64, u64)| (p.0 as nat, p.1 as nat));
    let mut i: usize = 0;
    while i < xs.len()
        invariant
            i <= xs@.len(),
            xv == xs@.map_values(|p: (u64, u64)| (p.0 as nat, p.1 as nat)),
            yv == ys@.map_values(|p: (u64, u64)| (p.0 as nat, p.1 as nat)),
            forall|j: int| 0 <= j < xs@.len() ==> (#[trigger] xs@[j]).0 < 1_000_000_000_000_000 && xs@[j].1 <= 15,
            forall|j: int| 0 <= j < ys@.len() ==> (#[trigger] ys@[j]).0 < 1_000_000_000_000_000 && ys@[j].1 <= 15,
            first_differing(xv.take(i as int), yv) is None,
        decreases xs@.len() - i,
    {
        proof {
            assert(xv.take(i + 1).drop_last() =~= xv.take(i as int));
            assert(xv.take(i + 1).last() == xv[i as int]);
        }
        let x = xs[i];
        let mut j: usize = 0;
        while j < ys.len()
            invariant
                j <= ys@.len(),
                yv == ys@.map_values(|p: (u64, u64)| (p.0 as nat, p.1 as nat)),
                forall|q: int| 0 <= q < ys@.len() ==> (#[trigger] ys@[q]).0 < 1_000_000_000_000_000 && ys@[q].1 <= 15,
                x.0 < 1_000_000_000_000_000 && x.1 <= 15,
                i < xs@.len(),
                x == xs@[i as int],
                xv == xs@.map_values(|p: (u64, u64)| (p.0 as nat, p.1 as nat)),
                first_differing(xv.take(i as int), yv) is None,
                xv.take(i + 1).drop_last() == xv.take(i as int),
                xv.take(i + 1).last() == xv[i as int],
                first_partner((x.0 as nat, x.1 as nat), yv.take(j as int)) is None,
            decreases ys@.len() - j,
        {
            proof {
                assert(yv.take(j + 1).drop_last() =~= yv.take(j as int));
                assert(yv.take(j + 1).last() == yv[j as int]);
            }
            let y = ys[j];
            if differs_exec(x, y) {
                proof {
                    lemma_partner_prefix((x.0 as nat, x.1 as nat), yv, j + 1);
                    assert(xv[i as int] == (x.0 as nat, x.1 as nat));
                    lemma_differing_prefix(xv, yv, i + 1);
                }
                return Some((x, y));
            }
            j += 1;
        }
        proof {
            assert(yv.take(ys@.len() as int) =~= yv);
            assert(xv[i as int] == (x.0 as nat, x.1 as nat));
        }
        i += 1;
    }
    proof {
        assert(xv.take(xs@.len() as int) =~= xv);
    }
    None
}

/// A partner found among the first `n` stays the first one.
proof fn lemma_partner_prefix(x: (nat, nat), ys: Seq<(nat, nat)>, n: int)
    requires
        0 <= n <= ys.len(),
        first_partner(x, ys.take(n)) is Some,
    ensures
        first_partner(x, ys) == first_partner(x, ys.take(n)),
    decreases ys.len() - n,
{
    if n < ys.len() {
        assert(ys.take(n + 1).drop_last() =~= ys.take(n));
        lemma_partner_prefix(x, ys, n + 1);
    } else {
        assert(ys.take(n) =~= ys);
    }
}

/// A pair found among the first `n` numbers stays the first one.
proof fn lemma_differing_prefix(xs: Seq<(nat, nat)>, ys: Seq<(nat, nat)>, n: int)
    requires
        0 <= n <= xs.len(),
        first_differing(xs.take(n), ys) is Some,
    ensures
        first_differing(xs, ys) == first_differing(xs.take(n), ys),
    decreases xs.len() - n,
{
    if n < xs.len() {
        assert(xs.take(n + 1).drop_last() =~= xs.take(n));
        lemma_differing_prefix(xs, ys, n + 1);
    } else {
        assert(xs.take(n) =~= xs);
    }
}

/// The candidates of the chunks of `order` other than `a_id` that
/// contradict chunk `a`.
pub open spec fn candidates_of(
    a_id: Seq<char>,
    a: ChunkView,
    order: Seq<Seq<char>>,
    chunks: Map<Seq<char>, ChunkView>,
) -> Seq<CandidateView>
    decreases order.len(),
{
    if order.len() == 0 {
        Seq::empty()
    } else {
        let prev = candidates_of(a_id, a, order.drop_last(), chunks);
        let id = order.last();
        if id != a_id && chunks.dom().contains(id) {
            match pair_contradiction(a, chunks[id]) {
                Some((t, c, _)) => prev.push(
                    CandidateView {
                        chunk_id: id,
                        section_path: chunks[id].section_path,
                        contradiction_type: kind_name(t),
                        contrast: c,
                        text_preview: take_chars(chunks[id].text, 200),
                    },
                ),
                None => prev,
            }
        } else {
            prev
        }
    }
}

impl SearchContradictionTool {
    /// A tool over the given chunks and document order.
    pub fn new(chunks: StrMap<Chunk>, chunk_order: Vec<String>) -> (r: Self)
        ensures
            r.chunks == chunks,
            r.chunk_order == chunk_order,
    {
        SearchContradictionTool { chunks, chunk_order }
    }

    /// The tool's name.
    pub fn name(&self) -> (r: &'static str)
        ensures
            r@ == "search_contradiction"@,
    {
        "search_contradiction"
    }

    /// The hidden-upgrade finding of texts `a` and `b`.
    pub fn check_implicit_upgrade(a: &str, b: &str) -> (r: Option<String>)
        ensures
            r.deep_view() == implicit_upgrade(a@, b@),
    {
        let av = chars_of(a);
        let bv = chars_of(b);
        let qw = word_list(&["资质", "等级", "资格", "门槛"]);
        let sw = word_list(&["加分", "评分", "优先", "额外"]);
        proof {
            assert(strs(qw@) =~= qual_words());
            assert(strs(sw@) =~= score_words());
        }
        if any_keyword(&av, &qw) && any_keyword(&bv, &sw) {
            match (level_exec(a), level_exec(b)) {
                (Some(la), Some(lb)) => {
                    if la > lb {
                        let mut t = to_owned_string("隐性升级：条款 A 接受低资质（第");
                        push_str(&mut t, decimal_string(la).as_str());
                        push_str(&mut t, "级），但条款 B 给高资质（第");
                        push_str(&mut t, decimal_string(lb).as_str());
                        push_str(&mut t, "级）额外加分——形成事实上的资质升级");
                        return Some(t);
                    }
                },
                _ => {},
            }
            Some(to_owned_string("可能存在隐性升级：一个条款设定了资格门槛，另一个条款在评分中给超出门槛的条件额外加分"))
        } else {
            None
        }
    }

    /// The logical-conflict finding of texts `a` and `b`.
    pub fn check_logic_conflict(a: &str, b: &str) -> (r: Option<String>)
        ensures
            r.deep_view() == logic_conflict_in(a@, b@, conflict_pairs()),
    {
        match logic_conflict_exec(a, b) {
            Some(d) => Some(to_owned_string(d)),
            None => None,
        }
    }

    /// The differing-figures finding of texts `a` and `b`.
    pub fn check_data_inconsistency(a: &str, b: &str) -> (r: Option<String>)
        ensures
            r.deep_view() == data_inconsistency(a@, b@),
    {
        let av = chars_of(a);
        let bv = chars_of(b);
        if !shared_context_exec(&av, &bv) {
            return None;
        }
        let na = numbers_exec(&av);
        let nb = numbers_exec(&bv);
        match first_differing_exec(&na, &nb) {
            Some((x, y)) => {
                let mut t = to_owned_string("数据不一致：相同上下文中的数值差异。A=");
                push_str(&mut t, number_text_exec(x.0, x.1).as_str());
                push_str(&mut t, ", B=");
                push_str(&mut t, number_text_exec(y.0, y.1).as_str());
                Some(t)
            },
            None => None,
        }
    }

    /// The dangling-reference finding of texts `a` and `b`.
    pub fn check_dangling_reference(a: &str, b: &str) -> (r: Option<String>)
        ensures
            r.deep_view() == dangling_reference(a@, b@),
    {
        match dangling_word_exec(a, b) {
            Some(w) => {
                let mut t = to_owned_string("可能的悬空引用：条款 A 包含'");
                push_str(&mut t, w);
                push_str(&mut t, "'引用，但关联条款中未找到对应内容");
                Some(t)
            },
            None => None,
        }
    }

    /// The contradiction between two chunks, as `pair_contradiction` says.
    pub fn compare_pair(chunk_a: &Chunk, chunk_b: &Chunk) -> (r: Option<(ContradictionType, String, Option<String>)>)
        ensures
            match pair_contradiction(chunk_a.deep_view(), chunk_b.deep_view()) {
                Some((t, c, l)) => r matches Some(x) && x.0 == t && x.1@ == c && x.2.deep_view() == l,
                None => r is None,
            },
    {
        let la = to_lowercase(chunk_a.text.as_str());
        let lb = to_lowercase(chunk_b.text.as_str());
        let a = la.as_str();
        let b = lb.as_str();
        match Self::check_implicit_upgrade(a, b) {
            Some(c) => {
                return Some(
                    (
                        ContradictionType::ImplicitUpgrade,
                        c,
                        Some(to_owned_string("《政府采购法实施条例》第20条：不得以不合理条件对供应商实行差别待遇或者歧视待遇")),
                    ),
                );
            },
            None => {},
        }
        match Self::check_logic_conflict(a, b) {
            Some(c) => {
                return Some((ContradictionType::LogicConflict, c, None));
            },
            None => {},
        }
        match Self::check_data_inconsistency(a, b) {
            Some(c) => {
                return Some((ContradictionType::DataInconsistency, c, None));
            },
            None => {},
        }
        match Self::check_dangling_reference(a, b) {
            Some(c) => Some((ContradictionType::DanglingReference, c, None)),
            None => None,
        }
    }

    /// The chunks (other than `clause_a_id`, in document order) that
    /// contradict it, at most 10; none when it is not a chunk.
    pub fn find_candidates(&self, clause_a_id: &str) -> (r: Vec<ContradictionCandidate>)
        requires
            self.chunks.wf(),
        ensures
            !self.chunks.deep_view().dom().contains(clause_a_id@) ==> r@.len() == 0,
            self.chunks.deep_view().dom().contains(clause_a_id@) ==> r.deep_view() == crate::tools::detect_boilerplate::at_most(
                candidates_of(
                    clause_a_id@,
                    self.chunks.deep_view()[clause_a_id@],
                    self.chunk_order.deep_view(),
                    self.chunks.deep_view(),
                ),
                10,
            ),
    {
        let mut out: Vec<ContradictionCandidate> = Vec::new();
        let a = match self.chunks.get(clause_a_id) {
            Some(c) => c,
            None => {
                return out;
            },
        };
        let ghost ov = self.chunk_order.deep_view();
        let ghost cv = self.chunks.deep_view();
        let mut i: usize = 0;
        while i < self.chunk_order.len()
            invariant
                i <= self.chunk_order@.len(),
                self.chunks.wf(),
                ov == self.chunk_order.deep_view(),
                cv == self.chunks.deep_view(),
                cv.dom().contains(clause_a_id@),
                a.deep_view() == cv[clause_a_id@],
                out.deep_view() == candidates_of(clause_a_id@, a.deep_view(), ov.take(i as int), cv),
            decreases self.chunk_order@.len() - i,
        {
            proof {
                assert(ov.take(i + 1).drop_last() =~= ov.take(i as int));
                assert(ov.take(i + 1).last() == self.chunk_order@[i as int]@);
            }
            let other = &self.chunk_order[i];
            if !str_eq(other.as_str(), clause_a_id) {
                match self.chunks.get(other.as_str()) {
                    Some(b) => {
                        proof {
                            assert(cv[other@] == b.deep_view());
                        }
                        match Self::compare_pair(a, b) {
                            Some((t, c, _l)) => {
                                let cand = ContradictionCandidate {
                                    chunk_id: other.clone(),
                                    section_path: b.section_path.dup(),
                                    contradiction_type: to_owned_string(t.as_str()),
                                    contrast: c,
                                    text_preview: take_prefix(b.text.as_str(), 200),
                                };
                                let ghost o0 = out.deep_view();
                                out.push(cand);
                                proof {
                                    assert(out.deep_view() =~= o0.push(cand.deep_view()));
                                }
                            },
                            None => {},
                        }
                    },
                    None => {},
                }
            }
            i += 1;
        }
        proof {
            assert(ov.take(self.chunk_order@.len() as int) =~= ov);
        }
        out.truncate(10);
        proof {
            assert(out.deep_view() =~= crate::tools::detect_boilerplate::at_most(
                candidates_of(clause_a_id@, a.deep_view(), ov, cv),
                10,
            ));
        }
        out
    }
}

impl SearchContradictionTool {
    /// What `execute` answers for `args`: the refusal of an unknown chunk,
    /// the comparison of the two clauses, or the search over the document.
    pub open spec fn answers(&self, args: &SearchContradictionArgs, r: Result<ContradictionResult, String>) -> bool {
        let cv = self.chunks.deep_view();
        let a = args.clause_a@;
        if !cv.dom().contains(a) {
            r is Err && r->Err_0@ == "chunk_id 不存在: "@ + a
        } else {
            match args.clause_b {
                Some(b) => if !cv.dom().contains(b@) {
                    r is Err && r->Err_0@ == "chunk_id 不存在: "@ + b@
                } else {
                    r matches Ok(res) && res.clause_pair.0@ == a && res.clause_pair.1.deep_view() == Some(b@)
                        && res.severity@ == "medium"@ && res.candidates@.len() == 0 && match pair_contradiction(
                        cv[a],
                        cv[b@],
                    ) {
                        Some((t, c, l)) => res.contradiction_type == t && res.contrast@ == c
                            && res.legal_basis.deep_view() == l,
                        None => res.contradiction_type == ContradictionType::NoContradiction
                            && res.contrast@ == "未发现明显矛盾"@ && res.legal_basis is None,
                    }
                },
                None => {
                    let cands = crate::tools::detect_boilerplate::at_most(
                        candidates_of(a, cv[a], self.chunk_order.deep_view(), cv),
                        10,
                    );
                    r matches Ok(res) && res.clause_pair.0@ == a && res.candidates.deep_view() == cands
                        && res.legal_basis is None && if cands.len() == 0 {
                        &&& res.contradiction_type == ContradictionType::NoContradiction
                        &&& res.contrast@ == "未发现与其他条款的明显矛盾"@
                        &&& res.severity@ == "info"@
                        &&& res.clause_pair.1 is None
                    } else {
                        &&& res.contradiction_type == type_of_name(cands[0].contradiction_type)
                        &&& res.contrast@ == cands[0].contrast
                        &&& res.severity@ == "medium"@
                        &&& res.clause_pair.1.deep_view() == Some(cands[0].chunk_id)
                    }
                },
            }
        }
    }

    /// Compares `args.clause_a` with `args.clause_b`, or, without a second
    /// clause, searches the document for clauses that contradict it
    /// (taking the first as the main finding). Refuses an unknown chunk.
    pub fn execute(&self, args: &SearchContradictionArgs) -> (r: Result<ContradictionResult, String>)
        requires
            self.chunks.wf(),
        ensures
            self.answers(args, r),
    {
        let a = match self.chunks.get(args.clause_a.as_str()) {
            Some(c) => c,
            None => {
                let mut e = to_owned_string("chunk_id 不存在: ");
                push_str(&mut e, args.clause_a.as_str());
                return Err(e);
            },
        };
        match &args.clause_b {
            Some(bid) => {
                let b = match self.chunks.get(bid.as_str()) {
                    Some(c) => c,
                    None => {
                        let mut e = to_owned_string("chunk_id 不存在: ");
                        push_str(&mut e, bid.as_str());
                        return Err(e);
                    },
                };
                let (t, c, l) = match Self::compare_pair(a, b) {
                    Some(x) => x,
                    None => (ContradictionType::NoContradiction, to_owned_string("未发现明显矛盾"), None),
                };
                Ok(
                    ContradictionResult {
                        contradiction_type: t,
                        clause_pair: (args.clause_a.clone(), Some(bid.clone())),
                        contrast: c,
                        severity: to_owned_string("medium"),
                        legal_basis: l,
                        candidates: Vec::new(),
                    },
                )
            },
            None => {
                let cands = self.find_candidates(args.clause_a.as_str());
                if cands.len() == 0 {
                    Ok(
                        ContradictionResult {
                            contradiction_type: ContradictionType::NoContradiction,
                            clause_pair: (args.clause_a.clone(), None),
                            contrast: to_owned_string("未发现与其他条款的明显矛盾"),
                            severity: to_owned_string("info"),
                            legal_basis: None,
                            candidates: cands,
                        },
                    )
                } else {
                    let t = ContradictionType::from_str(cands[0].contradiction_type.as_str());
                    let c = cands[0].contrast.clone();
                    let first = cands[0].chunk_id.clone();
                    Ok(
                        ContradictionResult {
                            contradiction_type: t,
                            clause_pair: (args.clause_a.clone(), Some(first)),
                            contrast: c,
                            severity: to_owned_string("medium"),
                            legal_basis: None,
                            candidates: cands,
                        },
                    )
                }
            },
        }
    }

    /// `execute`, recording in the session graph, where a contradiction was
    /// found, the edge between the two clauses with the contrast.
    pub fn execute_recorded(&self, args: &SearchContradictionArgs, graph: &mut SessionGraph) -> (r: Result<
        ContradictionResult,
        String,
    >)
        requires
            self.chunks.wf(),
            old(graph).wf(),
        ensures
            final(graph).wf(),
            self.answers(args, r),
            match r {
                Ok(res) => if res.contradiction_type != ContradictionType::NoContradiction && res.clause_pair.1 is Some {
                    final(graph).graph().contradicts.deep_view() == contradicts_after(
                        old(graph).graph().contradicts.deep_view(),
                        res.clause_pair.0@,
                        res.clause_pair.1->Some_0@,
                        res.contrast@,
                    )
                } else {
                    *final(graph) == *old(graph)
                },
                Err(_) => *final(graph) == *old(graph),
            },
    {
        let r = self.execute(args);
        match &r {
            Ok(res) => {
                if res.contradiction_type != ContradictionType::NoContradiction {
                    match &res.clause_pair.1 {
                        Some(b) => {
                            graph.add_contradicts(res.clause_pair.0.as_str(), b.as_str(), res.contrast.as_str());
                        },
                        None => {},
                    }
                }
            },
            Err(_) => {},
        }
        r
    }
}

} // verus!
