//! `detect_boilerplate`: finds what copying from old templates leaves in a
//! tender document: references to targets that do not exist, place names
//! that occur only once, and stub sections.
use vstd::prelude::*;

use crate::chunk::{Chunk, ChunkView};
use crate::dup::Dup;
use crate::strmap::StrMap;
use crate::text::{
    alphanumeric, byte_len, char_count, chars_of, contains_chars, contains_seq, decimal, decimal_string,
    is_alphanumeric, is_white, is_whitespace, push_str, str_contains, str_eq, string_from_chars, take_chars,
    take_prefix, to_owned_string, trim_seq, trim_string, utf8_len,
};
use crate::tools::keywords::{
    any_hit, any_keyword, byte_at, find_at_or_after, first_from, join_seq, join_strings, occurs_from, strs,
    sub_chars,
};

verus! {

/// The arguments of the tool.
pub struct DetectBoilerplateArgs {
    /// The chunks to scan for references (empty: the whole document).
    pub chunk_ids: Vec<String>,
}

/// A reference whose target does not exist.
pub struct DanglingRef {
    pub chunk_id: String,
    pub section_path: Vec<String>,
    pub expression: String,
    pub ref_type: String,
    pub detail: String,
}

/// A place name that occurs once in the whole document.
pub struct AnomalousEntity {
    pub chunk_id: String,
    pub section_path: Vec<String>,
    pub entity_type: String,
    pub entity_text: String,
    pub reason: String,
}

/// A stub section.
pub struct SuperfluousSection {
    pub chunk_id: String,
    pub section_path: Vec<String>,
    /// "empty_shell" or "not_applicable_stub".
    pub issue: String,
    pub detail: String,
}

/// Counts of the findings.
pub struct BoilerplateStats {
    pub dangling_count: usize,
    pub anomalous_count: usize,
    pub superfluous_count: usize,
}

/// The findings of a scan.
pub struct BoilerplateResult {
    pub dangling_refs: Vec<DanglingRef>,
    pub anomalous_entities: Vec<AnomalousEntity>,
    pub superfluous_sections: Vec<SuperfluousSection>,
    pub stats: BoilerplateStats,
    pub summary: String,
}

/// The tool: every chunk by id, and the ids in document order.
pub struct DetectBoilerplateTool {
    pub chunks: StrMap<Chunk>,
    pub chunk_order: Vec<String>,
}

/// The content of a finding: chunk, headings, and three texts.
pub ghost struct FindingText {
    pub chunk_id: Seq<char>,
    pub section_path: Seq<Seq<char>>,
    pub a: Seq<char>,
    pub b: Seq<char>,
    pub c: Seq<char>,
}

impl DeepView for DanglingRef {
    type V = FindingText;

    open spec fn deep_view(&self) -> FindingText {
        FindingText {
            chunk_id: self.chunk_id@,
            section_path: self.section_path.deep_view(),
            a: self.expression@,
            b: self.ref_type@,
            c: self.detail@,
        }
    }
}

impl DeepView for AnomalousEntity {
    type V = FindingText;

    open spec fn deep_view(&self) -> FindingText {
        FindingText {
            chunk_id: self.chunk_id@,
            section_path: self.section_path.deep_view(),
            a: self.entity_type@,
            b: self.entity_text@,
            c: self.reason@,
        }
    }
}

impl DeepView for SuperfluousSection {
    type V = FindingText;

    open spec fn deep_view(&self) -> FindingText {
        FindingText {
            chunk_id: self.chunk_id@,
            section_path: self.section_path.deep_view(),
            a: self.issue@,
            b: self.detail@,
            c: Seq::empty(),
        }
    }
}

/// The reference words, longer ones first, with the kind of target each
/// names.
#[verifier::opaque]
pub open spec fn reference_patterns() -> Seq<(Seq<char>, Seq<char>)> {
    seq![
        ("详见附件"@, "attachment"@),
        ("参照附件"@, "attachment"@),
        ("详见附录"@, "appendix"@),
        ("详见下表"@, "table"@),
        ("详见第"@, "section"@),
        ("见附件"@, "attachment"@),
        ("如附件"@, "attachment"@),
        ("见附录"@, "appendix"@),
        ("见下表"@, "table"@),
        ("参照第"@, "section"@),
        ("见上图"@, "figure"@),
        ("如下图"@, "figure"@),
        ("如下表"@, "table"@),
        ("按第"@, "section"@),
        ("见第"@, "section"@),
    ]
}

fn reference_pattern_list() -> (r: Vec<(&'static str, &'static str)>)
    ensures
        r@.map_values(|p: (&str, &str)| (p.0@, p.1@)) == reference_patterns(),
{
    let mut v: Vec<(&'static str, &'static str)> = Vec::new();
    v.push(("详见附件", "attachment"));
    v.push(("参照附件", "attachment"));
    v.push(("详见附录", "appendix"));
    v.push(("详见下表", "table"));
    v.push(("详见第", "section"));
    v.push(("见附件", "attachment"));
    v.push(("如附件", "attachment"));
    v.push(("见附录", "appendix"));
    v.push(("见下表", "table"));
    v.push(("参照第", "section"));
    v.push(("见上图", "figure"));
    v.push(("如下图", "figure"));
    v.push(("如下表", "table"));
    v.push(("按第", "section"));
    v.push(("见第", "section"));
    proof {
        reveal(reference_patterns);
    }
    assert(v@.map_values(|p: (&str, &str)| (p.0@, p.1@)) =~= reference_patterns());
    v
}

/// A character that ends the target of a reference.
pub open spec fn ref_stop(c: char) -> bool {
    c == '，' || c == ',' || c == '。' || c == '；' || c == ';' || c == '、' || c == '\n' || c == ' ' || c == '\t'
        || c == '）' || c == ')' || c == '】'
}

/// The characters of `s` before the first one that ends a target.
#[verifier::opaque]
pub open spec fn take_target(s: Seq<char>) -> Seq<char>
    decreases s.len(),
{
    if s.len() == 0 || ref_stop(s[0]) {
        Seq::empty()
    } else {
        seq![s[0]] + take_target(s.drop_first())
    }
}

/// The targets named after the reference word `p` in `t`, scanning from
/// character `i`: each occurrence of `p` gives the text up to a stop
/// character, and the scan goes on after it. `None` where that text is
/// shorter than two bytes (the scan would then resume inside the
/// reference word, which starts with a character of several bytes).
pub open spec fn scan_targets(t: Seq<char>, p: Seq<char>, i: int) -> Option<Seq<Seq<char>>>
    decreases t.len() - i,
{
    if p.len() == 0 || i < 0 || i > t.len() || !occurs_from(t, p, i) {
        Some(Seq::empty())
    } else {
        let a = first_from(t, p, i);
        if a < i || a + p.len() > t.len() {
            Some(Seq::empty())
        } else {
            let tg = take_target(t.skip(a + p.len()));
            if byte_len(tg) >= 2 {
                let next = a + p.len() + tg.len();
                if next >= t.len() {
                    Some(seq![tg])
                } else {
                    match scan_targets(t, p, next) {
                        Some(rest) => Some(seq![tg] + rest),
                        None => None,
                    }
                }
            } else {
                None
            }
        }
    }
}

/// One step of `scan_targets`.
proof fn lemma_scan_unfold(t: Seq<char>, p: Seq<char>, i: int)
    ensures
        scan_targets(t, p, i) == if p.len() == 0 || i < 0 || i > t.len() || !occurs_from(t, p, i) {
            Some(Seq::empty())
        } else {
            let a = first_from(t, p, i);
            if a < i || a + p.len() > t.len() {
                Some(Seq::empty())
            } else {
                let tg = take_target(t.skip(a + p.len()));
                if byte_len(tg) >= 2 {
                    let next = a + p.len() + tg.len();
                    if next >= t.len() {
                        Some(seq![tg])
                    } else {
                        match scan_targets(t, p, next) {
                            Some(rest) => Some(seq![tg] + rest),
                            None => None,
                        }
                    }
                } else {
                    None
                }
            }
        },
{
    reveal(scan_targets);
}

/// The references of `t` for the patterns of `ps`, pattern by pattern, or
/// `None` where a scan would resume inside a character.
pub open spec fn references_of(t: Seq<char>, ps: Seq<(Seq<char>, Seq<char>)>) -> Option<Seq<(Seq<char>, Seq<char>)>>
    decreases ps.len(),
{
    if ps.len() == 0 {
        Some(Seq::empty())
    } else {
        match references_of(t, ps.drop_last()) {
            None => None,
            Some(prev) => match scan_targets(t, ps.last().0, 0) {
                None => None,
                Some(ts) => Some(prev + ts.map_values(|x: Seq<char>| (x, ps.last().1))),
            },
        }
    }
}

/// The target of a reference from character `j` of `t`.
fn target_from(t: &Vec<char>, j: usize) -> (r: Vec<char>)
    requires
        j <= t@.len(),
    ensures
        r@ == take_target(t@.skip(j as int)),
        j + r@.len() <= t@.len(),
{
    let mut k: usize = j;
    while k < t.len() && !(t[k] == '，' || t[k] == ',' || t[k] == '。' || t[k] == '；' || t[k] == ';' || t[k] == '、'
        || t[k] == '\n' || t[k] == ' ' || t[k] == '\t' || t[k] == '）' || t[k] == ')' || t[k] == '】')
        invariant
            j <= k <= t@.len(),
            forall|q: int| j <= q < k ==> !ref_stop(#[trigger] t@[q]),
        decreases t@.len() - k,
    {
        k += 1;
    }
    proof {
        lemma_take_target(t@.skip(j as int), k - j);
    }
    sub_chars(t, j, k)
}

/// The target is the prefix before the first stop character.
proof fn lemma_take_target(s: Seq<char>, n: int)
    requires
        0 <= n <= s.len(),
        forall|q: int| 0 <= q < n ==> !ref_stop(#[trigger] s[q]),
        n < s.len() ==> ref_stop(s[n]),
    ensures
        take_target(s) == s.take(n),
    decreases s.len(),
{
    reveal(take_target);
    if n > 0 {
        assert forall|q: int| 0 <= q < n - 1 implies !ref_stop(#[trigger] s.drop_first()[q]) by {
            assert(s.drop_first()[q] == s[q + 1]);
        }
        lemma_take_target(s.drop_first(), n - 1);
        assert(seq![s[0]] + s.drop_first().take(n - 1) =~= s.take(n));
    } else {
        assert(s.take(0) =~= Seq::<char>::empty());
    }
}

/// Bytes of `v` in UTF-8 (exact).
fn bytes_of(v: &Vec<char>) -> (r: u128)
    ensures
        r == byte_len(v@),
{
    let offs = crate::tools::keywords::byte_offsets(v);
    proof {
        assert(v@.take(v@.len() as int) =~= v@);
    }
    offs[v.len()]
}

/// The next occurrence of the reference word `pc` at or after `start`,
/// with its target.
fn next_target(t: &Vec<char>, pc: &Vec<char>, start: usize) -> (r: Option<(usize, Vec<char>)>)
    requires
        pc@.len() > 0,
        start <= t@.len(),
    ensures
        match r {
            None => !occurs_from(t@, pc@, start as int),
            Some((a, tg)) => {
                &&& occurs_from(t@, pc@, start as int)
                &&& a == first_from(t@, pc@, start as int)
                &&& start <= a
                &&& a + pc@.len() <= t@.len()
                &&& tg@ == take_target(t@.skip(a + pc@.len()))
                &&& a + pc@.len() + tg@.len() <= t@.len()
            },
        },
{
    match find_at_or_after(t, pc, start) {
        None => None,
        Some(a) => {
            let tl = t.len();
            let pl = pc.len();
            assert(a + pl <= tl);
            let tg = target_from(t, a + pl);
            Some((a, tg))
        },
    }
}

/// `o` in front of the targets `x`, if there are any.
pub open spec fn prepend(o: Seq<Seq<char>>, x: Option<Seq<Seq<char>>>) -> Option<Seq<Seq<char>>> {
    match x {
        Some(r) => Some(o + r),
        None => None,
    }
}

/// A scan step that finds the reference word at `a` with a target `tg` of
/// at least two bytes.
#[verifier::spinoff_prover]
#[verifier::rlimit(100)]
proof fn lemma_scan_step(t: Seq<char>, p: Seq<char>, start: int, a: int, tg: Seq<char>, o: Seq<Seq<char>>)
    requires
        p.len() > 0,
        0 <= start <= t.len(),
        occurs_from(t, p, start),
        a == first_from(t, p, start),
        start <= a,
        a + p.len() <= t.len(),
        tg == take_target(t.skip(a + p.len())),
        byte_len(tg) >= 2,
    ensures
        a + p.len() + tg.len() >= t.len() ==> prepend(o, scan_targets(t, p, start)) == Some(o.push(tg)),
        a + p.len() + tg.len() < t.len() ==> prepend(o, scan_targets(t, p, start)) == prepend(
            o.push(tg),
            scan_targets(t, p, a + p.len() + tg.len()),
        ),
{
    lemma_scan_unfold(t, p, start);
    let next = a + p.len() + tg.len();
    if next >= t.len() {
        assert(o + seq![tg] =~= o.push(tg));
    } else {
        match scan_targets(t, p, next) {
            Some(rest) => {
                assert(o + (seq![tg] + rest) =~= o.push(tg) + rest);
            },
            None => {},
        }
    }
}

/// The targets after the reference word `p` in `t`.
#[verifier::rlimit(80)]
fn scan_targets_exec(t: &Vec<char>, p: &str) -> (r: Option<Vec<String>>)
    ensures
        match r {
            Some(v) => scan_targets(t@, p@, 0) == Some(v.deep_view()),
            None => scan_targets(t@, p@, 0) is None,
        },
{
    let pc = chars_of(p);
    if pc.len() == 0 {
        proof {
            lemma_scan_unfold(t@, p@, 0);
        }
        return Some(Vec::new());
    }
    let ghost res = scan_targets(t@, p@, 0);
    let mut out: Vec<String> = Vec::new();
    let mut start: usize = 0;
    proof {
        assert(Seq::<Seq<char>>::empty() + Seq::<Seq<char>>::empty() =~= Seq::<Seq<char>>::empty());
        match scan_targets(t@, p@, 0) {
            Some(r0) => {
                assert(Seq::<Seq<char>>::empty() + r0 =~= r0);
            },
            None => {},
        }
    }
    loop
        invariant
            pc@ == p@,
            pc@.len() > 0,
            start <= t@.len(),
            res == scan_targets(t@, p@, 0),
            res == prepend(out.deep_view(), scan_targets(t@, p@, start as int)),
        decreases t@.len() - start,
    {
        match next_target(t, &pc, start) {
            None => {
                proof {
                    lemma_scan_unfold(t@, p@, start as int);
                    assert(out.deep_view() + Seq::<Seq<char>>::empty() =~= out.deep_view());
                }
                return Some(out);
            },
            Some((a, tg)) => {
                let pl = pc.len();
                let tl = t.len();
                let gl = tg.len();
                assert(a + pl + gl <= tl);
                let b = bytes_of(&tg);
                if b >= 2 {
                    let next = a + pl + gl;
                    proof {
                        lemma_scan_step(t@, p@, start as int, a as int, tg@, out.deep_view());
                    }
                    let s = string_from_chars(tg.as_slice());
                    let ghost o0 = out.deep_view();
                    out.push(s);
                    proof {
                        assert(out.deep_view() =~= o0.push(tg@));
                    }
                    if next >= t.len() {
                        return Some(out);
                    }
                    start = next;
                } else {
                    proof {
                        lemma_scan_unfold(t@, p@, start as int);
                    }
                    return None;
                }
            },
        }
    }
}

/// Appends to `acc` the targets of `ts`, each with the kind `kind`.
fn push_refs(acc: &mut Vec<(String, String)>, ts: &Vec<String>, kind: &str)
    ensures
        final(acc).deep_view() == old(acc).deep_view() + ts.deep_view().map_values(|x: Seq<char>| (x, kind@)),
{
    let ghost a0 = acc.deep_view();
    let mut i: usize = 0;
    while i < ts.len()
        invariant
            i <= ts@.len(),
            acc.deep_view() == a0 + ts.deep_view().take(i as int).map_values(|x: Seq<char>| (x, kind@)),
        decreases ts@.len() - i,
    {
        let ghost o0 = acc.deep_view();
        acc.push((ts[i].clone(), to_owned_string(kind)));
        proof {
            assert(acc.deep_view() =~= o0.push((ts@[i as int]@, kind@)));
            assert(ts.deep_view().take(i + 1).map_values(|x: Seq<char>| (x, kind@)) =~= ts.deep_view().take(
                i as int,
            ).map_values(|x: Seq<char>| (x, kind@)).push((ts@[i as int]@, kind@)));
        }
        i += 1;
    }
    proof {
        assert(ts.deep_view().take(ts@.len() as int) =~= ts.deep_view());
    }
}

/// Some chunk of `order` (that the map holds) has headings that, joined
/// with spaces, contain `target`.
pub open spec fn in_paths(order: Seq<Seq<char>>, chunks: Map<Seq<char>, ChunkView>, target: Seq<char>) -> bool {
    exists|i: int|
        0 <= i < order.len() && chunks.dom().contains(#[trigger] order[i]) && contains_seq(
            join_seq(chunks[order[i]].section_path, " "@),
            target,
        )
}

/// Some chunk of `order` has `target` in its first 50 characters.
pub open spec fn in_titles(order: Seq<Seq<char>>, chunks: Map<Seq<char>, ChunkView>, target: Seq<char>) -> bool {
    exists|i: int|
        0 <= i < order.len() && chunks.dom().contains(#[trigger] order[i]) && contains_seq(
            take_chars(chunks[order[i]].text, 50),
            target,
        )
}

/// A character dropped when cleaning: a space, and with `colons` also a
/// colon.
pub open spec fn dropped(c: char, colons: bool) -> bool {
    c == ' ' || (colons && (c == '：' || c == ':'))
}

/// `s` without the dropped characters.
pub open spec fn without(s: Seq<char>, colons: bool) -> Seq<char>
    decreases s.len(),
{
    if s.len() == 0 {
        s
    } else if dropped(s.last(), colons) {
        without(s.drop_last(), colons)
    } else {
        without(s.drop_last(), colons).push(s.last())
    }
}

/// Some chunk of `order` has a first heading that, without spaces,
/// contains `clean`.
pub open spec fn in_first_headings(order: Seq<Seq<char>>, chunks: Map<Seq<char>, ChunkView>, clean: Seq<char>) -> bool {
    exists|i: int|
        0 <= i < order.len() && chunks.dom().contains(#[trigger] order[i]) && chunks[order[i]].section_path.len() > 0
            && contains_seq(without(chunks[order[i]].section_path[0], false), clean)
}

/// The target of a reference is in the document: in some chunk's headings,
/// in some chunk's first 50 characters, or (for an attachment or appendix)
/// without spaces and colons in some chunk's first heading.
pub open spec fn target_present(
    order: Seq<Seq<char>>,
    chunks: Map<Seq<char>, ChunkView>,
    target: Seq<char>,
    rtype: Seq<char>,
) -> bool {
    in_paths(order, chunks, target) || in_titles(order, chunks, target) || ((rtype == "attachment"@ || rtype
        == "appendix"@) && in_first_headings(
        order,
        chunks,
        without(target, true),
    ))
}

/// `s` without the dropped characters.
fn without_exec(s: &str, colons: bool) -> (r: Vec<char>)
    ensures
        r@ == without(s@, colons),
{
    let v = chars_of(s);
    let mut out: Vec<char> = Vec::new();
    let mut i: usize = 0;
    while i < v.len()
        invariant
            i <= v@.len(),
            v@ == s@,
            out@ == without(s@.take(i as int), colons),
        decreases v@.len() - i,
    {
        let c = v[i];
        proof {
            assert(s@.take(i + 1).drop_last() =~= s@.take(i as int));
            assert(s@.take(i + 1).last() == c);
        }
        let drop_it = c == ' ' || (colons && (c == '：' || c == ':'));
        if !drop_it {
            out.push(c);
        }
        i += 1;
    }
    proof {
        assert(s@.take(v@.len() as int) =~= s@);
    }
    out
}

/// A finding text.
pub open spec fn finding(id: Seq<char>, path: Seq<Seq<char>>, a: Seq<char>, b: Seq<char>, c: Seq<char>) -> FindingText {
    FindingText { chunk_id: id, section_path: path, a, b, c }
}

/// The name of a kind of target, in a dangling reference.
pub open spec fn target_kind_name(t: Seq<char>) -> Seq<char> {
    if t == "attachment"@ {
        "附件"@
    } else if t == "appendix"@ {
        "附录"@
    } else if t == "section"@ {
        "章节"@
    } else if t == "table"@ {
        "表格"@
    } else if t == "figure"@ {
        "图片"@
    } else {
        "内容"@
    }
}

fn target_kind_name_exec(t: &str) -> (r: &'static str)
    ensures
        r@ == target_kind_name(t@),
{
    if str_eq(t, "attachment") {
        "附件"
    } else if str_eq(t, "appendix") {
        "附录"
    } else if str_eq(t, "section") {
        "章节"
    } else if str_eq(t, "table") {
        "表格"
    } else if str_eq(t, "figure") {
        "图片"
    } else {
        "内容"
    }
}

impl DetectBoilerplateTool {
    /// A tool over the given chunks and document order.
    pub fn new(chunks: StrMap<Chunk>, chunk_order: Vec<String>) -> (r: Self)
        ensures
            r.chunks == chunks,
            r.chunk_order == chunk_order,
    {
        DetectBoilerplateTool { chunks, chunk_order }
    }

    /// The tool's name.
    pub fn name(&self) -> (r: &'static str)
        ensures
            r@ == "detect_boilerplate"@,
    {
        "detect_boilerplate"
    }

    /// The references of `text` (target, kind), pattern by pattern, or
    /// `None` where a scan would resume inside a character.
    #[verifier::rlimit(80)]
    pub fn references_checked(text: &str) -> (r: Option<Vec<(String, String)>>)
        ensures
            match r {
                Some(v) => references_of(text@, reference_patterns()) == Some(v.deep_view()),
                None => references_of(text@, reference_patterns()) is None,
            },
    {
        let t = chars_of(text);
        let ps = reference_pattern_list();
        let ghost pv = reference_patterns();
        let mut refs: Vec<(String, String)> = Vec::new();
        let mut i: usize = 0;
        while i < ps.len()
            invariant
                i <= ps@.len(),
                t@ == text@,
                ps@.map_values(|p: (&str, &str)| (p.0@, p.1@)) == pv,
                pv == reference_patterns(),
                references_of(text@, pv.take(i as int)) == Some(refs.deep_view()),
            decreases ps@.len() - i,
        {
            proof {
                assert(pv.take(i + 1).drop_last() =~= pv.take(i as int));
                assert(pv.take(i + 1).last() == (ps@[i as int].0@, ps@[i as int].1@));
            }
            let (prefix, kind) = ps[i];
            match scan_targets_exec(&t, prefix) {
                None => {
                    proof {
                        lemma_references_none(text@, pv, i + 1);
                    }
                    return None;
                },
                Some(ts) => {
                    push_refs(&mut refs, &ts, kind);
                },
            }
            i += 1;
        }
        proof {
            assert(pv.take(ps@.len() as int) =~= pv);
        }
        Some(refs)
    }

    /// The references of `text` (target, kind), pattern by pattern.
    pub fn extract_references(text: &str) -> (r: Vec<(String, String)>)
        requires
            references_of(text@, reference_patterns()) is Some,
        ensures
            references_of(text@, reference_patterns()) == Some(r.deep_view()),
    {
        match Self::references_checked(text) {
            Some(v) => v,
            None => Vec::new(),
        }
    }

    /// Whether the target of a reference is in the document, as
    /// `target_present` says.
    pub fn is_target_present(chunks: &StrMap<Chunk>, chunk_order: &[String], target: &str, ref_type: &str) -> (r: bool)
        requires
            chunks.wf(),
        ensures
            r == target_present(chunk_order.deep_view(), chunks.deep_view(), target@, ref_type@),
    {
        let ghost ov = chunk_order.deep_view();
        let ghost cv = chunks.deep_view();
        let mut i: usize = 0;
        while i < chunk_order.len()
            invariant
                i <= chunk_order@.len(),
                chunks.wf(),
                ov == chunk_order.deep_view(),
                cv == chunks.deep_view(),
                forall|q: int| 0 <= q < i ==> !(cv.dom().contains(#[trigger] ov[q]) && contains_seq(
                    join_seq(cv[ov[q]].section_path, " "@),
                    target@,
                )),
            decreases chunk_order@.len() - i,
        {
            match chunks.get(chunk_order[i].as_str()) {
                Some(ch) => {
                    let p = join_strings(&ch.section_path, " ");
                    if str_contains(p.as_str(), target) {
                        proof {
                            assert(ov[i as int] == chunk_order@[i as int]@);
                        }
                        return true;
                    }
                },
                None => {},
            }
            i += 1;
        }
        let mut j: usize = 0;
        while j < chunk_order.len()
            invariant
                j <= chunk_order@.len(),
                chunks.wf(),
                ov == chunk_order.deep_view(),
                cv == chunks.deep_view(),
                !in_paths(ov, cv, target@),
                forall|q: int| 0 <= q < j ==> !(cv.dom().contains(#[trigger] ov[q]) && contains_seq(
                    take_chars(cv[ov[q]].text, 50),
                    target@,
                )),
            decreases chunk_order@.len() - j,
        {
            match chunks.get(chunk_order[j].as_str()) {
                Some(ch) => {
                    let head = take_prefix(ch.text.as_str(), 50);
                    if str_contains(head.as_str(), target) {
                        proof {
                            assert(ov[j as int] == chunk_order@[j as int]@);
                        }
                        return true;
                    }
                },
                None => {},
            }
            j += 1;
        }
        if str_eq(ref_type, "attachment") || str_eq(ref_type, "appendix") {
            let clean = without_exec(target, true);
            let mut k: usize = 0;
            while k < chunk_order.len()
                invariant
                    k <= chunk_order@.len(),
                    chunks.wf(),
                    ov == chunk_order.deep_view(),
                    cv == chunks.deep_view(),
                    clean@ == without(target@, true),
                    ref_type@ == "attachment"@ || ref_type@ == "appendix"@,
                    forall|q: int| 0 <= q < k ==> !(cv.dom().contains(#[trigger] ov[q]) && cv[ov[q]].section_path.len()
                        > 0 && contains_seq(without(cv[ov[q]].section_path[0], false), clean@)),
                decreases chunk_order@.len() - k,
            {
                match chunks.get(chunk_order[k].as_str()) {
                    Some(ch) => {
                        if ch.section_path.len() > 0 {
                            let first = without_exec(ch.section_path[0].as_str(), false);
                            if contains_chars(&first, &clean) {
                                proof {
                                    assert(ov[k as int] == chunk_order@[k as int]@);
                                    assert(cv[ov[k as int]] == ch.deep_view());
                                    assert(cv[ov[k as int]].section_path[0] == ch.section_path@[0]@);
                                    assert(in_first_headings(ov, cv, clean@));
                                }
                                return true;
                            }
                        }
                    },
                    None => {},
                }
                k += 1;
            }
        }
        false
    }
}

/// A missing scan is missing whatever patterns follow.
proof fn lemma_references_none(t: Seq<char>, ps: Seq<(Seq<char>, Seq<char>)>, n: int)
    requires
        0 <= n <= ps.len(),
        references_of(t, ps.take(n)) is None,
    ensures
        references_of(t, ps) is None,
    decreases ps.len() - n,
{
    if n < ps.len() {
        assert(ps.take(n + 1).drop_last() =~= ps.take(n));
        lemma_references_none(t, ps, n + 1);
    } else {
        assert(ps.take(n) =~= ps);
    }
}

/// The matches of a regular expression in a text, in order, as the `regex`
/// crate finds them (leftmost-first, not overlapping).
pub uninterp spec fn regex_matches(pattern: Seq<char>, text: Seq<char>) -> Seq<Seq<char>>;

/// The texts of the matches of `pattern` in `text`.
///
/// Trusted: compiles `pattern` with `regex::Regex::new` and collects the
/// texts of `Regex::find_iter` on `text`; a pattern that does not compile
/// gives no match. The list depends on the pattern and the text alone and
/// is named `regex_matches`.
#[verifier::external_body]
fn find_all(pattern: &str, text: &str) -> (r: Vec<String>)
    ensures
        r.deep_view() == regex_matches(pattern@, text@),
{
    match regex::Regex::new(pattern) {
        Ok(re) => re.find_iter(text).map(|m| m.as_str().to_string()).collect(),
        Err(_) => Vec::new(),
    }
}

/// The pattern of place names: two to four CJK ideographs and a suffix
/// such as 市, 县, 区 or 园区.
pub open spec fn location_pattern() -> Seq<char> {
    "([\\u{4e00}-\\u{9fff}]{2,4}(?:市|县|区|省|州|旗|盟|镇|乡|街道|园区))"@
}

/// The place names found in the chunks of `order`, chunk after chunk.
pub open spec fn all_locations(order: Seq<Seq<char>>, chunks: Map<Seq<char>, ChunkView>) -> Seq<Seq<char>>
    decreases order.len(),
{
    if order.len() == 0 {
        Seq::empty()
    } else {
        let prev = all_locations(order.drop_last(), chunks);
        let id = order.last();
        if chunks.dom().contains(id) {
            prev + regex_matches(location_pattern(), chunks[id].text)
        } else {
            prev
        }
    }
}

/// How often `x` occurs in `s`.
pub open spec fn count_of(s: Seq<Seq<char>>, x: Seq<char>) -> nat
    decreases s.len(),
{
    if s.len() == 0 {
        0
    } else {
        count_of(s.drop_last(), x) + if s.last() == x {
            1nat
        } else {
            0nat
        }
    }
}

/// The place names of one chunk (`ms`, its matches) that occur once in the
/// whole document, as findings, when the chunk has more than 20
/// characters.
pub open spec fn chunk_entities(
    id: Seq<char>,
    ch: ChunkView,
    ms: Seq<Seq<char>>,
    all: Seq<Seq<char>>,
) -> Seq<FindingText>
    decreases ms.len(),
{
    if ms.len() == 0 {
        Seq::empty()
    } else {
        let prev = chunk_entities(id, ch, ms.drop_last(), all);
        let loc = ms.last();
        if count_of(all, loc) == 1 && ch.text.len() > 20 {
            prev.push(
                finding(id, ch.section_path, "location"@, loc + " (全文档仅出现 1 次，可能是其他项目残留)"@, "低频地名"@),
            )
        } else {
            prev
        }
    }
}

/// The rare place names of the chunks of `order`, chunk after chunk.
pub open spec fn entities_of(order: Seq<Seq<char>>, chunks: Map<Seq<char>, ChunkView>, all: Seq<Seq<char>>) -> Seq<FindingText>
    decreases order.len(),
{
    if order.len() == 0 {
        Seq::empty()
    } else {
        let prev = entities_of(order.drop_last(), chunks, all);
        let id = order.last();
        if chunks.dom().contains(id) {
            prev + chunk_entities(id, chunks[id], regex_matches(location_pattern(), chunks[id].text), all)
        } else {
            prev
        }
    }
}

/// At most the first `n` elements of `s`.
pub open spec fn at_most<A>(s: Seq<A>, n: nat) -> Seq<A> {
    if s.len() > n {
        s.take(n as int)
    } else {
        s
    }
}

/// A character that counts as content in a short section.
pub open spec fn substance_char(c: char) -> bool {
    alphanumeric(c) && !('0' <= c && c <= '9') && !is_white(c) && c != '、' && c != '：' && c != '。' && c != '（'
        && c != '）' && c != '第' && c != '条' && c != '章' && c != '节' && c != '附' && c != '录' && c != '一' && c
        != '二' && c != '三' && c != '四' && c != '五' && c != '六' && c != '七' && c != '八' && c != '九' && c != '十'
}

/// Some character of `s` counts as content.
pub open spec fn has_substance(s: Seq<char>) -> bool {
    exists|i: int| 0 <= i < s.len() && substance_char(#[trigger] s[i])
}

/// Words that say a section does not apply.
pub open spec fn not_applicable_words() -> Seq<Seq<char>> {
    seq!["不适用"@, "无需提供"@, "不涉及"@, "无需填写"@, "不要求"@, "无"@, "不强制"@, "自行决定"@]
}

/// Headings of sections that templates carry but many projects do not need.
pub open spec fn template_section_words() -> Seq<Seq<char>> {
    seq!["联合体"@, "分包"@, "转包"@, "进口"@, "替代方案"@, "备选方案"@, "赠品"@, "附加服务"@]
}

/// The last heading of a chunk (empty when it has none).
pub open spec fn path_last(path: Seq<Seq<char>>) -> Seq<char> {
    if path.len() > 0 {
        path.last()
    } else {
        Seq::empty()
    }
}

/// A chunk is an empty shell: under a heading, shorter than 30 characters,
/// and without content or short enough to be a bare heading.
pub open spec fn empty_shell(ch: ChunkView) -> bool {
    let tt = trim_seq(ch.text);
    &&& ch.text.len() < 30
    &&& ch.section_path.len() > 0
    &&& (!has_substance(tt) || byte_len(tt) < 15 || (contains_seq(ch.text, "项目"@) && byte_len(tt) < 25))
}

/// A chunk is a "does not apply" stub of a template section.
pub open spec fn na_stub(ch: ChunkView) -> bool {
    &&& 10 < ch.text.len() < 100
    &&& any_hit(ch.text, not_applicable_words())
    &&& any_hit(path_last(ch.section_path), template_section_words())
}

/// The stub findings of one chunk.
pub open spec fn chunk_stubs(id: Seq<char>, ch: ChunkView) -> Seq<FindingText> {
    let a: Seq<FindingText> = if empty_shell(ch) {
        seq![
            finding(
                id,
                ch.section_path,
                "empty_shell"@,
                "内容仅 "@ + decimal(ch.text.len()) + " 字，可能是模板中的占位章节"@,
                Seq::empty(),
            ),
        ]
    } else {
        Seq::empty()
    };
    let b: Seq<FindingText> = if na_stub(ch) {
        seq![
            finding(
                id,
                ch.section_path,
                "not_applicable_stub"@,
                "'"@ + path_last(ch.section_path) + "'章节标注为不适用但保留了模板结构，建议删除以简化标书"@,
                Seq::empty(),
            ),
        ]
    } else {
        Seq::empty()
    };
    a + b
}

/// The stub findings of the chunks of `order`.
pub open spec fn stubs_of(order: Seq<Seq<char>>, chunks: Map<Seq<char>, ChunkView>) -> Seq<FindingText>
    decreases order.len(),
{
    if order.len() == 0 {
        Seq::empty()
    } else {
        let prev = stubs_of(order.drop_last(), chunks);
        let id = order.last();
        if chunks.dom().contains(id) {
            prev + chunk_stubs(id, chunks[id])
        } else {
            prev
        }
    }
}

/// Appends `v` to `acc`.
fn append_strings(acc: &mut Vec<String>, v: &Vec<String>)
    ensures
        final(acc).deep_view() == old(acc).deep_view() + v.deep_view(),
{
    let ghost a0 = acc.deep_view();
    let mut i: usize = 0;
    while i < v.len()
        invariant
            i <= v@.len(),
            acc.deep_view() == a0 + v.deep_view().take(i as int),
        decreases v@.len() - i,
    {
        let ghost o0 = acc.deep_view();
        acc.push(v[i].clone());
        proof {
            assert(acc.deep_view() =~= o0.push(v@[i as int]@));
            assert(v.deep_view().take(i + 1) =~= v.deep_view().take(i as int).push(v@[i as int]@));
        }
        i += 1;
    }
    proof {
        assert(v.deep_view().take(v@.len() as int) =~= v.deep_view());
    }
}

/// How often `x` occurs in `v`.
fn count_exec(v: &Vec<String>, x: &String) -> (r: usize)
    ensures
        r == count_of(v.deep_view(), x@),
{
    let ghost vv = v.deep_view();
    let mut n: usize = 0;
    let mut i: usize = 0;
    while i < v.len()
        invariant
            i <= v@.len(),
            vv == v.deep_view(),
            n == count_of(vv.take(i as int), x@),
            n <= i,
        decreases v@.len() - i,
    {
        proof {
            assert(vv.take(i + 1).drop_last() =~= vv.take(i as int));
            assert(vv.take(i + 1).last() == v@[i as int]@);
        }
        if str_eq(v[i].as_str(), x.as_str()) {
            n += 1;
        }
        i += 1;
    }
    proof {
        assert(vv.take(v@.len() as int) =~= vv);
    }
    n
}

/// Keeps at most the first `n` elements.
fn keep_first<T>(v: &mut Vec<T>, n: usize)
    ensures
        final(v)@ == if old(v)@.len() > n {
            old(v)@.take(n as int)
        } else {
            old(v)@
        },
{
    v.truncate(n);
}

fn not_applicable_list() -> (r: Vec<&'static str>)
    ensures
        strs(r@) == not_applicable_words(),
{
    let mut v: Vec<&'static str> = Vec::new();
    v.push("不适用");
    v.push("无需提供");
    v.push("不涉及");
    v.push("无需填写");
    v.push("不要求");
    v.push("无");
    v.push("不强制");
    v.push("自行决定");
    assert(strs(v@) =~= not_applicable_words());
    v
}

fn template_section_list() -> (r: Vec<&'static str>)
    ensures
        strs(r@) == template_section_words(),
{
    let mut v: Vec<&'static str> = Vec::new();
    v.push("联合体");
    v.push("分包");
    v.push("转包");
    v.push("进口");
    v.push("替代方案");
    v.push("备选方案");
    v.push("赠品");
    v.push("附加服务");
    assert(strs(v@) =~= template_section_words());
    v
}

/// Whether `c` counts as content.
fn substance_char_exec(c: char) -> (r: bool)
    ensures
        r == substance_char(c),
{
    is_alphanumeric(c) && !('0' <= c && c <= '9') && !is_whitespace(c) && c != '、' && c != '：' && c != '。' && c
        != '（' && c != '）' && c != '第' && c != '条' && c != '章' && c != '节' && c != '附' && c != '录' && c != '一'
        && c != '二' && c != '三' && c != '四' && c != '五' && c != '六' && c != '七' && c != '八' && c != '九' && c
        != '十'
}

/// Whether some character of `v` counts as content.
fn has_substance_exec(v: &Vec<char>) -> (r: bool)
    ensures
        r == has_substance(v@),
{
    let mut i: usize = 0;
    while i < v.len()
        invariant
            i <= v@.len(),
            forall|q: int| 0 <= q < i ==> !substance_char(#[trigger] v@[q]),
        decreases v@.len() - i,
    {
        if substance_char_exec(v[i]) {
            return true;
        }
        i += 1;
    }
    false
}

/// The stub findings of one chunk.
fn chunk_stubs_exec(id: &String, ch: &Chunk) -> (r: Vec<SuperfluousSection>)
    ensures
        r.deep_view() == chunk_stubs(id@, ch.deep_view()),
{
    let mut out: Vec<SuperfluousSection> = Vec::new();
    let n = char_count(ch.text.as_str());
    let np = ch.section_path.len();
    if n < 30 && np > 0 {
        let tt = trim_string(ch.text.as_str());
        let tv = chars_of(tt.as_str());
        let sub = has_substance_exec(&tv);
        let tb = utf8_len(tt.as_str());
        let shell = !sub || tb < 15 || (str_contains(ch.text.as_str(), "项目") && tb < 25);
        if shell {
            let mut d = to_owned_string("内容仅 ");
            push_str(&mut d, decimal_string(n as u64).as_str());
            push_str(&mut d, " 字，可能是模板中的占位章节");
            let f = SuperfluousSection {
                chunk_id: id.clone(),
                section_path: ch.section_path.dup(),
                issue: to_owned_string("empty_shell"),
                detail: d,
            };
            out.push(f);
        }
    }
    let ghost a = out.deep_view();
    proof {
        assert(a =~= (if empty_shell(ch.deep_view()) {
            seq![
                finding(
                    id@,
                    ch.section_path.deep_view(),
                    "empty_shell"@,
                    "内容仅 "@ + decimal(ch.text@.len()) + " 字，可能是模板中的占位章节"@,
                    Seq::empty(),
                ),
            ]
        } else {
            Seq::<FindingText>::empty()
        }));
    }
    if n > 10 && n < 100 {
        let tx = chars_of(ch.text.as_str());
        if any_keyword(&tx, &not_applicable_list()) {
            let last: &str = if np > 0 {
                ch.section_path[np - 1].as_str()
            } else {
                ""
            };
            proof {
                if np == 0 {
                    reveal_strlit("");
                    assert(last@ =~= path_last(ch.section_path.deep_view()));
                } else {
                    assert(last@ == path_last(ch.section_path.deep_view()));
                }
            }
            let lc = chars_of(last);
            if any_keyword(&lc, &template_section_list()) {
                let mut d = to_owned_string("'");
                push_str(&mut d, last);
                push_str(&mut d, "'章节标注为不适用但保留了模板结构，建议删除以简化标书");
                let f = SuperfluousSection {
                    chunk_id: id.clone(),
                    section_path: ch.section_path.dup(),
                    issue: to_owned_string("not_applicable_stub"),
                    detail: d,
                };
                let ghost o0 = out.deep_view();
                out.push(f);
                proof {
                    assert(out.deep_view() =~= o0.push(f.deep_view()));
                    assert(f.deep_view().c =~= Seq::<char>::empty());
                }
            }
        }
    }
    proof {
        assert(out.deep_view() =~= chunk_stubs(id@, ch.deep_view()));
    }
    out
}

impl DetectBoilerplateTool {
    /// The place names (by the location pattern) that occur once in the
    /// whole document, in chunks of more than 20 characters, at most 20.
    pub fn detect_anomalous_entities(chunks: &StrMap<Chunk>, chunk_order: &[String]) -> (r: Vec<AnomalousEntity>)
        requires
            chunks.wf(),
        ensures
            r.deep_view() == at_most(
                entities_of(
                    chunk_order.deep_view(),
                    chunks.deep_view(),
                    all_locations(chunk_order.deep_view(), chunks.deep_view()),
                ),
                20,
            ),
    {
        let pattern = "([\\u{4e00}-\\u{9fff}]{2,4}(?:市|县|区|省|州|旗|盟|镇|乡|街道|园区))";
        let ghost ov = chunk_order.deep_view();
        let ghost cv = chunks.deep_view();
        let mut all: Vec<String> = Vec::new();
        let mut i: usize = 0;
        while i < chunk_order.len()
            invariant
                i <= chunk_order@.len(),
                chunks.wf(),
                ov == chunk_order.deep_view(),
                cv == chunks.deep_view(),
                pattern@ == location_pattern(),
                all.deep_view() == all_locations(ov.take(i as int), cv),
            decreases chunk_order@.len() - i,
        {
            proof {
                assert(ov.take(i + 1).drop_last() =~= ov.take(i as int));
                assert(ov.take(i + 1).last() == chunk_order@[i as int]@);
            }
            match chunks.get(chunk_order[i].as_str()) {
                Some(ch) => {
                    let ms = find_all(pattern, ch.text.as_str());
                    append_strings(&mut all, &ms);
                },
                None => {},
            }
            i += 1;
        }
        proof {
            assert(ov.take(chunk_order@.len() as int) =~= ov);
        }
        let ghost av = all.deep_view();
        let mut out: Vec<AnomalousEntity> = Vec::new();
        let mut j: usize = 0;
        while j < chunk_order.len()
            invariant
                j <= chunk_order@.len(),
                chunks.wf(),
                ov == chunk_order.deep_view(),
                cv == chunks.deep_view(),
                pattern@ == location_pattern(),
                av == all.deep_view(),
                out.deep_view() == entities_of(ov.take(j as int), cv, av),
            decreases chunk_order@.len() - j,
        {
            proof {
                assert(ov.take(j + 1).drop_last() =~= ov.take(j as int));
                assert(ov.take(j + 1).last() == chunk_order@[j as int]@);
            }
            let id = &chunk_order[j];
            match chunks.get(id.as_str()) {
                Some(ch) => {
                    let ms = find_all(pattern, ch.text.as_str());
                    let n = char_count(ch.text.as_str());
                    let ghost mv = ms.deep_view();
                    let ghost e0 = out.deep_view();
                    let mut k: usize = 0;
                    while k < ms.len()
                        invariant
                            k <= ms@.len(),
                            mv == ms.deep_view(),
                            av == all.deep_view(),
                            n == ch.text@.len(),
                            out.deep_view() == e0 + chunk_entities(id@, ch.deep_view(), mv.take(k as int), av),
                        decreases ms@.len() - k,
                    {
                        proof {
                            assert(mv.take(k + 1).drop_last() =~= mv.take(k as int));
                            assert(mv.take(k + 1).last() == ms@[k as int]@);
                        }
                        let c = count_exec(&all, &ms[k]);
                        if c == 1 && n > 20 {
                            let mut et = ms[k].clone();
                            push_str(&mut et, " (全文档仅出现 1 次，可能是其他项目残留)");
                            let e = AnomalousEntity {
                                chunk_id: id.clone(),
                                section_path: ch.section_path.dup(),
                                entity_type: to_owned_string("location"),
                                entity_text: et,
                                reason: to_owned_string("低频地名"),
                            };
                            let ghost o0 = out.deep_view();
                            out.push(e);
                            proof {
                                assert(out.deep_view() =~= o0.push(e.deep_view()));
                                assert(e0 + chunk_entities(id@, ch.deep_view(), mv.take(k + 1), av) =~= (e0
                                    + chunk_entities(id@, ch.deep_view(), mv.take(k as int), av)).push(e.deep_view()));
                            }
                        }
                        k += 1;
                    }
                    proof {
                        assert(mv.take(ms@.len() as int) =~= mv);
                        assert(cv[id@] == ch.deep_view());
                    }
                },
                None => {},
            }
            j += 1;
        }
        proof {
            assert(ov.take(chunk_order@.len() as int) =~= ov);
        }
        keep_first(&mut out, 20);
        proof {
            assert(out.deep_view() =~= at_most(entities_of(ov, cv, av), 20));
        }
        out
    }

    /// The stub sections of the document: empty shells and "does not
    /// apply" stubs of template sections, at most 15.
    pub fn detect_superfluous_sections(chunks: &StrMap<Chunk>, chunk_order: &[String]) -> (r: Vec<SuperfluousSection>)
        requires
            chunks.wf(),
        ensures
            r.deep_view() == at_most(stubs_of(chunk_order.deep_view(), chunks.deep_view()), 15),
    {
        let ghost ov = chunk_order.deep_view();
        let ghost cv = chunks.deep_view();
        let mut out: Vec<SuperfluousSection> = Vec::new();
        let mut i: usize = 0;
        while i < chunk_order.len()
            invariant
                i <= chunk_order@.len(),
                chunks.wf(),
                ov == chunk_order.deep_view(),
                cv == chunks.deep_view(),
                out.deep_view() == stubs_of(ov.take(i as int), cv),
            decreases chunk_order@.len() - i,
        {
            proof {
                assert(ov.take(i + 1).drop_last() =~= ov.take(i as int));
                assert(ov.take(i + 1).last() == chunk_order@[i as int]@);
            }
            let id = &chunk_order[i];
            match chunks.get(id.as_str()) {
                Some(ch) => {
                    let found = chunk_stubs_exec(id, ch);
                    let ghost o0 = out.deep_view();
                    let mut k: usize = 0;
                    while k < found.len()
                        invariant
                            k <= found@.len(),
                            out.deep_view() == o0 + found.deep_view().take(k as int),
                        decreases found@.len() - k,
                    {
                        let f = SuperfluousSection {
                            chunk_id: found[k].chunk_id.clone(),
                            section_path: found[k].section_path.dup(),
                            issue: found[k].issue.clone(),
                            detail: found[k].detail.clone(),
                        };
                        let ghost o1 = out.deep_view();
                        out.push(f);
                        proof {
                            assert(out.deep_view() =~= o1.push(found@[k as int].deep_view()));
                            assert(found.deep_view().take(k + 1) =~= found.deep_view().take(k as int).push(
                                found@[k as int].deep_view(),
                            ));
                        }
                        k += 1;
                    }
                    proof {
                        assert(found.deep_view().take(found@.len() as int) =~= found.deep_view());
                        assert(cv[id@] == ch.deep_view());
                    }
                },
                None => {},
            }
            i += 1;
        }
        proof {
            assert(ov.take(chunk_order@.len() as int) =~= ov);
        }
        keep_first(&mut out, 15);
        proof {
            assert(out.deep_view() =~= at_most(stubs_of(ov, cv), 15));
        }
        out
    }
}

/// The dangling references among `refs` (found in chunk `id`), as
/// findings.
pub open spec fn dangling_in(
    id: Seq<char>,
    ch: ChunkView,
    refs: Seq<(Seq<char>, Seq<char>)>,
    order: Seq<Seq<char>>,
    chunks: Map<Seq<char>, ChunkView>,
) -> Seq<FindingText>
    decreases refs.len(),
{
    if refs.len() == 0 {
        Seq::empty()
    } else {
        let prev = dangling_in(id, ch, refs.drop_last(), order, chunks);
        let (target, kind) = refs.last();
        if !target_present(order, chunks, target, kind) {
            prev.push(
                finding(
                    id,
                    ch.section_path,
                    target,
                    kind,
                    "引用'"@ + target + "'但文档中未找到匹配的"@ + target_kind_name(kind),
                ),
            )
        } else {
            prev
        }
    }
}

/// The dangling references of the scanned chunks, or `None` where a
/// scan of a chunk's text would resume inside a character.
pub open spec fn dangling_of(
    scan: Seq<Seq<char>>,
    order: Seq<Seq<char>>,
    chunks: Map<Seq<char>, ChunkView>,
) -> Option<Seq<FindingText>>
    decreases scan.len(),
{
    if scan.len() == 0 {
        Some(Seq::empty())
    } else {
        match dangling_of(scan.drop_last(), order, chunks) {
            None => None,
            Some(prev) => {
                let id = scan.last();
                if chunks.dom().contains(id) {
                    match references_of(chunks[id].text, reference_patterns()) {
                        None => None,
                        Some(refs) => Some(prev + dangling_in(id, chunks[id], refs, order, chunks)),
                    }
                } else {
                    Some(prev)
                }
            },
        }
    }
}

/// The summary line of a scan.
pub open spec fn boilerplate_summary(d: nat, a: nat, s: nat) -> Seq<char> {
    if d + a + s == 0 {
        "✅ 未发现模板残骸。标书文本干净。"@
    } else {
        let p1: Seq<Seq<char>> = if d > 0 {
            seq![decimal(d) + " 处悬空引用"@]
        } else {
            Seq::empty()
        };
        let p2: Seq<Seq<char>> = if a > 0 {
            seq![decimal(a) + " 个异常实体"@]
        } else {
            Seq::empty()
        };
        let p3: Seq<Seq<char>> = if s > 0 {
            seq![decimal(s) + " 个多余章节"@]
        } else {
            Seq::empty()
        };
        "⚠️ 发现 "@ + decimal(d + a + s) + " 处模板残骸："@ + join_seq(p1 + p2 + p3, "，"@)
    }
}

/// A count followed by its unit.
fn count_text(n: usize, post: &str) -> (r: String)
    ensures
        r@ == decimal(n as nat) + post@,
{
    let mut s = decimal_string(n as u64);
    push_str(&mut s, post);
    s
}

/// A missing scan of a chunk makes the whole scan missing.
proof fn lemma_dangling_none(scan: Seq<Seq<char>>, order: Seq<Seq<char>>, chunks: Map<Seq<char>, ChunkView>, n: int)
    requires
        0 <= n <= scan.len(),
        dangling_of(scan.take(n), order, chunks) is None,
    ensures
        dangling_of(scan, order, chunks) is None,
    decreases scan.len() - n,
{
    if n < scan.len() {
        assert(scan.take(n + 1).drop_last() =~= scan.take(n));
        lemma_dangling_none(scan, order, chunks, n + 1);
    } else {
        assert(scan.take(n) =~= scan);
    }
}

impl DetectBoilerplateTool {
    /// The dangling references of the chunks `scan`, in order.
    fn dangling_refs(&self, scan: &Vec<String>) -> (r: Option<Vec<DanglingRef>>)
        requires
            self.chunks.wf(),
        ensures
            match r {
                Some(v) => dangling_of(scan.deep_view(), self.chunk_order.deep_view(), self.chunks.deep_view())
                    == Some(v.deep_view()),
                None => dangling_of(scan.deep_view(), self.chunk_order.deep_view(), self.chunks.deep_view()) is None,
            },
    {
        let ghost sv = scan.deep_view();
        let ghost ov = self.chunk_order.deep_view();
        let ghost cv = self.chunks.deep_view();
        let mut out: Vec<DanglingRef> = Vec::new();
        let mut i: usize = 0;
        while i < scan.len()
            invariant
                i <= scan@.len(),
                self.chunks.wf(),
                sv == scan.deep_view(),
                ov == self.chunk_order.deep_view(),
                cv == self.chunks.deep_view(),
                dangling_of(sv.take(i as int), ov, cv) == Some(out.deep_view()),
            decreases scan@.len() - i,
        {
            proof {
                assert(sv.take(i + 1).drop_last() =~= sv.take(i as int));
                assert(sv.take(i + 1).last() == scan@[i as int]@);
            }
            let id = &scan[i];
            match self.chunks.get(id.as_str()) {
                Some(ch) => {
                    proof {
                        assert(cv[id@] == ch.deep_view());
                    }
                    match Self::references_checked(ch.text.as_str()) {
                        None => {
                            proof {
                                lemma_dangling_none(sv, ov, cv, i + 1);
                            }
                            return None;
                        },
                        Some(refs) => {
                            let ghost rv = refs.deep_view();
                            let ghost o0 = out.deep_view();
                            let mut k: usize = 0;
                            while k < refs.len()
                                invariant
                                    k <= refs@.len(),
                                    self.chunks.wf(),
                                    rv == refs.deep_view(),
                                    ov == self.chunk_order.deep_view(),
                                    cv == self.chunks.deep_view(),
                                    out.deep_view() == o0 + dangling_in(id@, ch.deep_view(), rv.take(k as int), ov, cv),
                                decreases refs@.len() - k,
                            {
                                proof {
                                    assert(rv.take(k + 1).drop_last() =~= rv.take(k as int));
                                    assert(rv.take(k + 1).last() == refs@[k as int].deep_view());
                                }
                                let (target, kind) = (&refs[k].0, &refs[k].1);
                                if !Self::is_target_present(
                                    &self.chunks,
                                    self.chunk_order.as_slice(),
                                    target.as_str(),
                                    kind.as_str(),
                                ) {
                                    let mut d = to_owned_string("引用'");
                                    push_str(&mut d, target.as_str());
                                    push_str(&mut d, "'但文档中未找到匹配的");
                                    push_str(&mut d, target_kind_name_exec(kind.as_str()));
                                    let f = DanglingRef {
                                        chunk_id: id.clone(),
                                        section_path: ch.section_path.dup(),
                                        expression: target.clone(),
                                        ref_type: kind.clone(),
                                        detail: d,
                                    };
                                    let ghost o1 = out.deep_view();
                                    out.push(f);
                                    proof {
                                        assert(out.deep_view() =~= o1.push(f.deep_view()));
                                    }
                                }
                                k += 1;
                            }
                            proof {
                                assert(rv.take(refs@.len() as int) =~= rv);
                            }
                        },
                    }
                },
                None => {},
            }
            i += 1;
        }
        proof {
            assert(sv.take(scan@.len() as int) =~= sv);
        }
        Some(out)
    }

    /// Scans for template leftovers: dangling references in the chunks
    /// `args.chunk_ids` (all chunks in order when empty), rare place names
    /// and stub sections of the whole document, their counts and a summary.
    /// Refuses a scan that would resume inside a character of a chunk's
    /// text (a reference word followed by less than two bytes of target).
    pub fn execute(&self, args: &DetectBoilerplateArgs) -> (r: Result<BoilerplateResult, String>)
        requires
            self.chunks.wf(),
        ensures
            ({
                let ov = self.chunk_order.deep_view();
                let cv = self.chunks.deep_view();
                let scan = if args.chunk_ids@.len() == 0 {
                    ov
                } else {
                    args.chunk_ids.deep_view()
                };
                match dangling_of(scan, ov, cv) {
                    None => r is Err && r->Err_0@ == "引用表达式后的目标过短，无法继续扫描"@,
                    Some(d) => r matches Ok(res) && {
                        let a = at_most(entities_of(ov, cv, all_locations(ov, cv)), 20);
                        let s = at_most(stubs_of(ov, cv), 15);
                        &&& res.dangling_refs.deep_view() == d
                        &&& res.anomalous_entities.deep_view() == a
                        &&& res.superfluous_sections.deep_view() == s
                        &&& res.stats.dangling_count == d.len()
                        &&& res.stats.anomalous_count == a.len()
                        &&& res.stats.superfluous_count == s.len()
                        &&& res.summary@ == boilerplate_summary(d.len(), a.len(), s.len())
                    },
                }
            }),
    {
        let scan: Vec<String> = if args.chunk_ids.len() == 0 {
            self.chunk_order.dup()
        } else {
            args.chunk_ids.dup()
        };
        let dangling = match self.dangling_refs(&scan) {
            Some(d) => d,
            None => {
                return Err(to_owned_string("引用表达式后的目标过短，无法继续扫描"));
            },
        };
        let anomalous = Self::detect_anomalous_entities(&self.chunks, self.chunk_order.as_slice());
        let superfluous = Self::detect_superfluous_sections(&self.chunks, self.chunk_order.as_slice());
        let dn = dangling.len();
        let an = anomalous.len();
        let sn = superfluous.len();
        let total: u128 = dn as u128 + an as u128 + sn as u128;
        let summary = if total == 0 {
            to_owned_string("✅ 未发现模板残骸。标书文本干净。")
        } else {
            let mut parts: Vec<String> = Vec::new();
            if dn > 0 {
                parts.push(count_text(dn, " 处悬空引用"));
            }
            if an > 0 {
                parts.push(count_text(an, " 个异常实体"));
            }
            if sn > 0 {
                parts.push(count_text(sn, " 个多余章节"));
            }
            proof {
                let p1: Seq<Seq<char>> = if dn > 0 {
                    seq![decimal(dn as nat) + " 处悬空引用"@]
                } else {
                    Seq::empty()
                };
                let p2: Seq<Seq<char>> = if an > 0 {
                    seq![decimal(an as nat) + " 个异常实体"@]
                } else {
                    Seq::empty()
                };
                let p3: Seq<Seq<char>> = if sn > 0 {
                    seq![decimal(sn as nat) + " 个多余章节"@]
                } else {
                    Seq::empty()
                };
                assert(parts.deep_view() =~= p1 + p2 + p3);
            }
            let mut s = to_owned_string("⚠️ 发现 ");
            push_str(&mut s, crate::text::decimal_wide(total).as_str());
            push_str(&mut s, " 处模板残骸：");
            push_str(&mut s, join_strings(&parts, "，").as_str());
            s
        };
        let stats = BoilerplateStats { dangling_count: dn, anomalous_count: an, superfluous_count: sn };
        Ok(
            BoilerplateResult {
                dangling_refs: dangling,
                anomalous_entities: anomalous,
                superfluous_sections: superfluous,
                stats,
                summary,
            },
        )
    }
}

} // verus!
