//! The text rules of the scoring tools that need no numbers: which
//! subjective words a scoring text uses, whether a qualitative grade comes
//! without figures, and which evaluation dimensions each procurement
//! category must cover.
use vstd::prelude::*;

use crate::text::{
    chars_of, contains_chars, contains_seq, lowercase, push_str, sorted_seq, distinct_seq, sorted_unique,
    to_lowercase, to_owned_string, str_contains,
};
use crate::tools::keywords::{find_first, first_occurrence, hits, keyword_hits, strs};

verus! {

/// Words that leave the score to the evaluators.
pub open spec fn strong_subjective() -> Seq<Seq<char>> {
    seq!["评委酌情"@, "自行掌握"@, "酌情打分"@, "灵活掌握"@, "自主判断"@, "酌情考虑"@, "自由裁量"@]
}

/// Words that hint at a missing quantitative standard.
pub open spec fn weak_subjective() -> Seq<Seq<char>> {
    seq!["综合判断"@, "满意程度"@, "满意"@, "优秀"@, "良好"@, "一般"@, "优良"@, "优良中差"@, "酌情给分"@]
}

fn strong_list() -> (r: Vec<&'static str>)
    ensures
        strs(r@) == strong_subjective(),
{
    let r = vec!["评委酌情", "自行掌握", "酌情打分", "灵活掌握", "自主判断", "酌情考虑", "自由裁量"];
    proof {
        assert(strs(r@) =~= strong_subjective());
    }
    r
}

fn weak_list() -> (r: Vec<&'static str>)
    ensures
        strs(r@) == weak_subjective(),
{
    let r = vec!["综合判断", "满意程度", "满意", "优秀", "良好", "一般", "优良", "优良中差", "酌情给分"];
    proof {
        assert(strs(r@) =~= weak_subjective());
    }
    r
}

/// The subjective words (strong and weak) that occur in `text`, sorted and
/// without repeats.
pub fn detect_keywords(text: &str) -> (r: Vec<String>)
    ensures
        sorted_seq(r.deep_view()),
        distinct_seq(r.deep_view()),
        forall|x: Seq<char>| #[trigger] r.deep_view().contains(x) <==> (strong_subjective().contains(x)
            || weak_subjective().contains(x)) && contains_seq(text@, x),
{
    let t = chars_of(text);
    let strong = strong_list();
    let weak = weak_list();
    let mut found = keyword_hits(&t, &strong);
    let more = keyword_hits(&t, &weak);
    let ghost f0 = found.deep_view();
    let mut i: usize = 0;
    while i < more.len()
        invariant
            i <= more@.len(),
            found.deep_view() == f0 + more.deep_view().take(i as int),
        decreases more@.len() - i,
    {
        let ghost o = found.deep_view();
        found.push(more[i].clone());
        proof {
            assert(more.deep_view().take(i + 1) =~= more.deep_view().take(i as int).push(more@[i as int]@));
            assert(found.deep_view() =~= o.push(more@[i as int]@));
        }
        i += 1;
    }
    proof {
        assert(more.deep_view().take(more@.len() as int) =~= more.deep_view());
        lemma_hits_members(t@, strong_subjective());
        lemma_hits_members(t@, weak_subjective());
        assert forall|x: Seq<char>| #[trigger] found.deep_view().contains(x) <==> (strong_subjective().contains(x)
            || weak_subjective().contains(x)) && contains_seq(text@, x) by {
            let a = hits(t@, strong_subjective());
            let b = hits(t@, weak_subjective());
            if found.deep_view().contains(x) {
                let j = choose|j: int| 0 <= j < found.deep_view().len() && found.deep_view()[j] == x;
                if j < a.len() {
                    assert(a[j] == x);
                    assert(a.contains(x));
                } else {
                    assert(b[j - a.len()] == x);
                    assert(b.contains(x));
                }
            }
            if (strong_subjective().contains(x) || weak_subjective().contains(x)) && contains_seq(text@, x) {
                if a.contains(x) {
                    let j = choose|j: int| 0 <= j < a.len() && a[j] == x;
                    assert(found.deep_view()[j] == x);
                } else {
                    assert(b.contains(x));
                    let j = choose|j: int| 0 <= j < b.len() && b[j] == x;
                    assert(found.deep_view()[a.len() + j] == x);
                }
            }
        }
    }
    sorted_unique(found)
}

/// A word is among the hits of `t` exactly when it is a word of `kws` that
/// occurs in `t`.
pub proof fn lemma_hits_members(t: Seq<char>, kws: Seq<Seq<char>>)
    ensures
        forall|x: Seq<char>| #[trigger] hits(t, kws).contains(x) <==> kws.contains(x) && contains_seq(t, x),
    decreases kws.len(),
{
    if kws.len() > 0 {
        lemma_hits_members(t, kws.drop_last());
        let prev = hits(t, kws.drop_last());
        assert forall|x: Seq<char>| #[trigger] hits(t, kws).contains(x) <==> kws.contains(x) && contains_seq(t, x) by {
            if kws.contains(x) && !kws.drop_last().contains(x) {
                let j = choose|j: int| 0 <= j < kws.len() && kws[j] == x;
                if j < kws.len() - 1 {
                    assert(kws.drop_last()[j] == x);
                }
            }
            if kws.drop_last().contains(x) {
                let j = choose|j: int| 0 <= j < kws.len() - 1 && kws.drop_last()[j] == x;
                assert(kws[j] == x);
            }
            if contains_seq(t, kws.last()) {
                assert(hits(t, kws) == prev.push(kws.last()));
                if hits(t, kws).contains(x) && !prev.contains(x) {
                    let j = choose|j: int| 0 <= j < prev.len() + 1 && prev.push(kws.last())[j] == x;
                    assert(j == prev.len());
                    assert(kws[kws.len() - 1] == x);
                }
                if x == kws.last() {
                    assert(prev.push(kws.last())[prev.len() as int] == x);
                }
                if prev.contains(x) {
                    let j = choose|j: int| 0 <= j < prev.len() && prev[j] == x;
                    assert(prev.push(kws.last())[j] == x);
                }
            }
        }
    }
}

/// The qualitative grades, in the order they are looked for.
pub open spec fn grade_terms() -> Seq<Seq<char>> {
    seq!["优良中差"@, "优良"@, "优秀"@, "良好"@, "一般"@]
}

/// An ASCII digit stands within 50 characters after the `n` characters at
/// `p`, or within the 50 characters before `p`.
pub open spec fn digit_near(t: Seq<char>, p: int, n: int) -> bool {
    exists|j: int|
        0 <= j < t.len() && ((p + n <= j < p + n + 50) || (p - 50 <= j < p)) && '0' <= #[trigger] t[j] <= '9'
}

/// The first grade of `grade_terms()` from index `i` on that occurs in `t`
/// (first occurrence) with no figure near it.
pub open spec fn unquantified_grade(t: Seq<char>, i: int) -> Option<Seq<char>>
    decreases 5 - i,
{
    if i < 0 || i >= 5 {
        None
    } else {
        let k = grade_terms()[i];
        if contains_seq(t, k) && !digit_near(t, first_occurrence(t, k), k.len() as int) {
            Some(k)
        } else {
            unquantified_grade(t, i + 1)
        }
    }
}

/// The issue reported for a qualitative grade without figures.
pub open spec fn grade_issue(label: Seq<char>) -> Seq<char> {
    "评分条款使用了定性描述'"@ + label + "'但未给出具体量化细则，违反《政府采购货物和服务招标投标管理办法》第55条关于评审因素应当量化的规定。"@
}

/// Whether an ASCII digit stands within 50 characters after the `n`
/// characters at `p` or within the 50 before `p`.
fn digit_near_exec(t: &Vec<char>, p: usize, n: usize) -> (r: bool)
    requires
        p + n <= t@.len(),
    ensures
        r == digit_near(t@, p as int, n as int),
{
    let end = if t.len() - (p + n) > 50 { p + n + 50 } else { t.len() };
    let mut j = p + n;
    while j < end
        invariant
            p + n <= j <= end <= t@.len(),
            end == (if t@.len() - (p + n) > 50 { p + n + 50 } else { t@.len() as int }),
            forall|q: int| p + n <= q < j ==> !('0' <= #[trigger] t@[q] <= '9'),
        decreases end - j,
    {
        if '0' <= t[j] && t[j] <= '9' {
            return true;
        }
        j += 1;
    }
    let start = if p > 50 { p - 50 } else { 0 };
    let mut k = start;
    while k < p
        invariant
            start <= k <= p,
            p + n <= t@.len(),
            start == (if p > 50 { p - 50 } else { 0 }),
            forall|q: int| start <= q < k ==> !('0' <= #[trigger] t@[q] <= '9'),
        decreases p - k,
    {
        if '0' <= t[k] && t[k] <= '9' {
            return true;
        }
        k += 1;
    }
    proof {
        assert forall|q: int| 0 <= q < t@.len() && ((p + n <= q < p + n + 50) || (p - 50 <= q < p)) implies !('0' <= #[trigger] t@[q] <= '9') by {
            if p + n <= q < p + n + 50 {
                assert(q < end);
            }
        }
    }
    false
}

/// The issue of a scoring text that grades qualitatively ("优良中差",
/// "优良", "优秀", "良好", "一般") without a figure within 50 characters of
/// the grade: at most one, for the first such grade.
pub fn detect_quantification_issues(text: &str) -> (r: Vec<String>)
    ensures
        r.deep_view() == match unquantified_grade(text@, 0) {
            Some(l) => seq![grade_issue(l)],
            None => Seq::<Seq<char>>::empty(),
        },
{
    let t = chars_of(text);
    let terms = vec!["优良中差", "优良", "优秀", "良好", "一般"];
    proof {
        assert(strs(terms@) =~= grade_terms());
    }
    let mut i: usize = 0;
    while i < 5
        invariant
            i <= 5,
            t@ == text@,
            terms@.len() == 5,
            strs(terms@) == grade_terms(),
            unquantified_grade(text@, 0) == unquantified_grade(text@, i as int),
        decreases 5 - i,
    {
        let term = terms[i];
        let kc = chars_of(term);
        proof {
            assert(kc@ == grade_terms()[i as int]);
        }
        match find_first(&t, &kc) {
            Some(p) => {
                proof {
                    assert(crate::text::occurs_at(t@, kc@, p as int));
                }
                if !digit_near_exec(&t, p, kc.len()) {
                    let mut msg = to_owned_string("评分条款使用了定性描述'");
                    push_str(&mut msg, term);
                    push_str(&mut msg, "'但未给出具体量化细则，违反《政府采购货物和服务招标投标管理办法》第55条关于评审因素应当量化的规定。");
                    let mut out: Vec<String> = Vec::new();
                    out.push(msg);
                    proof {
                        assert(out.deep_view() =~= seq![grade_issue(grade_terms()[i as int])]);
                    }
                    return out;
                }
            },
            None => {},
        }
        i += 1;
    }
    let out: Vec<String> = Vec::new();
    proof {
        assert(out.deep_view() =~= Seq::<Seq<char>>::empty());
    }
    out
}

/// The evaluation dimensions a category of procurement must cover, each
/// with the words that name it in a scoring item: goods (价格, 技术, 商务),
/// works (价格, 技术) and services (价格, 服务, 技术); none for another
/// category.
pub open spec fn required_dimensions(category: Seq<char>) -> Option<Seq<(Seq<char>, Seq<Seq<char>>)>> {
    if category == "货物"@ {
        Some(seq![
            ("价格"@, seq!["价格"@, "报价"@, "投标价"@]),
            ("技术"@, seq!["技术"@, "施工方案"@, "实施方案"@]),
            ("商务"@, seq!["商务"@, "业绩"@, "资质"@, "信誉"@, "财务状况"@]),
        ])
    } else if category == "工程"@ {
        Some(seq![
            ("价格"@, seq!["价格"@, "报价"@, "投标价"@]),
            ("技术"@, seq!["技术"@, "施工方案"@, "施工组织"@, "项目管理"@]),
        ])
    } else if category == "服务"@ {
        Some(seq![
            ("价格"@, seq!["价格"@, "报价"@, "投标价"@]),
            ("服务"@, seq!["服务方案"@, "服务"@, "售后服务"@, "运维"@]),
            ("技术"@, seq!["技术"@, "人员"@, "团队"@, "资质"@]),
        ])
    } else {
        None
    }
}

/// A dimension with its words.
fn dimension(name: &str, words: Vec<&str>) -> (r: (String, Vec<String>))
    ensures
        r.0@ == name@,
        r.1.deep_view() == strs(words@),
{
    let mut ws: Vec<String> = Vec::new();
    let mut i: usize = 0;
    while i < words.len()
        invariant
            i <= words@.len(),
            ws.deep_view() == strs(words@).take(i as int),
        decreases words@.len() - i,
    {
        let ghost o = ws.deep_view();
        ws.push(to_owned_string(words[i]));
        proof {
            assert(ws.deep_view() =~= o.push(words@[i as int]@));
            assert(strs(words@).take(i + 1) =~= strs(words@).take(i as int).push(words@[i as int]@));
        }
        i += 1;
    }
    proof {
        assert(strs(words@).take(words@.len() as int) =~= strs(words@));
    }
    (to_owned_string(name), ws)
}

/// The dimensions a category must cover; refuses a category other than
/// 货物, 工程 and 服务.
pub fn get_required_dimensions(category: &str) -> (r: Result<Vec<(String, Vec<String>)>, String>)
    ensures
        match r {
            Ok(d) => required_dimensions(category@) == Some(d.deep_view()),
            Err(m) => required_dimensions(category@) is None && m@ == "不支持的采购品类 '"@ + category@
                + "'，有效值为: 货物/工程/服务"@,
        },
{
    let mut out: Vec<(String, Vec<String>)> = Vec::new();
    if crate::text::str_eq(category, "货物") {
        {
            let d = dimension("价格", vec!["价格", "报价", "投标价"]);
            proof {
                assert(d.1.deep_view() =~= seq!["价格"@, "报价"@, "投标价"@]);
            }
            out.push(d);
        }
        {
            let d = dimension("技术", vec!["技术", "施工方案", "实施方案"]);
            proof {
                assert(d.1.deep_view() =~= seq!["技术"@, "施工方案"@, "实施方案"@]);
            }
            out.push(d);
        }
        {
            let d = dimension("商务", vec!["商务", "业绩", "资质", "信誉", "财务状况"]);
            proof {
                assert(d.1.deep_view() =~= seq!["商务"@, "业绩"@, "资质"@, "信誉"@, "财务状况"@]);
            }
            out.push(d);
        }
    } else if crate::text::str_eq(category, "工程") {
        {
            let d = dimension("价格", vec!["价格", "报价", "投标价"]);
            proof {
                assert(d.1.deep_view() =~= seq!["价格"@, "报价"@, "投标价"@]);
            }
            out.push(d);
        }
        {
            let d = dimension("技术", vec!["技术", "施工方案", "施工组织", "项目管理"]);
            proof {
                assert(d.1.deep_view() =~= seq!["技术"@, "施工方案"@, "施工组织"@, "项目管理"@]);
            }
            out.push(d);
        }
    } else if crate::text::str_eq(category, "服务") {
        {
            let d = dimension("价格", vec!["价格", "报价", "投标价"]);
            proof {
                assert(d.1.deep_view() =~= seq!["价格"@, "报价"@, "投标价"@]);
            }
            out.push(d);
        }
        {
            let d = dimension("服务", vec!["服务方案", "服务", "售后服务", "运维"]);
            proof {
                assert(d.1.deep_view() =~= seq!["服务方案"@, "服务"@, "售后服务"@, "运维"@]);
            }
            out.push(d);
        }
        {
            let d = dimension("技术", vec!["技术", "人员", "团队", "资质"]);
            proof {
                assert(d.1.deep_view() =~= seq!["技术"@, "人员"@, "团队"@, "资质"@]);
            }
            out.push(d);
        }
    } else {
        let mut m = to_owned_string("不支持的采购品类 '");
        push_str(&mut m, category);
        push_str(&mut m, "'，有效值为: 货物/工程/服务");
        return Err(m);
    }
    proof {
        assert(out.deep_view() =~= required_dimensions(category@)->Some_0);
    }
    Ok(out)
}

/// Some item name holds some word of the dimension, as written or in lower
/// case.
pub open spec fn names_dimension(names: Seq<Seq<char>>, words: Seq<Seq<char>>) -> bool {
    exists|i: int, j: int|
        0 <= i < names.len() && 0 <= j < words.len() && (contains_seq(#[trigger] names[i], #[trigger] words[j])
            || contains_seq(lowercase(names[i]), lowercase(words[j])))
}

/// Whether some scoring item (by name) covers a dimension named by `words`.
pub fn contains_dimension(item_names: &Vec<String>, words: &Vec<String>) -> (r: bool)
    ensures
        r == names_dimension(item_names.deep_view(), words.deep_view()),
{
    let mut i: usize = 0;
    while i < item_names.len()
        invariant
            i <= item_names@.len(),
            forall|a: int, b: int|
                0 <= a < i && 0 <= b < words@.len() ==> !(contains_seq(#[trigger] item_names.deep_view()[a], #[trigger] words.deep_view()[b])
                    || contains_seq(lowercase(item_names.deep_view()[a]), lowercase(words.deep_view()[b]))),
        decreases item_names@.len() - i,
    {
        let name = item_names[i].as_str();
        let lname = to_lowercase(name);
        let mut j: usize = 0;
        while j < words.len()
            invariant
                i < item_names@.len(),
                j <= words@.len(),
                name@ == item_names.deep_view()[i as int],
                lname@ == lowercase(name@),
                forall|b: int| 0 <= b < j ==> !(contains_seq(name@, #[trigger] words.deep_view()[b])
                    || contains_seq(lowercase(name@), lowercase(words.deep_view()[b]))),
            decreases words@.len() - j,
        {
            let w = words[j].as_str();
            let lw = to_lowercase(w);
            proof {
                assert(w@ == words.deep_view()[j as int]);
            }
            if str_contains(name, w) || str_contains(lname.as_str(), lw.as_str()) {
                proof {
                    assert(contains_seq(item_names.deep_view()[i as int], words.deep_view()[j as int])
                        || contains_seq(lowercase(item_names.deep_view()[i as int]), lowercase(words.deep_view()[j as int])));
                }
                return true;
            }
            j += 1;
        }
        i += 1;
    }
    false
}

} // verus!
