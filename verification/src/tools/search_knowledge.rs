//! The rule-based parts of the knowledge search: the arguments and results of
//! the search tools, the relevance filter of search hits, the normal form
//! of a query under which equal searches are shared, and the offline
//! search backend.
use vstd::prelude::*;

use crate::text::{
    alphanumeric, chars_of, contains_seq, has_char, is_alphanumeric, is_cjk, is_white, is_whitespace, lowercase,
    push_str, str_contains, string_from_chars, to_lowercase, to_owned_string, all_white, decimal, decimal_string,
    char_count, is_blank, push_char, str_eq, trim_seq, trim_string,
};
use crate::strmap::StrMap;
use crate::testing::{lines_of, text_lines};
use crate::tools::keywords::{any_hit, any_keyword, strs};

verus! {

/// The arguments of the web search (a natural-language question).
pub struct WebSearchArgs {
    /// The full question: what to look up and why.
    pub question: String,
    /// The kind of source: laws, cases, negative lists, model texts, past
    /// reviews (may be empty).
    pub search_context: String,
}

/// The arguments of the keyword search.
pub struct SearchKnowledgeArgs {
    pub query: String,
    pub category: String,
}

/// A source cited by the web search.
pub struct WebSource {
    pub title: String,
    pub url: String,
    pub site_name: String,
}

/// The answer of the web search with its sources.
pub struct WebSearchResult {
    /// The answer composed from the search results.
    pub answer: String,
    pub sources: Vec<WebSource>,
}

/// The content of a source: title, address, site.
pub type WebSourceView = (Seq<char>, Seq<char>, Seq<char>);

impl DeepView for WebSource {
    type V = WebSourceView;

    open spec fn deep_view(&self) -> WebSourceView {
        (self.title@, self.url@, self.site_name@)
    }
}

/// One event of the search stream: the sources of its search information
/// (present when the event carries a search-information object), and the
/// piece of the answer it carries.
pub struct SseEvent {
    pub search_results: Option<Vec<WebSource>>,
    pub content: Option<String>,
}

/// The content of a stream event.
pub type SseEventView = (Option<Seq<WebSourceView>>, Option<Seq<char>>);

impl DeepView for SseEvent {
    type V = SseEventView;

    open spec fn deep_view(&self) -> SseEventView {
        (self.search_results.deep_view(), self.content.deep_view())
    }
}

/// What `serde_json` reads from the data of one stream event: `None` where
/// it is no JSON; else the sources listed under
/// `output.search_info.search_results` (when `output.search_info` is an
/// object; an empty list where that field is no array), each with its
/// `title`, `url` and `site_name` strings ("" where absent), and the string
/// at `output.choices[0].message.content`.
pub uninterp spec fn sse_event(data: Seq<char>) -> Option<SseEventView>;

/// Reads the data of one stream event with `serde_json::from_str` and takes
/// the search sources and the answer piece from it.
#[verifier::external_body]
fn parse_sse_event(data: &str) -> (r: Option<SseEvent>)
    ensures
        r.deep_view() == sse_event(data@),
{
    let chunk = serde_json::from_str::<serde_json::Value>(data).ok()?;
    let search_results = chunk["output"]["search_info"].as_object().map(|si| {
        si.get("search_results").and_then(|a| a.as_array()).map(|arr| arr.iter().map(|item| WebSource {
            title: item["title"].as_str().unwrap_or("").to_string(),
            url: item["url"].as_str().unwrap_or("").to_string(),
            site_name: item["site_name"].as_str().unwrap_or("").to_string(),
        }).collect()).unwrap_or_default()
    });
    let content = chunk["output"]["choices"][0]["message"]["content"].as_str().map(|c| c.to_string());
    Some(SseEvent { search_results, content })
}

/// The data of a stream line: the trimmed line after "data:", trimmed
/// again, unless the line is blank, is "data:[DONE]", has no "data:" in
/// front, or has no data.
pub open spec fn sse_data(line: Seq<char>) -> Option<Seq<char>> {
    let t = trim_seq(line);
    if t.len() == 0 || t == "data:[DONE]"@ {
        None
    } else if t.len() >= 5 && t.subrange(0, 5) == "data:"@ {
        let d = trim_seq(t.subrange(5, t.len() as int));
        if d.len() == 0 {
            None
        } else {
            Some(d)
        }
    } else {
        None
    }
}

/// After the lines `ls`: the sources of the first event with search
/// information, and the answer pieces joined in order.
pub open spec fn sse_fold(ls: Seq<Seq<char>>) -> (Option<Seq<WebSourceView>>, Seq<char>)
    decreases ls.len(),
{
    if ls.len() == 0 {
        (None, Seq::empty())
    } else {
        let (si, ans) = sse_fold(ls.drop_last());
        match sse_data(ls.last()) {
            None => (si, ans),
            Some(d) => match sse_event(d) {
                None => (si, ans),
                Some((esi, ec)) => (
                    if si is None && esi is Some {
                        esi
                    } else {
                        si
                    },
                    match ec {
                        Some(c) => ans + c,
                        None => ans,
                    },
                ),
            },
        }
    }
}

/// The answer and sources of a search stream: the joined answer pieces and
/// the first sources; where the answer is blank but sources exist, a note
/// of how many were found.
pub open spec fn sse_result(body: Seq<char>) -> (Seq<char>, Seq<WebSourceView>) {
    let (si, ans) = sse_fold(text_lines(body));
    let srcs = match si {
        Some(x) => x,
        None => Seq::empty(),
    };
    if all_white(ans) && srcs.len() > 0 {
        ("搜索到 "@ + decimal(srcs.len()) + " 条相关结果，详见来源链接。"@, srcs)
    } else {
        (ans, srcs)
    }
}

/// The data of one stream line, as `sse_data` says.
fn sse_data_exec(line: &str) -> (r: Option<String>)
    ensures
        r.deep_view() == sse_data(line@),
{
    let t = trim_string(line);
    if char_count(t.as_str()) == 0 || str_eq(t.as_str(), "data:[DONE]") {
        return None;
    }
    let v = chars_of(t.as_str());
    proof {
        reveal_strlit("data:");
    }
    if v.len() >= 5 && v[0] == 'd' && v[1] == 'a' && v[2] == 't' && v[3] == 'a' && v[4] == ':' {
        proof {
            assert(t@.subrange(0, 5) =~= "data:"@);
        }
        let mut rest = String::new();
        let mut i: usize = 5;
        while i < v.len()
            invariant
                5 <= i <= v@.len(),
                v@ == t@,
                rest@ == v@.subrange(5, i as int),
            decreases v@.len() - i,
        {
            push_char(&mut rest, v[i]);
            proof {
                assert(v@.subrange(5, i + 1) =~= v@.subrange(5, i as int).push(v@[i as int]));
            }
            i += 1;
        }
        let d = trim_string(rest.as_str());
        if char_count(d.as_str()) == 0 {
            None
        } else {
            Some(d)
        }
    } else {
        proof {
            if t@.len() >= 5 && t@.subrange(0, 5) == "data:"@ {
                assert(t@.subrange(0, 5)[0] == 'd');
                assert(t@.subrange(0, 5)[1] == 'a');
                assert(t@.subrange(0, 5)[2] == 't');
                assert(t@.subrange(0, 5)[3] == 'a');
                assert(t@.subrange(0, 5)[4] == ':');
            }
        }
        None
    }
}

/// The answer and the sources of a search stream (the body of the search
/// reply), as `sse_result` says.
pub fn parse_search_sse(body: &str) -> (r: WebSearchResult)
    ensures
        (r.answer@, r.sources.deep_view()) == sse_result(body@),
{
    let lines = lines_of(body);
    let ghost ls = lines.deep_view();
    let mut sources: Option<Vec<WebSource>> = None;
    let mut answer = String::new();
    let mut i: usize = 0;
    while i < lines.len()
        invariant
            i <= ls.len(),
            ls == lines.deep_view(),
            ls == text_lines(body@),
            (sources.deep_view(), answer@) == sse_fold(ls.take(i as int)),
        decreases ls.len() - i,
    {
        proof {
            assert(ls.take(i + 1).drop_last() =~= ls.take(i as int));
            assert(ls.take(i + 1).last() == lines@[i as int]@);
        }
        match sse_data_exec(lines[i].as_str()) {
            Some(d) => {
                match parse_sse_event(d.as_str()) {
                    Some(ev) => {
                        let SseEvent { search_results, content } = ev;
                        if sources.is_none() && search_results.is_some() {
                            sources = search_results;
                        }
                        match content {
                            Some(c) => push_str(&mut answer, c.as_str()),
                            None => {},
                        }
                    },
                    None => {},
                }
            },
            None => {},
        }
        i += 1;
    }
    proof {
        assert(ls.take(ls.len() as int) =~= ls);
    }
    let srcs: Vec<WebSource> = match sources {
        Some(x) => x,
        None => Vec::new(),
    };
    proof {
        if sources is None {
            assert(srcs.deep_view() =~= Seq::<WebSourceView>::empty());
        }
    }
    if is_blank(answer.as_str()) && srcs.len() > 0 {
        let mut note = to_owned_string("搜索到 ");
        push_str(&mut note, decimal_string(srcs.len() as u64).as_str());
        push_str(&mut note, " 条相关结果，详见来源链接。");
        WebSearchResult { answer: note, sources: srcs }
    } else {
        WebSearchResult { answer, sources: srcs }
    }
}

/// Sites whose pages are never relevant.
pub open spec fn blocked_sites() -> Seq<Seq<char>> {
    seq![
        "google.com/accounts"@,
        "google.com/signin"@,
        "accounts.google"@,
        "apple.com"@,
        "discussions.apple"@,
        "reddit.com"@,
        "forbes.com"@,
        "wikihow.com"@,
        "gmail.com"@,
        "inbodyusa"@,
        "malwaretips"@,
    ]
}

/// The blocked sites, as text.
fn blocked_site_list() -> (r: Vec<&'static str>)
    ensures
        strs(r@) == blocked_sites(),
{
    let mut v: Vec<&'static str> = Vec::new();
    v.push("google.com/accounts");
    v.push("google.com/signin");
    v.push("accounts.google");
    v.push("apple.com");
    v.push("discussions.apple");
    v.push("reddit.com");
    v.push("forbes.com");
    v.push("wikihow.com");
    v.push("gmail.com");
    v.push("inbodyusa");
    v.push("malwaretips");
    proof {
        assert(strs(v@) =~= blocked_sites());
    }
    v
}

/// Whether `s` holds a CJK ideograph.
pub open spec fn has_cjk(s: Seq<char>) -> bool {
    exists|i: int| 0 <= i < s.len() && is_cjk(#[trigger] s[i])
}

/// A search hit is kept when its address is on no blocked site, its
/// snippet has at least ten characters, and the snippet is Chinese or the
/// hit is about government procurement.
pub open spec fn relevant(url: Seq<char>, snippet: Seq<char>) -> bool {
    &&& !any_hit(url, blocked_sites())
    &&& snippet.len() >= 10
    &&& (has_cjk(snippet) || contains_seq(snippet, "procurement"@) || contains_seq(snippet, "government"@)
        || contains_seq(url, "gov.cn"@) || contains_seq(url, "gov."@))
}

/// Whether a search hit is relevant, as `relevant` says.
pub fn is_relevant_result(url: &str, snippet: &str) -> (r: bool)
    ensures
        r == relevant(url@, snippet@),
{
    let u = chars_of(url);
    if any_keyword(&u, &blocked_site_list()) {
        return false;
    }
    let s = chars_of(snippet);
    if s.len() < 10 {
        return false;
    }
    let mut cjk = false;
    let mut i: usize = 0;
    while i < s.len()
        invariant
            i <= s@.len(),
            cjk <==> exists|j: int| 0 <= j < i && is_cjk(#[trigger] s@[j]),
        decreases s@.len() - i,
    {
        if '\u{4e00}' <= s[i] && s[i] <= '\u{9fff}' {
            cjk = true;
        }
        i += 1;
    }
    cjk || str_contains(snippet, "procurement") || str_contains(snippet, "government") || str_contains(url, "gov.cn")
        || str_contains(url, "gov.")
}

/// The characters of `s` that are letters, digits or white space.
pub open spec fn kept_chars(s: Seq<char>) -> Seq<char> {
    s.filter(|c: char| alphanumeric(c) || is_white(c))
}

/// The words of the first `n` characters of `s` joined by single spaces,
/// and whether a space is owed before the next word.
pub open spec fn squeeze_state(s: Seq<char>, n: int) -> (Seq<char>, bool)
    decreases n,
{
    if n <= 0 {
        (Seq::empty(), false)
    } else {
        let (o, p) = squeeze_state(s, n - 1);
        let c = s[n - 1];
        if is_white(c) {
            (o, o.len() > 0)
        } else if p {
            (o.push(' ').push(c), false)
        } else {
            (o.push(c), false)
        }
    }
}

/// The words of `s` joined by single spaces
/// (`s.split_whitespace().collect::<Vec<_>>().join(" ")`).
pub open spec fn squeeze(s: Seq<char>) -> Seq<char> {
    squeeze_state(s, s.len() as int).0
}

/// The key under which a search is shared: the category, a bar, and the
/// query without punctuation, its words joined by single spaces, lower-cased.
pub open spec fn query_key(query: Seq<char>, category: Seq<char>) -> Seq<char> {
    category + "|"@ + lowercase(squeeze(kept_chars(query)))
}

/// The key under which a search is shared, as `query_key` says.
pub fn normalize_query(query: &str, category: &str) -> (r: String)
    ensures
        r@ == query_key(query@, category@),
{
    let q = chars_of(query);
    let mut kept: Vec<char> = Vec::new();
    let mut i: usize = 0;
    while i < q.len()
        invariant
            i <= q@.len(),
            q@ == query@,
            kept@ == kept_chars(q@.take(i as int)),
        decreases q@.len() - i,
    {
        let c = q[i];
        proof {
            assert(q@.take(i + 1) =~= q@.take(i as int).push(c));
            q@.take(i as int).lemma_filter_push(c, |c: char| alphanumeric(c) || is_white(c));
        }
        if is_alphanumeric(c) || is_whitespace(c) {
            kept.push(c);
        }
        i += 1;
    }
    proof {
        assert(q@.take(q@.len() as int) =~= q@);
    }
    let mut out: Vec<char> = Vec::new();
    let mut pending = false;
    let mut j: usize = 0;
    while j < kept.len()
        invariant
            j <= kept@.len(),
            (out@, pending) == squeeze_state(kept@, j as int),
        decreases kept@.len() - j,
    {
        let c = kept[j];
        if is_whitespace(c) {
            pending = out.len() > 0;
        } else {
            if pending {
                out.push(' ');
            }
            out.push(c);
            pending = false;
        }
        j += 1;
    }
    let words = string_from_chars(&out);
    let mut r = to_owned_string(category);
    push_str(&mut r, "|");
    push_str(&mut r, to_lowercase(words.as_str()).as_str());
    r
}

/// The offline search backend, for tests and runs without a network.
pub struct MockKnowledgeSearch;

/// A hit of the offline backend: title, snippet, address.
pub struct MockHit {
    pub title: String,
    pub snippet: String,
    pub url: String,
}

impl MockKnowledgeSearch {
    /// The single hit the offline backend gives for any query.
    pub fn search(&self, query: &str, category: &str) -> (r: MockHit)
        ensures
            r.title@ == "Mock 搜索结果 — "@ + category@ + ": "@ + query@,
            r.snippet@ == "Mock 搜索引擎返回。实际部署时调用 SearXNG 搜索 '"@ + query@ + "'。"@,
            r.url@ == "https://example.com/mock-result"@,
    {
        let mut title = to_owned_string("Mock 搜索结果 — ");
        push_str(&mut title, category);
        push_str(&mut title, ": ");
        push_str(&mut title, query);
        let mut snippet = to_owned_string("Mock 搜索引擎返回。实际部署时调用 SearXNG 搜索 '");
        push_str(&mut snippet, query);
        push_str(&mut snippet, "'。");
        MockHit { title, snippet, url: to_owned_string("https://example.com/mock-result") }
    }
}

/// How long a cached law search stays valid: 30 days, in seconds.
pub const DEFAULT_TTL: u64 = 2592000;

/// A cached search written at `created_at` with lifetime `ttl` is still
/// valid at `now` (all in Unix seconds).
pub open spec fn fresh(now: u64, created_at: u64, ttl: u64) -> bool {
    now - created_at < ttl
}

/// Whether a cached search is still valid, as `fresh` says.
pub fn is_fresh(now: u64, created_at: u64, ttl: u64) -> (r: bool)
    requires
        created_at <= now,
    ensures
        r == fresh(now, created_at, ttl),
{
    now - created_at < ttl
}

/// A cached law search: the id under which its results are kept, when it
/// was written and how long it lives.
#[derive(Debug, Clone, Copy, PartialEq, Eq, Structural)]
pub struct CachedLaw {
    pub result_id: u64,
    pub created_at: u64,
    pub ttl_seconds: u64,
}

/// The index of the law cache: normalised query → cached search.
pub struct LawCacheIndex {
    items: StrMap<CachedLaw>,
    /// The lifetime given to new entries.
    default_ttl: u64,
}

impl LawCacheIndex {
    /// The cached searches by query.
    pub closed spec fn entries(&self) -> Map<Seq<char>, CachedLaw> {
        self.items@
    }

    /// The lifetime given to new entries.
    pub closed spec fn ttl(&self) -> u64 {
        self.default_ttl
    }

    /// The index is well formed.
    pub closed spec fn wf(&self) -> bool {
        self.items.wf()
    }

    /// An empty index whose entries live `DEFAULT_TTL` seconds.
    pub fn new() -> (r: Self)
        ensures
            r.wf(),
            r.entries() == Map::<Seq<char>, CachedLaw>::empty(),
            r.ttl() == DEFAULT_TTL,
    {
        LawCacheIndex { items: StrMap::new(), default_ttl: DEFAULT_TTL }
    }

    /// Keeps a stored entry read back from disk if it is still valid at
    /// `now` (a later entry for the same query replaces an earlier one);
    /// returns whether it was kept.
    pub fn load_entry(&mut self, key: String, item: CachedLaw, now: u64) -> (kept: bool)
        requires
            old(self).wf(),
            item.created_at <= now,
        ensures
            final(self).wf(),
            final(self).ttl() == old(self).ttl(),
            kept == fresh(now, item.created_at, item.ttl_seconds),
            final(self).entries() == if kept {
                old(self).entries().insert(key@, item)
            } else {
                old(self).entries()
            },
    {
        if is_fresh(now, item.created_at, item.ttl_seconds) {
            self.items.insert(key, item);
            true
        } else {
            false
        }
    }

    /// The id of the results cached for `key`, if present and still valid
    /// at `now`.
    pub fn get(&self, key: &str, now: u64) -> (r: Option<u64>)
        requires
            self.wf(),
            self.entries().dom().contains(key@) ==> self.entries()[key@].created_at <= now,
        ensures
            r == (if self.entries().dom().contains(key@) && fresh(now, self.entries()[key@].created_at, self.entries()[key@].ttl_seconds) {
                Some(self.entries()[key@].result_id)
            } else {
                None
            }),
    {
        match self.items.get(key) {
            Some(item) => {
                if is_fresh(now, item.created_at, item.ttl_seconds) {
                    Some(item.result_id)
                } else {
                    None
                }
            },
            None => None,
        }
    }

    /// Caches the results `result_id` for `key`, written at `now` with the
    /// default lifetime.
    pub fn put(&mut self, key: String, result_id: u64, now: u64)
        requires
            old(self).wf(),
        ensures
            final(self).wf(),
            final(self).ttl() == old(self).ttl(),
            final(self).entries() == old(self).entries().insert(
                key@,
                CachedLaw { result_id, created_at: now, ttl_seconds: old(self).ttl() },
            ),
    {
        let ttl = self.default_ttl;
        self.items.insert(key, CachedLaw { result_id, created_at: now, ttl_seconds: ttl });
    }
}

} // verus!
