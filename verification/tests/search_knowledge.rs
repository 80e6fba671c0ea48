use tender_agents::tools::search_knowledge::{is_relevant_result, normalize_query, MockKnowledgeSearch};
use tender_agents::tools::search_knowledge::{is_fresh, CachedLaw, LawCacheIndex, DEFAULT_TTL};

#[test]
fn blocked_sites_are_not_relevant() {
    assert!(!is_relevant_result("https://www.reddit.com/r/law", "政府采购法第二十二条规定的供应商条件"));
    assert!(!is_relevant_result("https://apple.com/x", "政府采购法第二十二条规定的供应商条件"));
}

#[test]
fn short_or_foreign_snippets_are_not_relevant() {
    assert!(!is_relevant_result("https://www.ccgp.gov.cn/a", "太短的摘要"));
    assert!(!is_relevant_result("https://example.com/a", "an english snippet about cooking"));
    assert!(is_relevant_result("https://example.com/a", "an english snippet about government buying"));
    assert!(is_relevant_result("https://www.ccgp.gov.cn/a", "an english snippet about cooking"));
    assert!(is_relevant_result("https://example.com/a", "政府采购法第二十二条规定的供应商条件"));
}

#[test]
fn query_normal_form_drops_punctuation_and_spaces() {
    assert_eq!(normalize_query("不接受联合体, 禁止-政府采购", "law"), "law|不接受联合体 禁止政府采购");
    assert_eq!(normalize_query("  Hello,   World!  ", "case"), "case|hello world");
    assert_eq!(
        normalize_query("不接受联合体  禁止政府采购", "law"),
        normalize_query("不接受联合体, 禁止-政府采购", "law")
    );
    assert_eq!(normalize_query("", "x"), "x|");
}

#[test]
fn mock_search_returns_one_fixed_hit() {
    let hit = MockKnowledgeSearch.search("联合体", "法规");
    assert_eq!(hit.title, "Mock 搜索结果 — 法规: 联合体");
    assert_eq!(hit.snippet, "Mock 搜索引擎返回。实际部署时调用 SearXNG 搜索 '联合体'。");
    assert_eq!(hit.url, "https://example.com/mock-result");
}

#[test]
fn parse_search_sse_joins_answer_and_takes_first_sources() {
    let body = "data:{\"output\":{\"search_info\":{\"search_results\":[{\"title\":\"政府采购法\",\"url\":\"https://www.gov.cn/a\",\"site_name\":\"中国政府网\"}]},\"choices\":[{\"message\":{\"content\":\"根据\"}}]}}\n\
data: {\"output\":{\"search_info\":{\"search_results\":[]},\"choices\":[{\"message\":{\"content\":\"第十条\"}}]}}\n\
data:not json\n\
\n\
data:[DONE]\n";
    let r = tender_agents::tools::search_knowledge::parse_search_sse(body);
    assert_eq!(r.answer, "根据第十条");
    assert_eq!(r.sources.len(), 1);
    assert_eq!(r.sources[0].title, "政府采购法");
    assert_eq!(r.sources[0].site_name, "中国政府网");
}

#[test]
fn parse_search_sse_notes_sources_without_answer() {
    let body = "data:{\"output\":{\"search_info\":{\"search_results\":[{\"title\":\"a\",\"url\":\"u\"},{\"title\":\"b\"}]}}}\n";
    let r = tender_agents::tools::search_knowledge::parse_search_sse(body);
    assert_eq!(r.sources.len(), 2);
    assert_eq!(r.sources[1].url, "");
    assert_eq!(r.answer, "搜索到 2 条相关结果，详见来源链接。");
}

#[test]
fn law_cache_index_expires_entries() {
    assert_eq!(DEFAULT_TTL, 30 * 24 * 3600);
    assert!(is_fresh(100, 50, 51));
    assert!(!is_fresh(100, 50, 50));
    let mut idx = LawCacheIndex::new();
    idx.put("政府采购法".to_string(), 7, 1000);
    assert_eq!(idx.get("政府采购法", 1000 + DEFAULT_TTL - 1), Some(7));
    assert_eq!(idx.get("政府采购法", 1000 + DEFAULT_TTL), None);
    assert_eq!(idx.get("其他", 1000), None);
    assert!(idx.load_entry("a".to_string(), CachedLaw { result_id: 1, created_at: 0, ttl_seconds: 10 }, 5));
    assert!(!idx.load_entry("b".to_string(), CachedLaw { result_id: 2, created_at: 0, ttl_seconds: 10 }, 10));
    assert_eq!(idx.get("a", 5), Some(1));
    assert_eq!(idx.get("b", 5), None);
}
