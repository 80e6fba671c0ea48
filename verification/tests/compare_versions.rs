use tender_agents::chunk::Chunk;
use tender_agents::strmap::StrMap;
use tender_agents::tools::compare_versions::{
    CompareVersionsArgs, CompareVersionsTool, CurrentChunk, PreviousChunk,
};

fn make_chunk(id: &str, path: &[&str], text: &str) -> Chunk {
    Chunk {
        chunk_id: id.to_string(),
        section_path: path.iter().map(|s| s.to_string()).collect(),
        text: text.to_string(),
        page_start: 0,
        page_end: 1,
    }
}

fn make_tool() -> CompareVersionsTool {
    let mut map = StrMap::new();
    let order = vec!["ch_001".to_string(), "ch_002".to_string(), "ch_003".to_string()];
    map.insert(
        "ch_001".to_string(),
        make_chunk("ch_001", &["第一章", "资格条件"], "投标人须具有独立承担民事责任的能力，提供营业执照副本。"),
    );
    map.insert(
        "ch_002".to_string(),
        make_chunk("ch_002", &["第二章", "评分标准"], "价格分权重30%，技术分权重50%，商务分权重20%。"),
    );
    map.insert(
        "ch_003".to_string(),
        make_chunk("ch_003", &["第三章", "合同条款"], "预付款比例为合同金额的30%，质保金比例为3%。"),
    );
    CompareVersionsTool::new(map, order)
}

#[test]
fn test_lcs_diff_identical() {
    assert_eq!(CompareVersionsTool::lcs_diff("完全相同的文本", "完全相同的文本"), 0);
}

#[test]
fn test_lcs_diff_different() {
    let diff = CompareVersionsTool::lcs_diff("文本A", "文本B");
    assert!(diff > 0);
}

#[test]
fn test_detect_high_risk_qualification_change() {
    let prev = "投标人须具备建筑工程施工总承包二级及以上资质，且注册资金不低于500万元人民币。";
    let curr = "投标人须具备市政公用工程施工总承包特级资质证书，且净资产不低于5000万元人民币，同时需提供三年审计报告。";
    let risk = CompareVersionsTool::detect_high_risk(prev, curr);
    assert!(risk.is_some(), "资质变更应被检测到");
    assert_eq!(risk.unwrap().change_type, "qualification");
}

#[test]
fn test_detect_high_risk_scoring_change() {
    let prev = "价格分权重30%（采用最低价法），技术分权重50%，商务分权重20%。";
    let curr = "价格分权重60%（采用基准价法），技术分权重25%，商务分权重15%。";
    let risk = CompareVersionsTool::detect_high_risk(prev, curr);
    assert!(risk.is_some(), "评分变更应被检测到");
    assert_eq!(risk.unwrap().change_type, "scoring");
}

#[test]
fn test_detect_high_risk_no_change() {
    let prev = "本项目位于东莞市松山湖园区。";
    let curr = "本项目位于东莞市莞城街道。";
    let risk = CompareVersionsTool::detect_high_risk(prev, curr);
    assert!(risk.is_none());
}

#[test]
fn test_find_matching_chunk_exact_path() {
    let tool = make_tool();
    let found = tool.find_matching_chunk(
        &["第一章".to_string(), "资格条件".to_string()],
        "投标人须具有独立承担民事责任的能力",
    );
    assert!(found.is_some());
    assert_eq!(found.unwrap().chunk_id, "ch_001");
}

#[test]
fn test_find_matching_chunk_not_found() {
    let tool = make_tool();
    let found = tool.find_matching_chunk(&["附录".to_string(), "参考资料".to_string()], "不存在的内容");
    assert!(found.is_none());
}

#[test]
fn lcs_diff_counts_characters_outside_common_subsequence() {
    assert_eq!(CompareVersionsTool::lcs_diff("abc", "xyz"), 6);
    assert_eq!(CompareVersionsTool::lcs_diff("abcd", "abd"), 1);
    assert_eq!(CompareVersionsTool::lcs_diff("", "甲乙"), 2);
    assert_eq!(CompareVersionsTool::lcs_diff("文本A", "文本B"), 2);
}

#[test]
fn execute_classifies_added_removed_and_modified() {
    let tool = make_tool();
    let args = CompareVersionsArgs {
        previous_chunks: vec![
            PreviousChunk {
                chunk_id: "p1".to_string(),
                section_path: vec!["第一章".to_string(), "资格条件".to_string()],
                text: "投标人须具有独立承担民事责任的能力，提供营业执照副本。".to_string(),
            },
            PreviousChunk {
                chunk_id: "p9".to_string(),
                section_path: vec!["第九章".to_string(), "附则".to_string()],
                text: "本章已删除的条款内容。".to_string(),
            },
        ],
        current_chunks: vec![CurrentChunk {
            chunk_id: "ch_001".to_string(),
            section_path: vec!["第一章".to_string(), "资格条件".to_string()],
            text: "投标人须具有独立承担民事责任的能力，提供营业执照副本。".to_string(),
        }],
    };
    let result = tool.execute(&args).expect("对比应成功");
    assert_eq!(result.removed.len(), 1);
    assert_eq!(result.removed[0].chunk_id, "p9");
    assert_eq!(result.stats.removed_count, 1);
    assert_eq!(result.stats.unchanged_count, 1);
    assert_eq!(tool.name(), "compare_versions");
}

#[test]
fn execute_refuses_empty_previous_version() {
    let tool = make_tool();
    let args = CompareVersionsArgs { previous_chunks: vec![], current_chunks: vec![] };
    assert_eq!(tool.execute(&args).err(), Some("previous_chunks 不能为空".to_string()));
}
