use tender_agents::chunk::Chunk;
use tender_agents::strmap::StrMap;
use tender_agents::tools::check_cross_reference::{
    CheckCrossReferenceArgs, CheckCrossReferenceTool, RefStatus,
};

fn make_chunk(id: &str, path: &[&str], text: &str) -> Chunk {
    Chunk {
        chunk_id: id.to_string(),
        section_path: path.iter().map(|s| s.to_string()).collect(),
        text: text.to_string(),
        page_start: 0,
        page_end: 1,
    }
}

fn make_tool() -> CheckCrossReferenceTool {
    let mut chunks_map = StrMap::new();
    let chunk_order = vec![
        "ch_001".to_string(),
        "ch_002".to_string(),
        "ch_003".to_string(),
        "ch_010".to_string(),
        "ch_020".to_string(),
    ];
    chunks_map.insert(
        "ch_001".to_string(),
        make_chunk("ch_001", &["第一章", "总则"], "第一条 本招标文件适用于..."),
    );
    chunks_map.insert(
        "ch_002".to_string(),
        make_chunk("ch_002", &["第二章", "投标人须知"], "详见附件三 资格证明文件"),
    );
    chunks_map.insert(
        "ch_003".to_string(),
        make_chunk("ch_003", &["第三章", "评标办法"], "按第三章第二节执行"),
    );
    chunks_map.insert(
        "ch_010".to_string(),
        make_chunk("ch_010", &["附件三", "资格证明"], "附件三：资格证明文件清单..."),
    );
    chunks_map.insert(
        "ch_020".to_string(),
        make_chunk("ch_020", &["第三章", "第二节", "评分标准"], "第二节 评分标准细则..."),
    );
    CheckCrossReferenceTool::new(chunks_map, chunk_order)
}

#[test]
fn test_parse_reference_attachment() {
    let (ref_type, keywords) = CheckCrossReferenceTool::parse_reference("详见附件三", None);
    assert_eq!(ref_type, "attachment");
    assert!(keywords.iter().any(|k| k.contains("附件三")));
}

#[test]
fn test_parse_reference_section() {
    let (ref_type, keywords) = CheckCrossReferenceTool::parse_reference("按第三章第二节", None);
    assert_eq!(ref_type, "section");
    assert!(keywords.iter().any(|k| k.contains("第三章")));
}

#[test]
fn test_search_targets_found() {
    let tool = make_tool();
    let (ref_type, keywords) = CheckCrossReferenceTool::parse_reference("详见附件三", None);
    let candidates = tool.search_targets("详见附件三", &ref_type, &keywords);
    assert!(!candidates.is_empty());
    assert!(candidates.iter().any(|c| c.chunk_id == "ch_010"));
}

#[test]
fn test_search_targets_section_found() {
    let tool = make_tool();
    let (ref_type, keywords) = CheckCrossReferenceTool::parse_reference("第三章第二节", Some("section"));
    let candidates = tool.search_targets("第三章第二节", &ref_type, &keywords);
    assert!(!candidates.is_empty());
    assert!(candidates.iter().any(|c| c.chunk_id == "ch_020"));
}

#[test]
fn test_search_targets_dangling() {
    let tool = make_tool();
    let candidates = tool.search_targets("附件五 供应商声明", "attachment", &["附件五".to_string()]);
    assert!(candidates.is_empty());
}

#[test]
fn test_content_mismatch_detection() {
    let tool = make_tool();
    let (ref_type, keywords) = CheckCrossReferenceTool::parse_reference("附件三", Some("attachment"));
    let candidates = tool.search_targets("附件三", &ref_type, &keywords);
    assert!(!candidates.is_empty(), "应找到附件三");

    let target_text = tool.chunks.get(&candidates[0].chunk_id).unwrap();
    let has_tech_param = target_text.text.contains("技术参数");
    assert!(!has_tech_param, "附件三不应包含'技术参数'");
    assert!(target_text.text.contains("资格证明"));
}

#[test]
fn parse_reference_adds_arabic_numeral_keyword() {
    let (ref_type, keywords) = CheckCrossReferenceTool::parse_reference("第十二条", None);
    assert_eq!(ref_type, "clause");
    assert_eq!(keywords, vec!["第十二条".to_string(), "十二".to_string(), "12".to_string()]);
    let (_, keywords) = CheckCrossReferenceTool::parse_reference("二十", None);
    assert_eq!(keywords, vec!["二十".to_string(), "20".to_string()]);
    let (_, keywords) = CheckCrossReferenceTool::parse_reference("第十一条", None);
    assert_eq!(keywords[2], "11");
    let (ref_type, _) = CheckCrossReferenceTool::parse_reference("本条", None);
    assert_eq!(ref_type, "section");
    let (ref_type, keywords) = CheckCrossReferenceTool::parse_reference("见表格", None);
    assert_eq!(ref_type, "table");
    assert_eq!(keywords, vec!["见表格".to_string()]);
    let (ref_type, _) = CheckCrossReferenceTool::parse_reference("附录甲", None);
    assert_eq!(ref_type, "appendix");
    let (ref_type, _) = CheckCrossReferenceTool::parse_reference("上述内容", None);
    assert_eq!(ref_type, "clause");
}

#[test]
fn parse_reference_clause_has_number_and_clause_form() {
    let (ref_type, keywords) = CheckCrossReferenceTool::parse_reference("参照第3.2条", None);
    assert_eq!(ref_type, "clause");
    assert_eq!(
        keywords,
        vec!["参照第3.2条".to_string(), "3.2".to_string(), "第3.2条".to_string()]
    );
}

#[test]
fn parse_reference_adds_up_repeated_units() {
    let (_, keywords) = CheckCrossReferenceTool::parse_reference(&"百".repeat(10), None);
    assert_eq!(keywords[1], "1000");
}

#[test]
fn execute_reports_dangling_reference() {
    let tool = make_tool();
    let result = tool.execute(&CheckCrossReferenceArgs {
        source_chunk: "ch_002".to_string(),
        reference_expression: "附件五".to_string(),
        reference_type: Some("attachment".to_string()),
        reference_claims: vec![],
    });
    assert_eq!(result.status, RefStatus::Dangling);
    assert!(result.target_chunk.is_none());
    assert!(result.candidates.is_empty());
}

#[test]
fn execute_finds_attachment_target() {
    let tool = make_tool();
    let result = tool.execute(&CheckCrossReferenceArgs {
        source_chunk: "ch_002".to_string(),
        reference_expression: "附件三".to_string(),
        reference_type: Some("attachment".to_string()),
        reference_claims: vec!["资格证明".to_string()],
    });
    assert_ne!(result.status, RefStatus::Dangling);
    assert!(result.candidates.iter().any(|c| c.chunk_id == "ch_010"));
    assert_eq!(tool.name(), "check_cross_reference");
}
