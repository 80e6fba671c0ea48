use tender_agents::chunk::Chunk;
use tender_agents::strmap::StrMap;
use tender_agents::tools::detect_boilerplate::{DetectBoilerplateArgs, DetectBoilerplateTool};

fn make_chunk(id: &str, path: &[&str], text: &str) -> Chunk {
    Chunk {
        chunk_id: id.to_string(),
        section_path: path.iter().map(|s| s.to_string()).collect(),
        text: text.to_string(),
        page_start: 0,
        page_end: 1,
    }
}

fn make_tool() -> DetectBoilerplateTool {
    let mut map = StrMap::new();
    let order: Vec<String> = ["ch_001", "ch_002", "ch_003", "ch_010", "ch_020"]
        .iter()
        .map(|s| s.to_string())
        .collect();
    map.insert(
        "ch_001".to_string(),
        make_chunk(
            "ch_001",
            &["第一章", "总则"],
            "第一条 本招标文件适用于本次政府采购项目，采购人为某市财政局，项目名称为智慧城市信息化平台建设。",
        ),
    );
    map.insert(
        "ch_002".to_string(),
        make_chunk("ch_002", &["第二章", "投标人须知"], "详见附件三 资格证明文件。本项目不接受联合体投标。"),
    );
    map.insert(
        "ch_003".to_string(),
        make_chunk("ch_003", &["第二章", "联合体要求"], "本项目不适用，不要求联合体协议。"),
    );
    map.insert(
        "ch_010".to_string(),
        make_chunk("ch_010", &["附件三", "资格证明"], "附件三：资格证明文件清单..."),
    );
    map.insert(
        "ch_020".to_string(),
        make_chunk("ch_020", &["第四章", "技术参数"], "核心设备须满足以下技术参数..."),
    );
    DetectBoilerplateTool::new(map, order)
}

#[test]
fn test_extract_references_attachment() {
    let refs = DetectBoilerplateTool::extract_references("详见附件三 资格证明文件。详见附件五 供应商声明。");
    assert_eq!(refs.len(), 4);
    assert!(refs.iter().any(|(t, rt)| t.contains("三") && rt == "attachment"));
    assert!(refs.iter().any(|(t, rt)| t.contains("五") && rt == "attachment"));
}

#[test]
fn test_extract_references_section() {
    let refs = DetectBoilerplateTool::extract_references("按第3.2条执行，参照第四章第二节。");
    assert!(!refs.is_empty());
    assert!(refs.iter().any(|(t, _)| t.contains("3.2")));
}

#[test]
fn test_extract_references_no_refs() {
    let refs = DetectBoilerplateTool::extract_references("投标人须提供营业执照副本复印件。");
    assert!(refs.is_empty());
}

#[test]
fn test_is_target_present_true() {
    let tool = make_tool();
    assert!(DetectBoilerplateTool::is_target_present(&tool.chunks, &tool.chunk_order, "附件三", "attachment"));
}

#[test]
fn test_is_target_present_false() {
    let tool = make_tool();
    assert!(!DetectBoilerplateTool::is_target_present(&tool.chunks, &tool.chunk_order, "附件五", "attachment"));
}

#[test]
fn test_detect_superfluous_sections_not_applicable() {
    let tool = make_tool();
    let sections = DetectBoilerplateTool::detect_superfluous_sections(&tool.chunks, &tool.chunk_order);
    assert!(sections.iter().any(|s| s.chunk_id == "ch_003"));
}

#[test]
fn test_detect_superfluous_sections_no_false_positive() {
    let tool = make_tool();
    let sections = DetectBoilerplateTool::detect_superfluous_sections(&tool.chunks, &tool.chunk_order);
    assert!(!sections.iter().any(|s| s.chunk_id == "ch_001"));
}

#[test]
fn test_anomalous_entities_from_make_tool() {
    let tool = make_tool();
    let entities = DetectBoilerplateTool::detect_anomalous_entities(&tool.chunks, &tool.chunk_order);
    let _ = entities.len();
}

#[test]
fn anomalous_entities_flag_place_named_once() {
    let mut map = StrMap::new();
    map.insert(
        "c1".to_string(),
        make_chunk("c1", &["第一章"], "本项目服务地点为东莞市松山湖园区，供应商须提供驻场服务。"),
    );
    map.insert(
        "c2".to_string(),
        make_chunk("c2", &["第二章"], "项目实施地点位于东莞市，交付验收在东莞市完成，无其他要求。"),
    );
    let order = vec!["c1".to_string(), "c2".to_string()];
    let entities = DetectBoilerplateTool::detect_anomalous_entities(&map, &order);
    assert!(entities.iter().all(|e| e.entity_text != "东莞市"));
    assert!(entities.len() <= 20);
}

#[test]
fn execute_reports_dangling_attachment() {
    let tool = make_tool();
    let mut map = StrMap::new();
    let text = format!("{}详见附件五。", "本节内容说明投标要求。".repeat(6));
    map.insert("x".to_string(), make_chunk("x", &["第九章"], &text));
    let tool2 = DetectBoilerplateTool::new(map, vec!["x".to_string()]);
    let res = tool2.execute(&DetectBoilerplateArgs { chunk_ids: vec![] }).expect("扫描应成功");
    assert!(res.dangling_refs.iter().any(|d| d.chunk_id == "x" && d.ref_type == "attachment"));
    assert_eq!(res.stats.dangling_count, res.dangling_refs.len());
    let res = tool.execute(&DetectBoilerplateArgs { chunk_ids: vec!["ch_002".to_string()] }).unwrap();
    assert!(res.dangling_refs.is_empty());
    assert_eq!(tool.name(), "detect_boilerplate");
}
