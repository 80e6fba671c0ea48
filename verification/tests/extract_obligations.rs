use tender_agents::chunk::Chunk;
use tender_agents::strmap::StrMap;
use tender_agents::tools::extract_obligations::{ExtractObligationsArgs, ExtractObligationsTool, Obligation};

fn make_chunk(id: &str, text: &str) -> Chunk {
    Chunk {
        chunk_id: id.to_string(),
        section_path: vec!["第一章".to_string(), "投标人资格".to_string()],
        text: text.to_string(),
        page_start: 0,
        page_end: 1,
    }
}

fn make_tool() -> ExtractObligationsTool {
    let mut chunks = StrMap::new();
    let chunk_order = vec!["ch_001".to_string(), "ch_002".to_string()];
    chunks.insert(
        "ch_001".to_string(),
        make_chunk(
            "ch_001",
            "投标人须具备建筑工程施工总承包一级及以上资质。\
             项目经理须持有建筑工程专业一级注册建造师证书，\
             且具有5年以上同类项目管理经验。\
             ★ 核心设备须为自有，提供购置发票。",
        ),
    );
    chunks.insert(
        "ch_002".to_string(),
        make_chunk(
            "ch_002",
            "付款方式：合同签订后支付30%预付款，\
             验收合格后支付至合同金额的95%，\
             剩余5%作为质保金，质保期满后30日内无息退还。",
        ),
    );
    ExtractObligationsTool::new(chunks, chunk_order)
}

fn obligation(kind: &str, text: &str) -> Obligation {
    Obligation {
        obligation_type: kind.to_string(),
        chunk_id: "ch_001".to_string(),
        section_path: vec![],
        text: text.to_string(),
        is_star_marked: false,
        consequence_of_failure: None,
    }
}

#[test]
fn test_extract_qualifications() {
    let tool = make_tool();
    let obs = tool.extract_from_text(
        "投标人须具备建筑工程施工总承包一级及以上资质。\
         项目经理须持有建筑工程专业一级注册建造师证书。",
        "ch_001",
        &["资格".to_string()],
        &["资质".to_string()],
    );
    assert!(!obs.is_empty());
    assert!(obs.iter().any(|o| o.text.contains("施工总承包")));
}

#[test]
fn test_star_mark_detection() {
    let tool = make_tool();
    let obs = tool.extract_from_text("★ 核心设备须为自有，提供购置发票。", "ch_001", &[], &["设备".to_string()]);
    assert!(!obs.is_empty());
    assert!(obs[0].is_star_marked);
}

#[test]
fn test_risk_signals_triple_exclusion() {
    let obligations = vec![
        obligation("资质", "须具备一级资质"),
        obligation("人员", "须持有一级建造师"),
        obligation("设备", "须自有核心设备"),
    ];
    let signals = ExtractObligationsTool::detect_risk_signals(&obligations);
    assert!(!signals.is_empty());
    assert!(signals.iter().any(|s| s.contains("三合一")));
}

#[test]
fn test_no_false_positive_for_normal_clauses() {
    let tool = make_tool();
    let obs = tool.extract_from_text(
        "本项目位于东莞市松山湖园区，工期为合同签订后60个日历日。",
        "ch_003",
        &[],
        &["工期".to_string()],
    );
    assert!(!obs.is_empty());
}

#[test]
fn no_signal_without_all_three_kinds() {
    let obligations = vec![obligation("资质", "须具备一级资质"), obligation("人员", "须持有一级建造师")];
    let signals = ExtractObligationsTool::detect_risk_signals(&obligations);
    assert!(signals.iter().all(|s| !s.contains("三合一")));
}

#[test]
fn execute_scans_whole_document() {
    let tool = make_tool();
    let result = tool.execute(&ExtractObligationsArgs {
        scope: "full_document".to_string(),
        obligation_types: vec![],
        clause_ids: vec![],
        agent_id: None,
    });
    assert_eq!(result.total_chunks, 2);
    assert_eq!(result.scanned_count, 2);
    assert!(result.star_marked_count >= 1);
    assert_eq!(
        result.star_marked_count,
        result.obligations.iter().filter(|o| o.is_star_marked).count()
    );
    assert!(!result.summary.is_empty());
    assert_eq!(tool.name(), "extract_obligations");
}
