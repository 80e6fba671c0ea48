use tender_agents::chunk::Chunk;
use tender_agents::session_graph::SessionGraph;
use tender_agents::strmap::StrMap;
use tender_agents::tools::search_contradiction::{
    ContradictionType, SearchContradictionArgs, SearchContradictionTool,
};

fn make_chunk(id: &str, text: &str) -> Chunk {
    Chunk {
        chunk_id: id.to_string(),
        section_path: vec!["测试".to_string()],
        text: text.to_string(),
        page_start: 0,
        page_end: 1,
    }
}

#[test]
fn test_implicit_upgrade_detected() {
    let a = make_chunk("ch_A", "投标人须具备二级及以上资质");
    let b = make_chunk("ch_B", "具有一级资质的投标人额外加分");
    let result = SearchContradictionTool::compare_pair(&a, &b);
    assert!(result.is_some());
    assert!(matches!(result.unwrap().0, ContradictionType::ImplicitUpgrade));
}

#[test]
fn test_logic_conflict_joint_venture() {
    let a = make_chunk("ch_A", "本项目不接受联合体投标");
    let b = make_chunk("ch_B", "联合体各方须承担连带责任");
    let result = SearchContradictionTool::compare_pair(&a, &b);
    assert!(result.is_some());
    assert!(matches!(result.unwrap().0, ContradictionType::LogicConflict));
}

#[test]
fn test_no_contradiction_for_similar_clauses() {
    let a = make_chunk("ch_A", "投标人须具备建筑工程施工总承包资质");
    let b = make_chunk("ch_B", "投标人须具备有效的安全生产许可证");
    let result = SearchContradictionTool::compare_pair(&a, &b);
    assert!(result.is_none());
}

#[test]
fn test_data_inconsistency() {
    let a = make_chunk("ch_A", "合同金额为500万元，履约保证金为50万元");
    let b = make_chunk("ch_B", "合同金额为480万元，履约保证金为48万元");
    let result = SearchContradictionTool::compare_pair(&a, &b);
    assert!(result.is_some());
    assert!(matches!(result.unwrap().0, ContradictionType::DataInconsistency));
}

#[test]
fn contradiction_type_names_round_trip() {
    for t in [
        ContradictionType::ImplicitUpgrade,
        ContradictionType::DanglingReference,
        ContradictionType::DataInconsistency,
        ContradictionType::LogicConflict,
        ContradictionType::NoContradiction,
    ] {
        assert_eq!(ContradictionType::from_str(t.as_str()), t);
    }
    assert_eq!(ContradictionType::from_str("unknown"), ContradictionType::NoContradiction);
    assert_eq!(ContradictionType::ImplicitUpgrade.as_str(), "implicit_upgrade");
}

#[test]
fn keyword_checks_detect_conflict_and_equal_amounts() {
    assert!(SearchContradictionTool::check_logic_conflict("不接受联合体投标", "联合体协议").is_some());
    assert!(SearchContradictionTool::check_logic_conflict("普通条款", "另一条款").is_none());
    assert!(SearchContradictionTool::check_data_inconsistency("金额为500万元", "金额为500万元").is_none());
}

fn tool() -> SearchContradictionTool {
    let mut chunks = StrMap::new();
    chunks.insert("ch_A".to_string(), make_chunk("ch_A", "本项目不接受联合体投标"));
    chunks.insert("ch_B".to_string(), make_chunk("ch_B", "联合体各方须承担连带责任"));
    SearchContradictionTool::new(chunks, vec!["ch_A".to_string(), "ch_B".to_string()])
}

#[test]
fn execute_refuses_unknown_chunk() {
    let t = tool();
    let r = t.execute(&SearchContradictionArgs { clause_a: "ch_X".to_string(), clause_b: None });
    assert_eq!(r.err(), Some("chunk_id 不存在: ch_X".to_string()));
}

#[test]
fn execute_recorded_writes_contradiction_edge_both_ways() {
    let t = tool();
    let mut graph = SessionGraph::new();
    let res = t
        .execute_recorded(
            &SearchContradictionArgs { clause_a: "ch_A".to_string(), clause_b: Some("ch_B".to_string()) },
            &mut graph,
        )
        .expect("两条款均存在");
    assert_eq!(res.contradiction_type, ContradictionType::LogicConflict);
    assert_eq!(graph.query_contradictions("ch_A").len(), 1);
    assert_eq!(graph.query_contradictions("ch_B")[0].0, "ch_A");
    assert_eq!(t.name(), "search_contradiction");
}
