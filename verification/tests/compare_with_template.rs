use tender_agents::chunk::Chunk;
use tender_agents::strmap::StrMap;
use tender_agents::tools::compare_with_template::{
    ChunkTextProvider, CompareWithTemplateArgs, CompareWithTemplateTool, TemplateStore,
};

fn provider_with(id: &str, text: &str) -> ChunkTextProvider {
    let mut chunks = StrMap::new();
    chunks.insert(
        id.to_string(),
        Chunk {
            chunk_id: id.to_string(),
            section_path: vec!["测试".to_string()],
            text: text.to_string(),
            page_start: 0,
            page_end: 1,
        },
    );
    ChunkTextProvider::new(chunks)
}

#[test]
fn test_contains_item_exact() {
    assert!(CompareWithTemplateTool::contains_item(
        "供应商应具有独立承担民事责任的能力",
        "具有独立承担民事责任的能力"
    ));
}

#[test]
fn test_contains_item_partial() {
    assert!(CompareWithTemplateTool::contains_item(
        "投标人须具有良好的商业信誉和完善的财务会计制度",
        "具有良好的商业信誉和健全的财务会计制度"
    ));
}

#[test]
fn test_contains_item_missing() {
    assert!(!CompareWithTemplateTool::contains_item("供应商须提供营业执照", "具有独立承担民事责任的能力"));
}

#[test]
fn test_contains_forbidden_regex() {
    assert!(CompareWithTemplateTool::contains_forbidden("投标人须在东莞市设有常驻服务机构", "在.*设有"));
}

#[test]
fn test_contains_forbidden_brand() {
    assert!(CompareWithTemplateTool::contains_forbidden("本项目指定华为品牌设备", "品牌"));
}

#[test]
fn test_builtin_templates_exist() {
    let store = TemplateStore::with_builtin_templates();
    assert!(store.get("资格条件标准模板").is_some());
    assert!(store.get("合同必须条款模板").is_some());
    assert!(store.get("评审标准模板").is_some());
    assert!(store.get("投标文件格式模板").is_some());
    assert!(store.get("采购需求描述规范").is_some());
    assert!(store.get("政府采购负面清单模板").is_some());
}

#[test]
fn test_template_missing_required_items() {
    let store = TemplateStore::with_builtin_templates();
    let provider = provider_with("ch_001", "投标人须具有独立承担民事责任的能力，提供营业执照副本复印件。");
    let tool = CompareWithTemplateTool::new(store, provider);
    let args = CompareWithTemplateArgs {
        clause_chunk: "ch_001".to_string(),
        template_type: "资格条件标准模板".to_string(),
    };
    let result = tool.execute(&args).unwrap();
    assert!(result.missing.len() >= 2, "应至少缺失 2 项必须条款，实际: {}", result.missing.len());
}

#[test]
fn forbidden_pattern_is_case_insensitive_and_ordered() {
    assert!(CompareWithTemplateTool::contains_forbidden("必须采用ABC品牌", "abc"));
    assert!(!CompareWithTemplateTool::contains_forbidden("设有机构在东莞", "在.*设有"));
    assert_eq!(CompareWithTemplateTool::forbidden_check("普通条款", "品牌"), Some(false));
}

#[test]
fn execute_refuses_unknown_chunk_and_template() {
    let tool = CompareWithTemplateTool::new(
        TemplateStore::with_builtin_templates(),
        provider_with("ch_001", "条款内容"),
    );
    let missing_chunk = tool.execute(&CompareWithTemplateArgs {
        clause_chunk: "ch_404".to_string(),
        template_type: "资格条件标准模板".to_string(),
    });
    assert_eq!(missing_chunk.err(), Some("chunk_id 不存在: ch_404".to_string()));
    let unknown = tool.execute(&CompareWithTemplateArgs {
        clause_chunk: "ch_001".to_string(),
        template_type: "不存在的模板".to_string(),
    });
    let err = unknown.err().expect("未知模板必须失败");
    assert!(err.starts_with("未知模板类型: 不存在的模板。可用模板: "));
    assert!(err.contains("资格条件标准模板"));
    assert_eq!(tool.name(), "compare_with_template");
}

#[test]
fn empty_store_has_no_templates() {
    let store = TemplateStore::new();
    assert!(store.get("资格条件标准模板").is_none());
}
