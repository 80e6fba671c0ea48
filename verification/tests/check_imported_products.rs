use tender_agents::tools::check_imported_products::{CheckImportedProductsArgs, CheckImportedProductsTool};

#[test]
fn test_import_without_approval_violation() {
    // 含"进口产品"无审批 → violation
    let args = CheckImportedProductsArgs {
        project_description: "本项目拟采购进口产品一批，包括进口医疗设备等。"
            .to_string(),
        procurement_category: "货物".to_string(),
        has_import_approval: None,
        approval_document: None,
    };
    let result = CheckImportedProductsTool::check(&args).unwrap();
    assert_eq!(result.status, "violation");
    assert!(result.imported_detected);
    assert!(result.need_approval);
    assert!(!result.has_approval);
    assert!(result.detected_keywords.contains(&"进口产品".to_string()));
}

#[test]
fn test_international_standard_clean() {
    // 含"国际标准"→ clean（不需要审批）
    let args = CheckImportedProductsArgs {
        project_description: "本项目设备应符合国际标准ISO 9001和国外标准相关要求。"
            .to_string(),
        procurement_category: "货物".to_string(),
        has_import_approval: None,
        approval_document: None,
    };
    let result = CheckImportedProductsTool::check(&args).unwrap();
    assert_eq!(result.status, "clean");
    assert!(!result.imported_detected);
    assert!(!result.need_approval);
    assert!(result.detected_keywords.contains(&"国际标准".to_string()));
    assert!(result.detected_keywords.contains(&"国外标准".to_string()));
}

#[test]
fn test_import_with_approval_compliant() {
    // 含"原装进口"有审批 → compliant
    let args = CheckImportedProductsArgs {
        project_description: "核心部件采用原装进口产品，已取得进口审批。"
            .to_string(),
        procurement_category: "货物".to_string(),
        has_import_approval: Some(true),
        approval_document: Some("财采审〔2025〕001号".to_string()),
    };
    let result = CheckImportedProductsTool::check(&args).unwrap();
    assert_eq!(result.status, "compliant");
    assert!(result.imported_detected);
    assert!(result.need_approval);
    assert!(result.has_approval);
    assert!(result.detected_keywords.contains(&"原装进口".to_string()));
}

#[test]
fn test_pure_domestic_clean() {
    // 纯国产 → clean
    let args = CheckImportedProductsArgs {
        project_description: "本次采购全部为国产产品，供应商须为境内注册企业。"
            .to_string(),
        procurement_category: "服务".to_string(),
        has_import_approval: None,
        approval_document: None,
    };
    let result = CheckImportedProductsTool::check(&args).unwrap();
    assert_eq!(result.status, "clean");
    assert!(!result.imported_detected);
    assert!(!result.need_approval);
    assert!(result.detected_keywords.is_empty());
}

#[test]
fn test_domestic_priority_weak_signal() {
    // "国产优先" → 弱信号（仍为 clean 但产生风险信号）
    let args = CheckImportedProductsArgs {
        project_description: "本项目在同等条件下国产优先。"
            .to_string(),
        procurement_category: "货物".to_string(),
        has_import_approval: None,
        approval_document: None,
    };
    let result = CheckImportedProductsTool::check(&args).unwrap();
    assert_eq!(result.status, "clean");
    assert!(!result.risk_signals.is_empty());
    assert!(result
        .risk_signals
        .iter()
        .any(|s| s.contains("国产优先")));
}

#[test]
fn test_ce_fda_cert_without_approval_violation() {
    // 含CE认证/FDA认证，无审批 → violation
    let args = CheckImportedProductsArgs {
        project_description: "投标产品须取得CE认证和FDA认证证书。"
            .to_string(),
        procurement_category: "货物".to_string(),
        has_import_approval: None,
        approval_document: None,
    };
    let result = CheckImportedProductsTool::check(&args).unwrap();
    assert_eq!(result.status, "violation");
    assert!(result.imported_detected);
    assert!(result.detected_keywords.contains(&"CE认证".to_string()));
    assert!(result.detected_keywords.contains(&"FDA认证".to_string()));
}

#[test]
fn test_empty_description_error() {
    let args = CheckImportedProductsArgs {
        project_description: "".to_string(),
        procurement_category: "货物".to_string(),
        has_import_approval: None,
        approval_document: None,
    };
    let result = CheckImportedProductsTool::check(&args);
    assert!(result.is_err());
}

#[test]
fn whitespace_only_description_is_refused() {
    let args = CheckImportedProductsArgs {
        project_description: " \t\n".to_string(),
        procurement_category: "货物".to_string(),
        has_import_approval: None,
        approval_document: None,
    };
    assert!(CheckImportedProductsTool::check(&args).is_err());
}

#[test]
fn import_with_explicit_no_approval_is_violation() {
    let args = CheckImportedProductsArgs {
        project_description: "本项目接受进口设备投标。".to_string(),
        procurement_category: "货物".to_string(),
        has_import_approval: Some(false),
        approval_document: None,
    };
    let result = CheckImportedProductsTool::check(&args).unwrap();
    assert_eq!(result.status, "violation");
    assert!(!result.has_approval);
    assert!(!result.suggestion.is_empty());
    assert!(!result.legal_basis.is_empty());
}

#[test]
fn unknown_category_is_refused() {
    let args = CheckImportedProductsArgs {
        project_description: "采购办公家具一批。".to_string(),
        procurement_category: "其他".to_string(),
        has_import_approval: None,
        approval_document: None,
    };
    assert!(CheckImportedProductsTool::check(&args).is_err());
}
