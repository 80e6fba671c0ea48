//! `compare_with_template`: compares a clause with a standard template and
//! finds what it lacks (required items), what it should not hold (forbidden
//! patterns) and which expected fields it does not mention.
use vstd::prelude::*;

use crate::chunk::{Chunk, ChunkView};
use crate::dup::Dup;
use crate::strmap::StrMap;
use crate::text::{
    byte_len, chars_of, contains_seq, decimal, decimal_string, is_white, is_whitespace, lowercase, push_str,
    str_contains, string_from_chars, take_chars, take_prefix, to_lowercase, to_owned_string,
};
use crate::tools::keywords::{
    byte_at, byte_offsets, find_at_or_after, first_from, join_seq, join_strings, lemma_byte_at_mono,
    occurs_from, split_on, split_str,
};

verus! {

/// A required item of a template.
pub struct TemplateItem {
    /// What the clause must say.
    pub item: String,
    /// "high" or "medium".
    pub severity: String,
    /// The law behind it.
    pub legal_basis: String,
}

/// A standard template.
pub struct StandardTemplate {
    pub template_type: String,
    pub name: String,
    /// Items that must appear (missing ones are violations).
    pub required_items: Vec<TemplateItem>,
    /// Patterns that should not appear (`.*` stands for any text between).
    pub forbidden_patterns: Vec<String>,
    /// Fields the clause usually names.
    pub expected_fields: Vec<String>,
}

/// The content of a required item.
pub ghost struct TemplateItemView {
    pub item: Seq<char>,
    pub severity: Seq<char>,
    pub legal_basis: Seq<char>,
}

/// The content of a template.
pub ghost struct TemplateView {
    pub template_type: Seq<char>,
    pub name: Seq<char>,
    pub required_items: Seq<TemplateItemView>,
    pub forbidden_patterns: Seq<Seq<char>>,
    pub expected_fields: Seq<Seq<char>>,
}

impl DeepView for TemplateItem {
    type V = TemplateItemView;

    open spec fn deep_view(&self) -> TemplateItemView {
        TemplateItemView { item: self.item@, severity: self.severity@, legal_basis: self.legal_basis@ }
    }
}

impl DeepView for StandardTemplate {
    type V = TemplateView;

    open spec fn deep_view(&self) -> TemplateView {
        TemplateView {
            template_type: self.template_type@,
            name: self.name@,
            required_items: self.required_items.deep_view(),
            forbidden_patterns: self.forbidden_patterns.deep_view(),
            expected_fields: self.expected_fields.deep_view(),
        }
    }
}

/// The arguments of the tool.
pub struct CompareWithTemplateArgs {
    pub clause_chunk: String,
    pub template_type: String,
}

/// A required item the clause lacks.
pub struct MissingItem {
    pub item: String,
    pub severity: String,
    pub legal_basis: String,
}

/// A forbidden pattern the clause holds.
pub struct ExtraItem {
    pub item: String,
    /// "restrictive", "overbroad" or "unusual".
    pub flag: String,
}

/// An expected field the clause does not name.
pub struct WordingDiff {
    pub field: String,
    pub expected: String,
    pub actual: String,
}

/// The outcome of a comparison.
pub struct TemplateCompareResult {
    pub missing: Vec<MissingItem>,
    pub extra: Vec<ExtraItem>,
    pub wording_diff: Vec<WordingDiff>,
    pub template_name: String,
    pub summary: String,
}

impl DeepView for MissingItem {
    type V = TemplateItemView;

    open spec fn deep_view(&self) -> TemplateItemView {
        TemplateItemView { item: self.item@, severity: self.severity@, legal_basis: self.legal_basis@ }
    }
}

impl DeepView for ExtraItem {
    type V = (Seq<char>, Seq<char>);

    open spec fn deep_view(&self) -> (Seq<char>, Seq<char>) {
        (self.item@, self.flag@)
    }
}

impl DeepView for WordingDiff {
    type V = (Seq<char>, Seq<char>, Seq<char>);

    open spec fn deep_view(&self) -> (Seq<char>, Seq<char>, Seq<char>) {
        (self.field@, self.expected@, self.actual@)
    }
}

/// The templates, by type.
pub struct TemplateStore {
    templates: StrMap<StandardTemplate>,
}

impl TemplateStore {
    #[verifier::type_invariant]
    spec fn inv(self) -> bool {
        self.templates.wf()
    }

    /// The templates by type.
    pub closed spec fn view(&self) -> Map<Seq<char>, TemplateView> {
        self.templates.deep_view()
    }

    /// The types, in the order they were first registered.
    pub closed spec fn type_order(&self) -> Seq<Seq<char>> {
        self.templates.key_seq()
    }
}

fn template_item(item: &str, severity: &str, legal_basis: &str) -> (r: TemplateItem)
    ensures
        r.deep_view() == (TemplateItemView { item: item@, severity: severity@, legal_basis: legal_basis@ }),
{
    TemplateItem {
        item: to_owned_string(item),
        severity: to_owned_string(severity),
        legal_basis: to_owned_string(legal_basis),
    }
}

/// The qualification conditions of suppliers.
pub open spec fn qualification_template() -> TemplateView {
    TemplateView {
        template_type: "资格条件标准模板"@,
        name: "政府采购供应商资格条件标准模板"@,
        required_items: seq![
            TemplateItemView { item: "具有独立承担民事责任的能力"@, severity: "high"@, legal_basis: "《政府采购法》第22条(一)"@ },
            TemplateItemView { item: "具有良好的商业信誉和健全的财务会计制度"@, severity: "high"@, legal_basis: "《政府采购法》第22条(二)"@ },
            TemplateItemView { item: "具有履行合同所必需的设备和专业技术能力"@, severity: "high"@, legal_basis: "《政府采购法》第22条(三)"@ },
            TemplateItemView { item: "有依法缴纳税收和社会保障资金的良好记录"@, severity: "high"@, legal_basis: "《政府采购法》第22条(四)"@ },
            TemplateItemView { item: "参加政府采购活动前三年内，在经营活动中没有重大违法记录"@, severity: "high"@, legal_basis: "《政府采购法》第22条(五)"@ },
            TemplateItemView { item: "未被列入失信被执行人、重大税收违法案件当事人名单、政府采购严重违法失信行为记录名单"@, severity: "high"@, legal_basis: "《政府采购法》第22条、《关于在政府采购活动中查询及使用信用记录有关问题的通知》"@ },
        ],
        forbidden_patterns: seq![
            "注册资本"@,
            "资产总额"@,
            "营业收入"@,
            "从业人员"@,
            "利润"@,
            "纳税额"@,
            "本地注册"@,
            "在.*设有分支机构"@,
            "本地业绩"@,
            "特定品牌"@,
            "唯一授权"@,
            "原厂商"@,
            "地域"@,
            "规模"@,
        ],
        expected_fields: seq![
            "供应商资格要求"@,
            "资质要求"@,
            "需要提供的证明材料"@,
            "联合体"@,
        ],
    }
}

fn qualification_template_value() -> (r: StandardTemplate)
    ensures
        r.deep_view() == qualification_template(),
{
    let mut items: Vec<TemplateItem> = Vec::new();
    items.push(template_item("具有独立承担民事责任的能力", "high", "《政府采购法》第22条(一)"));
    items.push(template_item("具有良好的商业信誉和健全的财务会计制度", "high", "《政府采购法》第22条(二)"));
    items.push(template_item("具有履行合同所必需的设备和专业技术能力", "high", "《政府采购法》第22条(三)"));
    items.push(template_item("有依法缴纳税收和社会保障资金的良好记录", "high", "《政府采购法》第22条(四)"));
    items.push(template_item("参加政府采购活动前三年内，在经营活动中没有重大违法记录", "high", "《政府采购法》第22条(五)"));
    items.push(template_item("未被列入失信被执行人、重大税收违法案件当事人名单、政府采购严重违法失信行为记录名单", "high", "《政府采购法》第22条、《关于在政府采购活动中查询及使用信用记录有关问题的通知》"));
    let mut forbidden: Vec<String> = Vec::new();
    forbidden.push(to_owned_string("注册资本"));
    forbidden.push(to_owned_string("资产总额"));
    forbidden.push(to_owned_string("营业收入"));
    forbidden.push(to_owned_string("从业人员"));
    forbidden.push(to_owned_string("利润"));
    forbidden.push(to_owned_string("纳税额"));
    forbidden.push(to_owned_string("本地注册"));
    forbidden.push(to_owned_string("在.*设有分支机构"));
    forbidden.push(to_owned_string("本地业绩"));
    forbidden.push(to_owned_string("特定品牌"));
    forbidden.push(to_owned_string("唯一授权"));
    forbidden.push(to_owned_string("原厂商"));
    forbidden.push(to_owned_string("地域"));
    forbidden.push(to_owned_string("规模"));
    let mut fields: Vec<String> = Vec::new();
    fields.push(to_owned_string("供应商资格要求"));
    fields.push(to_owned_string("资质要求"));
    fields.push(to_owned_string("需要提供的证明材料"));
    fields.push(to_owned_string("联合体"));
    let r = StandardTemplate {
        template_type: to_owned_string("资格条件标准模板"),
        name: to_owned_string("政府采购供应商资格条件标准模板"),
        required_items: items,
        forbidden_patterns: forbidden,
        expected_fields: fields,
    };
    assert(r.required_items.deep_view() =~= qualification_template().required_items);
    assert(r.forbidden_patterns.deep_view() =~= qualification_template().forbidden_patterns);
    assert(r.expected_fields.deep_view() =~= qualification_template().expected_fields);
    r
}

/// The clauses a procurement contract must hold.
pub open spec fn contract_terms_template() -> TemplateView {
    TemplateView {
        template_type: "合同必须条款模板"@,
        name: "政府采购合同必须条款"@,
        required_items: seq![
            TemplateItemView { item: "合同金额及付款方式"@, severity: "high"@, legal_basis: "《政府采购法》第46条"@ },
            TemplateItemView { item: "履约保证金"@, severity: "medium"@, legal_basis: "《政府采购法实施条例》第48条"@ },
            TemplateItemView { item: "违约责任"@, severity: "high"@, legal_basis: "《民法典》合同编"@ },
            TemplateItemView { item: "争议解决方式"@, severity: "medium"@, legal_basis: "政府采购标准合同文本"@ },
            TemplateItemView { item: "验收标准与程序"@, severity: "high"@, legal_basis: "《政府采购法》第41条"@ },
            TemplateItemView { item: "合同履行期限"@, severity: "high"@, legal_basis: "《政府采购法》第46条"@ },
            TemplateItemView { item: "保密条款"@, severity: "medium"@, legal_basis: "政府采购标准合同文本"@ },
        ],
        forbidden_patterns: seq![
            "最终解释权"@,
            "以.*意见为准"@,
            "无条件接受"@,
            "不得异议"@,
            "放弃.*权利"@,
            "无限期"@,
        ],
        expected_fields: seq![
            "合同金额"@,
            "付款"@,
            "履约保证金"@,
            "违约责任"@,
            "争议解决"@,
            "验收"@,
        ],
    }
}

fn contract_terms_template_value() -> (r: StandardTemplate)
    ensures
        r.deep_view() == contract_terms_template(),
{
    let mut items: Vec<TemplateItem> = Vec::new();
    items.push(template_item("合同金额及付款方式", "high", "《政府采购法》第46条"));
    items.push(template_item("履约保证金", "medium", "《政府采购法实施条例》第48条"));
    items.push(template_item("违约责任", "high", "《民法典》合同编"));
    items.push(template_item("争议解决方式", "medium", "政府采购标准合同文本"));
    items.push(template_item("验收标准与程序", "high", "《政府采购法》第41条"));
    items.push(template_item("合同履行期限", "high", "《政府采购法》第46条"));
    items.push(template_item("保密条款", "medium", "政府采购标准合同文本"));
    let mut forbidden: Vec<String> = Vec::new();
    forbidden.push(to_owned_string("最终解释权"));
    forbidden.push(to_owned_string("以.*意见为准"));
    forbidden.push(to_owned_string("无条件接受"));
    forbidden.push(to_owned_string("不得异议"));
    forbidden.push(to_owned_string("放弃.*权利"));
    forbidden.push(to_owned_string("无限期"));
    let mut fields: Vec<String> = Vec::new();
    fields.push(to_owned_string("合同金额"));
    fields.push(to_owned_string("付款"));
    fields.push(to_owned_string("履约保证金"));
    fields.push(to_owned_string("违约责任"));
    fields.push(to_owned_string("争议解决"));
    fields.push(to_owned_string("验收"));
    let r = StandardTemplate {
        template_type: to_owned_string("合同必须条款模板"),
        name: to_owned_string("政府采购合同必须条款"),
        required_items: items,
        forbidden_patterns: forbidden,
        expected_fields: fields,
    };
    assert(r.required_items.deep_view() =~= contract_terms_template().required_items);
    assert(r.forbidden_patterns.deep_view() =~= contract_terms_template().forbidden_patterns);
    assert(r.expected_fields.deep_view() =~= contract_terms_template().expected_fields);
    r
}

/// The evaluation standard.
pub open spec fn evaluation_template() -> TemplateView {
    TemplateView {
        template_type: "评审标准模板"@,
        name: "政府采购评审标准模板"@,
        required_items: seq![
            TemplateItemView { item: "价格分权重（货物≥30%，服务≥10%）"@, severity: "high"@, legal_basis: "《政府采购货物和服务招标投标管理办法》第55条"@ },
            TemplateItemView { item: "技术评审因素"@, severity: "medium"@, legal_basis: "政府采购标准评审办法"@ },
            TemplateItemView { item: "商务评审因素"@, severity: "medium"@, legal_basis: "政府采购标准评审办法"@ },
            TemplateItemView { item: "评分权重总计100%"@, severity: "high"@, legal_basis: "政府采购评审原则"@ },
        ],
        forbidden_patterns: seq![
            "地域.*加分"@,
            "本地.*业绩.*加分"@,
            "品牌.*加分"@,
            "特定.*型号.*加分"@,
            "注册地"@,
        ],
        expected_fields: seq![
            "价格分"@,
            "技术评审"@,
            "商务评审"@,
        ],
    }
}

fn evaluation_template_value() -> (r: StandardTemplate)
    ensures
        r.deep_view() == evaluation_template(),
{
    let mut items: Vec<TemplateItem> = Vec::new();
    items.push(template_item("价格分权重（货物≥30%，服务≥10%）", "high", "《政府采购货物和服务招标投标管理办法》第55条"));
    items.push(template_item("技术评审因素", "medium", "政府采购标准评审办法"));
    items.push(template_item("商务评审因素", "medium", "政府采购标准评审办法"));
    items.push(template_item("评分权重总计100%", "high", "政府采购评审原则"));
    let mut forbidden: Vec<String> = Vec::new();
    forbidden.push(to_owned_string("地域.*加分"));
    forbidden.push(to_owned_string("本地.*业绩.*加分"));
    forbidden.push(to_owned_string("品牌.*加分"));
    forbidden.push(to_owned_string("特定.*型号.*加分"));
    forbidden.push(to_owned_string("注册地"));
    let mut fields: Vec<String> = Vec::new();
    fields.push(to_owned_string("价格分"));
    fields.push(to_owned_string("技术评审"));
    fields.push(to_owned_string("商务评审"));
    let r = StandardTemplate {
        template_type: to_owned_string("评审标准模板"),
        name: to_owned_string("政府采购评审标准模板"),
        required_items: items,
        forbidden_patterns: forbidden,
        expected_fields: fields,
    };
    assert(r.required_items.deep_view() =~= evaluation_template().required_items);
    assert(r.forbidden_patterns.deep_view() =~= evaluation_template().forbidden_patterns);
    assert(r.expected_fields.deep_view() =~= evaluation_template().expected_fields);
    r
}

/// The format of bid documents.
pub open spec fn bid_format_template() -> TemplateView {
    TemplateView {
        template_type: "投标文件格式模板"@,
        name: "政府采购投标文件格式标准模板"@,
        required_items: seq![
            TemplateItemView { item: "投标函格式要求"@, severity: "high"@, legal_basis: "《政府采购货物和服务招标投标管理办法》第32条"@ },
            TemplateItemView { item: "装订与密封要求"@, severity: "high"@, legal_basis: "政府采购标准文件格式规范"@ },
            TemplateItemView { item: "签字盖章要求"@, severity: "high"@, legal_basis: "《政府采购货物和服务招标投标管理办法》第33条"@ },
            TemplateItemView { item: "副本数量要求"@, severity: "medium"@, legal_basis: "政府采购标准文件格式规范"@ },
            TemplateItemView { item: "电子版文件要求"@, severity: "medium"@, legal_basis: "《关于促进政府采购公平竞争优化营商环境的通知》"@ },
            TemplateItemView { item: "投标有效期要求"@, severity: "high"@, legal_basis: "《政府采购货物和服务招标投标管理办法》第23条"@ },
            TemplateItemView { item: "联合体协议格式（如适用）"@, severity: "medium"@, legal_basis: "《政府采购法》第24条"@ },
            TemplateItemView { item: "法定代表人授权委托书格式"@, severity: "high"@, legal_basis: "政府采购标准文件格式规范"@ },
        ],
        forbidden_patterns: seq![
            "格式自拟"@,
            "自行决定"@,
            "不强制要求"@,
            "无需签字"@,
            "无需盖章"@,
        ],
        expected_fields: seq![
            "投标函"@,
            "装订"@,
            "密封"@,
            "签字"@,
            "盖章"@,
            "副本"@,
            "有效期"@,
        ],
    }
}

fn bid_format_template_value() -> (r: StandardTemplate)
    ensures
        r.deep_view() == bid_format_template(),
{
    let mut items: Vec<TemplateItem> = Vec::new();
    items.push(template_item("投标函格式要求", "high", "《政府采购货物和服务招标投标管理办法》第32条"));
    items.push(template_item("装订与密封要求", "high", "政府采购标准文件格式规范"));
    items.push(template_item("签字盖章要求", "high", "《政府采购货物和服务招标投标管理办法》第33条"));
    items.push(template_item("副本数量要求", "medium", "政府采购标准文件格式规范"));
    items.push(template_item("电子版文件要求", "medium", "《关于促进政府采购公平竞争优化营商环境的通知》"));
    items.push(template_item("投标有效期要求", "high", "《政府采购货物和服务招标投标管理办法》第23条"));
    items.push(template_item("联合体协议格式（如适用）", "medium", "《政府采购法》第24条"));
    items.push(template_item("法定代表人授权委托书格式", "high", "政府采购标准文件格式规范"));
    let mut forbidden: Vec<String> = Vec::new();
    forbidden.push(to_owned_string("格式自拟"));
    forbidden.push(to_owned_string("自行决定"));
    forbidden.push(to_owned_string("不强制要求"));
    forbidden.push(to_owned_string("无需签字"));
    forbidden.push(to_owned_string("无需盖章"));
    let mut fields: Vec<String> = Vec::new();
    fields.push(to_owned_string("投标函"));
    fields.push(to_owned_string("装订"));
    fields.push(to_owned_string("密封"));
    fields.push(to_owned_string("签字"));
    fields.push(to_owned_string("盖章"));
    fields.push(to_owned_string("副本"));
    fields.push(to_owned_string("有效期"));
    let r = StandardTemplate {
        template_type: to_owned_string("投标文件格式模板"),
        name: to_owned_string("政府采购投标文件格式标准模板"),
        required_items: items,
        forbidden_patterns: forbidden,
        expected_fields: fields,
    };
    assert(r.required_items.deep_view() =~= bid_format_template().required_items);
    assert(r.forbidden_patterns.deep_view() =~= bid_format_template().forbidden_patterns);
    assert(r.expected_fields.deep_view() =~= bid_format_template().expected_fields);
    r
}

/// The description of procurement needs.
pub open spec fn requirement_template() -> TemplateView {
    TemplateView {
        template_type: "采购需求描述规范"@,
        name: "政府采购采购需求描述规范模板"@,
        required_items: seq![
            TemplateItemView { item: "技术参数完整性与明确性"@, severity: "high"@, legal_basis: "《政府采购需求管理办法》第8条"@ },
            TemplateItemView { item: "验收标准明确性"@, severity: "high"@, legal_basis: "《政府采购需求管理办法》第12条"@ },
            TemplateItemView { item: "服务内容与范围界定"@, severity: "medium"@, legal_basis: "《政府采购需求管理办法》第9条"@ },
            TemplateItemView { item: "交付物清单"@, severity: "medium"@, legal_basis: "政府采购标准合同文本"@ },
            TemplateItemView { item: "质量标准与验收方法"@, severity: "high"@, legal_basis: "《政府采购需求管理办法》第12条"@ },
            TemplateItemView { item: "履约期限与进度安排"@, severity: "medium"@, legal_basis: "《政府采购需求管理办法》第11条"@ },
        ],
        forbidden_patterns: seq![
            "指定.*品牌"@,
            "指定.*型号"@,
            "唯一.*专利"@,
            "特定.*供应商"@,
            "量身定做"@,
            "排他性"@,
        ],
        expected_fields: seq![
            "技术参数"@,
            "验收标准"@,
            "服务范围"@,
            "交付物"@,
            "质量标准"@,
            "履约期限"@,
        ],
    }
}

fn requirement_template_value() -> (r: StandardTemplate)
    ensures
        r.deep_view() == requirement_template(),
{
    let mut items: Vec<TemplateItem> = Vec::new();
    items.push(template_item("技术参数完整性与明确性", "high", "《政府采购需求管理办法》第8条"));
    items.push(template_item("验收标准明确性", "high", "《政府采购需求管理办法》第12条"));
    items.push(template_item("服务内容与范围界定", "medium", "《政府采购需求管理办法》第9条"));
    items.push(template_item("交付物清单", "medium", "政府采购标准合同文本"));
    items.push(template_item("质量标准与验收方法", "high", "《政府采购需求管理办法》第12条"));
    items.push(template_item("履约期限与进度安排", "medium", "《政府采购需求管理办法》第11条"));
    let mut forbidden: Vec<String> = Vec::new();
    forbidden.push(to_owned_string("指定.*品牌"));
    forbidden.push(to_owned_string("指定.*型号"));
    forbidden.push(to_owned_string("唯一.*专利"));
    forbidden.push(to_owned_string("特定.*供应商"));
    forbidden.push(to_owned_string("量身定做"));
    forbidden.push(to_owned_string("排他性"));
    let mut fields: Vec<String> = Vec::new();
    fields.push(to_owned_string("技术参数"));
    fields.push(to_owned_string("验收标准"));
    fields.push(to_owned_string("服务范围"));
    fields.push(to_owned_string("交付物"));
    fields.push(to_owned_string("质量标准"));
    fields.push(to_owned_string("履约期限"));
    let r = StandardTemplate {
        template_type: to_owned_string("采购需求描述规范"),
        name: to_owned_string("政府采购采购需求描述规范模板"),
        required_items: items,
        forbidden_patterns: forbidden,
        expected_fields: fields,
    };
    assert(r.required_items.deep_view() =~= requirement_template().required_items);
    assert(r.forbidden_patterns.deep_view() =~= requirement_template().forbidden_patterns);
    assert(r.expected_fields.deep_view() =~= requirement_template().expected_fields);
    r
}

/// The negative list of procurement practices.
pub open spec fn negative_list_template() -> TemplateView {
    TemplateView {
        template_type: "政府采购负面清单模板"@,
        name: "政府采购负面行为清单（财政部发布）"@,
        required_items: seq![
            TemplateItemView { item: "未设置供应商规模门槛（注册资本/资产总额/营业收入等）"@, severity: "high"@, legal_basis: "《政府采购法实施条例》第20条(二)"@ },
            TemplateItemView { item: "未将特定行政区域业绩作为资格条件或评分因素"@, severity: "high"@, legal_basis: "《政府采购法实施条例》第20条(四)"@ },
            TemplateItemView { item: "未指定特定品牌或供应商"@, severity: "high"@, legal_basis: "《政府采购法》第22条"@ },
            TemplateItemView { item: "未将非国家强制认证作为资格条件"@, severity: "high"@, legal_basis: "《政府采购法实施条例》第20条(八)"@ },
            TemplateItemView { item: "未要求提供厂家授权函作为资格条件"@, severity: "high"@, legal_basis: "《政府采购货物和服务招标投标管理办法》第17条"@ },
        ],
        forbidden_patterns: seq![
            "注册资本"@,
            "资产总额"@,
            "营业收入"@,
            "从业人员"@,
            "纳税额"@,
            "本地.*业绩"@,
            "本地.*注册"@,
            "所在地.*资格"@,
            "指定.*品牌"@,
            "指定.*型号"@,
            "唯一.*授权"@,
            "原厂.*授权"@,
            "厂家.*授权函"@,
            "制造商.*证明"@,
            "专利.*证书"@,
            "非.*认证"@,
            "行业协会.*证书"@,
            "企业.*排名"@,
            "地方.*奖项"@,
            "省内.*荣誉"@,
            "评委.*酌情"@,
            "自行.*掌握"@,
            "综合.*判断"@,
            "无.*量化"@,
            "没有.*细则"@,
            "最终.*解释权"@,
            "以.*意见为准"@,
            "无条件.*接受"@,
            "不得.*异议"@,
            "放弃.*权利"@,
            "全部.*责任"@,
            "一切.*责任"@,
            "永久.*归"@,
            "无限.*期"@,
            "单方.*变更"@,
            "无.*上限"@,
        ],
        expected_fields: seq![
            "资格条件"@,
            "评分标准"@,
            "合同条款"@,
            "技术要求"@,
        ],
    }
}

fn negative_list_template_value() -> (r: StandardTemplate)
    ensures
        r.deep_view() == negative_list_template(),
{
    let mut items: Vec<TemplateItem> = Vec::new();
    items.push(template_item("未设置供应商规模门槛（注册资本/资产总额/营业收入等）", "high", "《政府采购法实施条例》第20条(二)"));
    items.push(template_item("未将特定行政区域业绩作为资格条件或评分因素", "high", "《政府采购法实施条例》第20条(四)"));
    items.push(template_item("未指定特定品牌或供应商", "high", "《政府采购法》第22条"));
    items.push(template_item("未将非国家强制认证作为资格条件", "high", "《政府采购法实施条例》第20条(八)"));
    items.push(template_item("未要求提供厂家授权函作为资格条件", "high", "《政府采购货物和服务招标投标管理办法》第17条"));
    let mut forbidden: Vec<String> = Vec::new();
    forbidden.push(to_owned_string("注册资本"));
    forbidden.push(to_owned_string("资产总额"));
    forbidden.push(to_owned_string("营业收入"));
    forbidden.push(to_owned_string("从业人员"));
    forbidden.push(to_owned_string("纳税额"));
    forbidden.push(to_owned_string("本地.*业绩"));
    forbidden.push(to_owned_string("本地.*注册"));
    forbidden.push(to_owned_string("所在地.*资格"));
    forbidden.push(to_owned_string("指定.*品牌"));
    forbidden.push(to_owned_string("指定.*型号"));
    forbidden.push(to_owned_string("唯一.*授权"));
    forbidden.push(to_owned_string("原厂.*授权"));
    forbidden.push(to_owned_string("厂家.*授权函"));
    forbidden.push(to_owned_string("制造商.*证明"));
    forbidden.push(to_owned_string("专利.*证书"));
    forbidden.push(to_owned_string("非.*认证"));
    forbidden.push(to_owned_string("行业协会.*证书"));
    forbidden.push(to_owned_string("企业.*排名"));
    forbidden.push(to_owned_string("地方.*奖项"));
    forbidden.push(to_owned_string("省内.*荣誉"));
    forbidden.push(to_owned_string("评委.*酌情"));
    forbidden.push(to_owned_string("自行.*掌握"));
    forbidden.push(to_owned_string("综合.*判断"));
    forbidden.push(to_owned_string("无.*量化"));
    forbidden.push(to_owned_string("没有.*细则"));
    forbidden.push(to_owned_string("最终.*解释权"));
    forbidden.push(to_owned_string("以.*意见为准"));
    forbidden.push(to_owned_string("无条件.*接受"));
    forbidden.push(to_owned_string("不得.*异议"));
    forbidden.push(to_owned_string("放弃.*权利"));
    forbidden.push(to_owned_string("全部.*责任"));
    forbidden.push(to_owned_string("一切.*责任"));
    forbidden.push(to_owned_string("永久.*归"));
    forbidden.push(to_owned_string("无限.*期"));
    forbidden.push(to_owned_string("单方.*变更"));
    forbidden.push(to_owned_string("无.*上限"));
    let mut fields: Vec<String> = Vec::new();
    fields.push(to_owned_string("资格条件"));
    fields.push(to_owned_string("评分标准"));
    fields.push(to_owned_string("合同条款"));
    fields.push(to_owned_string("技术要求"));
    let r = StandardTemplate {
        template_type: to_owned_string("政府采购负面清单模板"),
        name: to_owned_string("政府采购负面行为清单（财政部发布）"),
        required_items: items,
        forbidden_patterns: forbidden,
        expected_fields: fields,
    };
    assert(r.required_items.deep_view() =~= negative_list_template().required_items);
    assert(r.forbidden_patterns.deep_view() =~= negative_list_template().forbidden_patterns);
    assert(r.expected_fields.deep_view() =~= negative_list_template().expected_fields);
    r
}

/// The built-in templates, in the order they are registered.
pub open spec fn builtin_templates() -> Seq<TemplateView> {
    seq![
        qualification_template(),
        contract_terms_template(),
        evaluation_template(),
        bid_format_template(),
        requirement_template(),
        negative_list_template(),
    ]
}

/// The map that registering the templates of `ts` in order gives, starting
/// from `m` (a later template replaces one of the same type).
pub open spec fn registered(m: Map<Seq<char>, TemplateView>, ts: Seq<TemplateView>) -> Map<Seq<char>, TemplateView>
    decreases ts.len(),
{
    if ts.len() == 0 {
        m
    } else {
        registered(m, ts.drop_last()).insert(ts.last().template_type, ts.last())
    }
}

impl TemplateStore {
    /// An empty store.
    pub fn new() -> (r: Self)
        ensures
            r.view() == Map::<Seq<char>, TemplateView>::empty(),
    {
        let r = TemplateStore { templates: StrMap::new() };
        assert(r.templates.deep_view() =~= Map::<Seq<char>, TemplateView>::empty());
        r
    }

    /// Registers a template under its type (replacing one of the same type).
    pub fn register(&mut self, template: StandardTemplate)
        ensures
            final(self).view() == old(self).view().insert(template.template_type@, template.deep_view()),
    {
        proof {
            use_type_invariant(&*self);
        }
        let mut m = StrMap::new();
        std::mem::swap(&mut m, &mut self.templates);
        let ghost m0 = m.deep_view();
        let key = template.template_type.clone();
        let ghost tv = template.deep_view();
        m.insert(key, template);
        proof {
            assert(m.deep_view() =~= m0.insert(key@, tv));
        }
        self.templates = m;
    }

    /// The template of a type.
    pub fn get(&self, template_type: &str) -> (r: Option<&StandardTemplate>)
        ensures
            match r {
                Some(t) => self.view().dom().contains(template_type@) && t.deep_view() == self.view()[template_type@],
                None => !self.view().dom().contains(template_type@),
            },
    {
        proof {
            use_type_invariant(self);
        }
        self.templates.get(template_type)
    }

    /// The types, joined with ", ", in registration order.
    fn types_text(&self) -> (r: String)
        ensures
            r@ == join_seq(self.type_order(), ", "@),
    {
        proof {
            use_type_invariant(self);
        }
        let ks = self.templates.keys();
        assert(ks.deep_view() =~= self.templates.key_seq());
        join_strings(&ks, ", ")
    }

    /// A store holding the built-in templates.
    pub fn with_builtin_templates() -> (r: Self)
        ensures
            r.view() == registered(Map::empty(), builtin_templates()),
    {
        let mut store = Self::new();
        store.register_builtin_templates();
        store
    }

    /// Registers the built-in templates, in order.
    fn register_builtin_templates(&mut self)
        ensures
            final(self).view() == registered(old(self).view(), builtin_templates()),
    {
        let ghost m0 = self.view();
        let ghost b = builtin_templates();
        proof {
            assert(b.take(0) =~= Seq::<TemplateView>::empty());
        }
        self.register(qualification_template_value());
        proof {
            lemma_registered_step(m0, b, 0);
        }
        self.register(contract_terms_template_value());
        proof {
            lemma_registered_step(m0, b, 1);
        }
        self.register(evaluation_template_value());
        proof {
            lemma_registered_step(m0, b, 2);
        }
        self.register(bid_format_template_value());
        proof {
            lemma_registered_step(m0, b, 3);
        }
        self.register(requirement_template_value());
        proof {
            lemma_registered_step(m0, b, 4);
        }
        self.register(negative_list_template_value());
        proof {
            lemma_registered_step(m0, b, 5);
            assert(b.take(6) =~= b);
        }
    }
}

/// Registering one more template of the list.
proof fn lemma_registered_step(m: Map<Seq<char>, TemplateView>, b: Seq<TemplateView>, k: int)
    requires
        0 <= k < b.len(),
    ensures
        registered(m, b.take(k + 1)) == registered(m, b.take(k)).insert(b[k].template_type, b[k]),
{
    assert(b.take(k + 1).drop_last() =~= b.take(k));
    assert(b.take(k + 1).last() == b[k]);
}

impl Default for TemplateStore {
    fn default() -> (r: Self)
        ensures
            r.view() == registered(Map::empty(), builtin_templates()),
    {
        Self::with_builtin_templates()
    }
}

/// Where the text of a clause comes from.
pub trait ClauseTextProvider {
    /// The text of a chunk.
    fn get_text(&self, chunk_id: &str) -> Option<String>;

    /// The headings of a chunk.
    fn get_section_path(&self, chunk_id: &str) -> Option<Vec<String>>;
}

/// Clause texts read from the chunks of the document.
pub struct ChunkTextProvider {
    chunks: StrMap<Chunk>,
}

impl ChunkTextProvider {
    #[verifier::type_invariant]
    spec fn inv(self) -> bool {
        self.chunks.wf()
    }

    /// The chunks by id.
    pub closed spec fn view(&self) -> Map<Seq<char>, ChunkView> {
        self.chunks.deep_view()
    }

    /// A provider over the given chunks.
    pub fn new(chunks: StrMap<Chunk>) -> (r: Self)
        requires
            chunks.wf(),
        ensures
            r.view() == chunks.deep_view(),
    {
        ChunkTextProvider { chunks }
    }

    /// The text of a chunk.
    pub fn text_of(&self, chunk_id: &str) -> (r: Option<String>)
        ensures
            match r {
                Some(t) => self.view().dom().contains(chunk_id@) && t@ == self.view()[chunk_id@].text,
                None => !self.view().dom().contains(chunk_id@),
            },
    {
        proof {
            use_type_invariant(self);
        }
        match self.chunks.get(chunk_id) {
            Some(c) => Some(c.text.clone()),
            None => None,
        }
    }

    /// The headings of a chunk.
    pub fn section_path_of(&self, chunk_id: &str) -> (r: Option<Vec<String>>)
        ensures
            match r {
                Some(p) => self.view().dom().contains(chunk_id@) && p.deep_view() == self.view()[chunk_id@].section_path,
                None => !self.view().dom().contains(chunk_id@),
            },
    {
        proof {
            use_type_invariant(self);
        }
        match self.chunks.get(chunk_id) {
            Some(c) => Some(c.section_path.dup()),
            None => None,
        }
    }
}

impl ClauseTextProvider for ChunkTextProvider {
    fn get_text(&self, chunk_id: &str) -> (r: Option<String>)
        ensures
            match r {
                Some(t) => self.view().dom().contains(chunk_id@) && t@ == self.view()[chunk_id@].text,
                None => !self.view().dom().contains(chunk_id@),
            },
    {
        self.text_of(chunk_id)
    }

    fn get_section_path(&self, chunk_id: &str) -> (r: Option<Vec<String>>)
        ensures
            match r {
                Some(p) => self.view().dom().contains(chunk_id@) && p.deep_view() == self.view()[chunk_id@].section_path,
                None => !self.view().dom().contains(chunk_id@),
            },
    {
        self.section_path_of(chunk_id)
    }
}

/// The tool: the templates and the chunk texts.
pub struct CompareWithTemplateTool {
    pub templates: TemplateStore,
    pub text_provider: ChunkTextProvider,
}

/// A character that ends the head of a required item.
pub open spec fn item_stop(c: char) -> bool {
    c == '、' || c == '，' || c == ',' || c == '（' || c == '('
}

/// The item up to its first stop character.
pub open spec fn item_head(s: Seq<char>) -> Seq<char>
    decreases s.len(),
{
    if s.len() == 0 {
        s
    } else if item_stop(s[0]) {
        Seq::empty()
    } else {
        seq![s[0]] + item_head(s.drop_first())
    }
}

/// Cutting `s` at white space: the words finished so far and the word
/// being read.
pub open spec fn ws_state(s: Seq<char>) -> (Seq<Seq<char>>, Seq<char>)
    decreases s.len(),
{
    if s.len() == 0 {
        (Seq::empty(), Seq::empty())
    } else {
        let (done, cur) = ws_state(s.drop_last());
        if is_white(s.last()) {
            (
                if cur.len() > 0 {
                    done.push(cur)
                } else {
                    done
                },
                Seq::empty(),
            )
        } else {
            (done, cur.push(s.last()))
        }
    }
}

/// The words of `s` between white space (`str::split_whitespace`).
pub open spec fn ws_words(s: Seq<char>) -> Seq<Seq<char>> {
    let (done, cur) = ws_state(s);
    if cur.len() > 0 {
        done.push(cur)
    } else {
        done
    }
}

/// The clause `text` holds the required `item`: a word of at least four
/// bytes of the item's head, or the item's first six characters, occurs in
/// the text (all lower-cased).
pub open spec fn item_found(text: Seq<char>, item: Seq<char>) -> bool {
    let lt = lowercase(text);
    let ws = ws_words(item_head(item));
    (exists|i: int| 0 <= i < ws.len() && byte_len(#[trigger] ws[i]) >= 4 && contains_seq(lt, lowercase(ws[i])))
        || contains_seq(lt, lowercase(take_chars(item, 6)))
}

/// The character index at byte offset `pos` of `t`, if `pos` falls on a
/// character boundary.
pub open spec fn boundary_at(t: Seq<char>, pos: int) -> Option<int> {
    if exists|i: int| 0 <= i <= t.len() && byte_at(t, i) == pos {
        Some(choose|i: int| 0 <= i <= t.len() && byte_at(t, i) == pos)
    } else {
        None
    }
}

/// Searching the parts of a forbidden pattern one after the other in the
/// lower-cased text `t`, from byte `pos`: each part's lower case is looked
/// for from `pos`, and the search goes on after the match by the part's own
/// byte length. `None` where a search would start inside a character.
#[verifier::opaque]
pub open spec fn forbidden_run(t: Seq<char>, parts: Seq<Seq<char>>, pos: int) -> Option<bool>
    decreases parts.len(),
{
    if parts.len() == 0 {
        Some(true)
    } else {
        match boundary_at(t, pos) {
            None => None,
            Some(i) => {
                let lp = lowercase(parts[0]);
                if occurs_from(t, lp, i) {
                    forbidden_run(t, parts.drop_first(), (byte_at(t, first_from(t, lp, i)) + byte_len(parts[0])) as int)
                } else {
                    Some(false)
                }
            },
        }
    }
}

/// One step of `forbidden_run`.
proof fn lemma_run_unfold(t: Seq<char>, parts: Seq<Seq<char>>, pos: int)
    ensures
        forbidden_run(t, parts, pos) == if parts.len() == 0 {
            Some(true)
        } else {
            match boundary_at(t, pos) {
                None => None,
                Some(i) => {
                    let lp = lowercase(parts[0]);
                    if occurs_from(t, lp, i) {
                        forbidden_run(
                            t,
                            parts.drop_first(),
                            (byte_at(t, first_from(t, lp, i)) + byte_len(parts[0])) as int,
                        )
                    } else {
                        Some(false)
                    }
                },
            }
        },
{
    reveal(forbidden_run);
}

/// Whether `text` holds the forbidden `pattern`: with `.*` in it, its parts
/// in order; without, the pattern itself (all lower-cased). `None` where
/// the search would start inside a character.
pub open spec fn forbidden_outcome(text: Seq<char>, pattern: Seq<char>) -> Option<bool> {
    let t = lowercase(text);
    if contains_seq(pattern, ".*"@) {
        forbidden_run(t, split_on(pattern, ".*"@), 0)
    } else {
        Some(contains_seq(t, lowercase(pattern)))
    }
}

/// The flag of a forbidden pattern found.
pub open spec fn flag_of(pattern: Seq<char>) -> Seq<char> {
    if contains_seq(pattern, "本地"@) || contains_seq(pattern, "地域"@) {
        "restrictive"@
    } else if contains_seq(pattern, "解释权"@) || contains_seq(pattern, "不得异议"@) {
        "overbroad"@
    } else if contains_seq(pattern, "品牌"@) || contains_seq(pattern, "授权"@) {
        "restrictive"@
    } else {
        "unusual"@
    }
}

/// The required items `text` lacks, in order.
pub open spec fn missing_of(text: Seq<char>, items: Seq<TemplateItemView>) -> Seq<TemplateItemView>
    decreases items.len(),
{
    if items.len() == 0 {
        Seq::empty()
    } else {
        let prev = missing_of(text, items.drop_last());
        if !item_found(text, items.last().item) {
            prev.push(items.last())
        } else {
            prev
        }
    }
}

/// The forbidden patterns `text` holds, with their flags, in order.
pub open spec fn extra_of(text: Seq<char>, ps: Seq<Seq<char>>) -> Seq<(Seq<char>, Seq<char>)>
    decreases ps.len(),
{
    if ps.len() == 0 {
        Seq::empty()
    } else {
        let prev = extra_of(text, ps.drop_last());
        if forbidden_outcome(text, ps.last()) == Some(true) {
            prev.push((ps.last(), flag_of(ps.last())))
        } else {
            prev
        }
    }
}

/// The extra items of a clause are exactly the forbidden patterns found in
/// its text, each with its flag: every listed item is a pattern of `ps`
/// that the text holds, and every pattern of `ps` that the text holds is
/// listed; never more items than patterns.
pub proof fn law_extra_items_are_found_patterns(text: Seq<char>, ps: Seq<Seq<char>>)
    ensures
        forall|x: (Seq<char>, Seq<char>)| #[trigger] extra_of(text, ps).contains(x) ==> exists|i: int|
            0 <= i < ps.len() && x == (#[trigger] ps[i], flag_of(ps[i])) && forbidden_outcome(text, ps[i]) == Some(true),
        forall|i: int| 0 <= i < ps.len() && forbidden_outcome(text, #[trigger] ps[i]) == Some(true) ==> extra_of(text, ps).contains(
            (ps[i], flag_of(ps[i])),
        ),
        extra_of(text, ps).len() <= ps.len(),
    decreases ps.len(),
{
    if ps.len() > 0 {
        let d = ps.drop_last();
        law_extra_items_are_found_patterns(text, d);
        let prev = extra_of(text, d);
        let e = extra_of(text, ps);
        let last = ps.last();
        assert forall|i: int| 0 <= i < d.len() implies #[trigger] d[i] == ps[i] by {}
        assert forall|x: (Seq<char>, Seq<char>)| #[trigger] e.contains(x) implies exists|i: int|
            0 <= i < ps.len() && x == (#[trigger] ps[i], flag_of(ps[i])) && forbidden_outcome(text, ps[i]) == Some(true) by {
            if prev.contains(x) {
                let i = choose|i: int| 0 <= i < d.len() && x == (#[trigger] d[i], flag_of(d[i])) && forbidden_outcome(text, d[i]) == Some(true);
                assert(ps[i] == d[i]);
            } else {
                let q = choose|q: int| 0 <= q < e.len() && e[q] == x;
                assert(forbidden_outcome(text, last) == Some(true));
                assert(e == prev.push((last, flag_of(last))));
                assert(q == prev.len());
                assert(ps[ps.len() - 1] == last);
            }
        }
        assert forall|i: int| 0 <= i < ps.len() && forbidden_outcome(text, #[trigger] ps[i]) == Some(true) implies e.contains(
            (ps[i], flag_of(ps[i])),
        ) by {
            if i < d.len() {
                assert(d[i] == ps[i]);
                assert(prev.contains((d[i], flag_of(d[i]))));
                let q = choose|q: int| 0 <= q < prev.len() && prev[q] == (d[i], flag_of(d[i]));
                if forbidden_outcome(text, last) == Some(true) {
                    assert(e[q] == prev[q]);
                }
            } else {
                assert(ps[i] == last);
                assert(e[prev.len() as int] == (last, flag_of(last)));
            }
        }
    }
}

/// The missing items of a clause are exactly the required items it does
/// not hold: each listed item is one of `items` not found in the text, and
/// each such item is listed.
pub proof fn law_missing_items_are_not_found(text: Seq<char>, items: Seq<TemplateItemView>)
    ensures
        forall|x: TemplateItemView| #[trigger] missing_of(text, items).contains(x) ==> items.contains(x) && !item_found(text, x.item),
        forall|i: int| 0 <= i < items.len() && !item_found(text, (#[trigger] items[i]).item) ==> missing_of(text, items).contains(items[i]),
    decreases items.len(),
{
    if items.len() > 0 {
        let d = items.drop_last();
        law_missing_items_are_not_found(text, d);
        let prev = missing_of(text, d);
        let m = missing_of(text, items);
        let last = items.last();
        assert(items[items.len() - 1] == last);
        assert forall|x: TemplateItemView| #[trigger] m.contains(x) implies items.contains(x) && !item_found(text, x.item) by {
            if prev.contains(x) {
                let i = choose|i: int| 0 <= i < d.len() && d[i] == x;
                assert(items[i] == d[i]);
            } else {
                let q = choose|q: int| 0 <= q < m.len() && m[q] == x;
                assert(m == prev.push(last));
                assert(q == prev.len());
            }
        }
        assert forall|i: int| 0 <= i < items.len() && !item_found(text, (#[trigger] items[i]).item) implies m.contains(items[i]) by {
            if i < d.len() {
                assert(d[i] == items[i]);
                assert(d.contains(d[i]));
                let q = choose|q: int| 0 <= q < prev.len() && prev[q] == d[i];
                if !item_found(text, last.item) {
                    assert(m[q] == prev[q]);
                }
            } else {
                assert(m[prev.len() as int] == last);
            }
        }
    }
}

/// The wording issues of a clause are exactly the expected fields it does
/// not name (as written or in lower case): each listed issue is for such a
/// field of `fs`, and each such field has an issue.
pub proof fn law_wording_issues_are_unnamed_fields(text: Seq<char>, fs: Seq<Seq<char>>)
    ensures
        forall|x: (Seq<char>, Seq<char>, Seq<char>)| #[trigger] wording_of(text, fs).contains(x) ==> fs.contains(x.0)
            && !contains_seq(text, x.0) && !contains_seq(text, lowercase(x.0)),
        forall|i: int| 0 <= i < fs.len() && !contains_seq(text, #[trigger] fs[i]) && !contains_seq(text, lowercase(fs[i])) ==> exists|
            q: int,
        | 0 <= q < wording_of(text, fs).len() && (#[trigger] wording_of(text, fs)[q]).0 == fs[i],
    decreases fs.len(),
{
    if fs.len() > 0 {
        let d = fs.drop_last();
        law_wording_issues_are_unnamed_fields(text, d);
        let prev = wording_of(text, d);
        let w = wording_of(text, fs);
        let f = fs.last();
        assert(fs[fs.len() - 1] == f);
        let missing_f = !contains_seq(text, f) && !contains_seq(text, lowercase(f));
        assert forall|x: (Seq<char>, Seq<char>, Seq<char>)| #[trigger] w.contains(x) implies fs.contains(x.0) && !contains_seq(text, x.0)
            && !contains_seq(text, lowercase(x.0)) by {
            if prev.contains(x) {
                let i = choose|i: int| 0 <= i < d.len() && d[i] == x.0;
                assert(fs[i] == d[i]);
            } else {
                let q = choose|q: int| 0 <= q < w.len() && w[q] == x;
                assert(missing_f);
                assert(q == prev.len());
            }
        }
        assert forall|i: int| 0 <= i < fs.len() && !contains_seq(text, #[trigger] fs[i]) && !contains_seq(text, lowercase(fs[i])) implies exists|
            q: int,
        | 0 <= q < w.len() && (#[trigger] w[q]).0 == fs[i] by {
            if i < d.len() {
                assert(d[i] == fs[i]);
                let q = choose|q: int| 0 <= q < prev.len() && (#[trigger] prev[q]).0 == d[i];
                if missing_f {
                    assert(w[q] == prev[q]);
                } else {
                    assert(w == prev);
                }
            } else {
                assert(w[prev.len() as int].0 == f);
            }
        }
    }
}


/// Every forbidden pattern can be searched in `text` without starting
/// inside a character.
pub open spec fn patterns_searchable(text: Seq<char>, ps: Seq<Seq<char>>) -> bool {
    forall|i: int| 0 <= i < ps.len() ==> #[trigger] forbidden_outcome(text, ps[i]) is Some
}

/// The expected fields `text` does not name, in order.
pub open spec fn wording_of(text: Seq<char>, fs: Seq<Seq<char>>) -> Seq<(Seq<char>, Seq<char>, Seq<char>)>
    decreases fs.len(),
{
    if fs.len() == 0 {
        Seq::empty()
    } else {
        let prev = wording_of(text, fs.drop_last());
        let f = fs.last();
        if !contains_seq(text, f) && !contains_seq(text, lowercase(f)) {
            prev.push((f, "应包含 '"@ + f + "' 相关条款"@, "未找到"@))
        } else {
            prev
        }
    }
}

/// The summary line of a comparison.
pub open spec fn template_summary(name: Seq<char>, missing: nat, extra: nat, wording: nat) -> Seq<char> {
    if missing == 0 && extra == 0 && wording == 0 {
        "✅ 该条款与'"@ + name + "'模板完全匹配"@
    } else {
        let p1: Seq<Seq<char>> = if missing > 0 {
            seq!["缺失 "@ + decimal(missing) + " 项必须条款"@]
        } else {
            Seq::empty()
        };
        let p2: Seq<Seq<char>> = if extra > 0 {
            seq!["发现 "@ + decimal(extra) + " 处可疑内容"@]
        } else {
            Seq::empty()
        };
        let p3: Seq<Seq<char>> = if wording > 0 {
            seq![decimal(wording) + " 处措辞差异"@]
        } else {
            Seq::empty()
        };
        "⚠️ "@ + join_seq(p1 + p2 + p3, "，"@)
    }
}

/// The lower-cased characters of `s`.
fn lower_chars(s: &str) -> (r: Vec<char>)
    ensures
        r@ == lowercase(s@),
{
    let l = to_lowercase(s);
    chars_of(l.as_str())
}

/// The head of an item: up to its first stop character.
fn item_head_exec(v: &Vec<char>) -> (r: Vec<char>)
    ensures
        r@ == item_head(v@),
{
    let mut i: usize = 0;
    while i < v.len() && !(v[i] == '、' || v[i] == '，' || v[i] == ',' || v[i] == '（' || v[i] == '(')
        invariant
            i <= v@.len(),
            forall|j: int| 0 <= j < i ==> !item_stop(#[trigger] v@[j]),
        decreases v@.len() - i,
    {
        i += 1;
    }
    proof {
        lemma_item_head(v@, i as int);
    }
    crate::tools::keywords::sub_chars(v, 0, i)
}

/// The head is the prefix before the first stop character.
proof fn lemma_item_head(s: Seq<char>, i: int)
    requires
        0 <= i <= s.len(),
        forall|j: int| 0 <= j < i ==> !item_stop(#[trigger] s[j]),
        i < s.len() ==> item_stop(s[i]),
    ensures
        item_head(s) == s.take(i),
    decreases s.len(),
{
    if s.len() > 0 && i > 0 {
        assert forall|j: int| 0 <= j < i - 1 implies !item_stop(#[trigger] s.drop_first()[j]) by {
            assert(s.drop_first()[j] == s[j + 1]);
        }
        lemma_item_head(s.drop_first(), i - 1);
        assert(seq![s[0]] + s.drop_first().take(i - 1) =~= s.take(i));
    } else if s.len() > 0 {
        assert(s.take(0) =~= Seq::<char>::empty());
    }
}

/// The words of `v` between white space.
fn ws_words_exec(v: &Vec<char>) -> (r: Vec<Vec<char>>)
    ensures
        r@.map_values(|w: Vec<char>| w@) == ws_words(v@),
{
    let mut done: Vec<Vec<char>> = Vec::new();
    let mut cur: Vec<char> = Vec::new();
    let mut i: usize = 0;
    while i < v.len()
        invariant
            i <= v@.len(),
            (done@.map_values(|w: Vec<char>| w@), cur@) == ws_state(v@.take(i as int)),
        decreases v@.len() - i,
    {
        let c = v[i];
        proof {
            assert(v@.take(i + 1).drop_last() =~= v@.take(i as int));
            assert(v@.take(i + 1).last() == c);
        }
        if is_whitespace(c) {
            if cur.len() > 0 {
                let ghost d0 = done@.map_values(|w: Vec<char>| w@);
                done.push(cur);
                proof {
                    assert(done@.map_values(|w: Vec<char>| w@) =~= d0.push(cur@));
                }
            }
            cur = Vec::new();
        } else {
            cur.push(c);
        }
        i += 1;
    }
    proof {
        assert(v@.take(v@.len() as int) =~= v@);
    }
    if cur.len() > 0 {
        let ghost d0 = done@.map_values(|w: Vec<char>| w@);
        done.push(cur);
        proof {
            assert(done@.map_values(|w: Vec<char>| w@) =~= d0.push(cur@));
        }
    }
    done
}

/// The character index at byte offset `pos`, if it is a boundary.
fn boundary_exec(t: &Vec<char>, offs: &Vec<u128>, pos: u128) -> (r: Option<usize>)
    requires
        offs@.len() == t@.len() + 1,
        forall|i: int| 0 <= i <= t@.len() ==> #[trigger] offs@[i] == byte_at(t@, i),
    ensures
        match r {
            Some(i) => boundary_at(t@, pos as int) == Some(i as int),
            None => boundary_at(t@, pos as int) is None,
        },
{
    let mut i: usize = 0;
    while i < offs.len()
        invariant
            i <= offs@.len(),
            offs@.len() == t@.len() + 1,
            forall|q: int| 0 <= q <= t@.len() ==> #[trigger] offs@[q] == byte_at(t@, q),
            forall|q: int| 0 <= q < i ==> byte_at(t@, q) != pos,
        decreases offs@.len() - i,
    {
        if offs[i] == pos {
            proof {
                let c = choose|x: int| 0 <= x <= t@.len() && byte_at(t@, x) == pos;
                assert(0 <= i <= t@.len() && byte_at(t@, i as int) == pos);
                if c < i {
                    lemma_byte_at_mono(t@, c, i as int);
                } else if c > i {
                    lemma_byte_at_mono(t@, i as int, c);
                }
            }
            return Some(i);
        }
        i += 1;
    }
    None
}

/// `forbidden_run` from the start of `t`.
#[verifier::rlimit(40)]
fn run_parts(t: &Vec<char>, parts: &Vec<String>) -> (r: Option<bool>)
    ensures
        r == forbidden_run(t@, parts.deep_view(), 0),
{
    let offs = byte_offsets(t);
    let ghost pv = parts.deep_view();
    let mut pos: u128 = 0;
    let mut k: usize = 0;
    proof {
        assert(pv.skip(0) =~= pv);
    }
    loop
        invariant
            k <= parts@.len(),
            pv == parts.deep_view(),
            offs@.len() == t@.len() + 1,
            forall|i: int| 0 <= i <= t@.len() ==> #[trigger] offs@[i] == byte_at(t@, i),
            forbidden_run(t@, pv, 0) == forbidden_run(t@, pv.skip(k as int), pos as int),
            pos <= 8 * (u64::MAX as int),
        decreases parts@.len() - k,
    {
        proof {
            lemma_run_unfold(t@, pv.skip(k as int), pos as int);
        }
        if k == parts.len() {
            proof {
                assert(pv.skip(k as int).len() == 0);
            }
            return Some(true);
        }
        proof {
            assert(pv.skip(k as int)[0] == pv[k as int]);
            assert(pv.skip(k as int).drop_first() =~= pv.skip(k + 1));
        }
        match boundary_exec(t, &offs, pos) {
            None => {
                return None;
            },
            Some(i) => {
                let lp = lower_chars(parts[k].as_str());
                match find_at_or_after(t, &lp, i) {
                    None => {
                        return Some(false);
                    },
                    Some(j) => {
                        let blen = byte_count(parts[k].as_str());
                        proof {
                            crate::tools::keywords::lemma_byte_bound(t@, j as int);
                        }
                        pos = offs[j] + blen;
                    },
                }
            },
        }
        k += 1;
    }
}

/// Bytes of `s` in UTF-8.
fn byte_count(s: &str) -> (r: u128)
    ensures
        r == byte_len(s@),
        r <= 4 * (u64::MAX as int),
{
    let v = chars_of(s);
    let offs = byte_offsets(&v);
    proof {
        assert(v@.take(v@.len() as int) =~= v@);
        crate::tools::keywords::lemma_byte_bound(v@, v@.len() as int);
    }
    offs[v.len()]
}

impl CompareWithTemplateTool {
    /// A tool over the given templates and chunk texts.
    pub fn new(templates: TemplateStore, text_provider: ChunkTextProvider) -> (r: Self)
        ensures
            r.templates == templates,
            r.text_provider == text_provider,
    {
        CompareWithTemplateTool { templates, text_provider }
    }

    /// The tool's name.
    pub fn name(&self) -> (r: &'static str)
        ensures
            r@ == "compare_with_template"@,
    {
        "compare_with_template"
    }

    /// Whether `text` holds the required `item`, as `item_found` says.
    pub fn contains_item(text: &str, item: &str) -> (r: bool)
        ensures
            r == item_found(text@, item@),
    {
        let lt = lower_chars(text);
        let iv = chars_of(item);
        let head = item_head_exec(&iv);
        let ws = ws_words_exec(&head);
        let ghost wv = ws@.map_values(|w: Vec<char>| w@);
        let mut i: usize = 0;
        while i < ws.len()
            invariant
                i <= ws@.len(),
                wv == ws@.map_values(|w: Vec<char>| w@),
                wv == ws_words(item_head(item@)),
                lt@ == lowercase(text@),
                forall|j: int| 0 <= j < i ==> !(byte_len(#[trigger] wv[j]) >= 4 && contains_seq(lt@, lowercase(wv[j]))),
            decreases ws@.len() - i,
        {
            let w = string_from_chars(ws[i].as_slice());
            if byte_count(w.as_str()) >= 4 {
                let lw = lower_chars(w.as_str());
                if crate::text::contains_chars(&lt, &lw) {
                    assert(byte_len(wv[i as int]) >= 4 && contains_seq(lt@, lowercase(wv[i as int])));
                    return true;
                }
            }
            i += 1;
        }
        let core = take_prefix(item, 6);
        let lc = lower_chars(core.as_str());
        crate::text::contains_chars(&lt, &lc)
    }

    /// Whether `text` holds the forbidden `pattern`, or `None` where the
    /// search would start inside a character, as `forbidden_outcome` says.
    pub fn forbidden_check(text: &str, pattern: &str) -> (r: Option<bool>)
        ensures
            r == forbidden_outcome(text@, pattern@),
    {
        let t = lower_chars(text);
        proof {
            reveal_strlit(".*");
        }
        if str_contains(pattern, ".*") {
            let parts = split_str(pattern, ".*");
            run_parts(&t, &parts)
        } else {
            let lp = lower_chars(pattern);
            Some(crate::text::contains_chars(&t, &lp))
        }
    }

    /// Whether `text` holds the forbidden `pattern`.
    pub fn contains_forbidden(text: &str, pattern: &str) -> (r: bool)
        requires
            forbidden_outcome(text@, pattern@) is Some,
        ensures
            r == forbidden_outcome(text@, pattern@)->Some_0,
    {
        match Self::forbidden_check(text, pattern) {
            Some(b) => b,
            None => false,
        }
    }
}


/// A missing required item.
fn missing_item(t: &TemplateItem) -> (r: MissingItem)
    ensures
        r.deep_view() == t.deep_view(),
{
    MissingItem { item: t.item.clone(), severity: t.severity.clone(), legal_basis: t.legal_basis.clone() }
}

/// The flag of a forbidden pattern found.
fn flag_exec(p: &str) -> (r: &'static str)
    ensures
        r@ == flag_of(p@),
{
    if str_contains(p, "本地") || str_contains(p, "地域") {
        "restrictive"
    } else if str_contains(p, "解释权") || str_contains(p, "不得异议") {
        "overbroad"
    } else if str_contains(p, "品牌") || str_contains(p, "授权") {
        "restrictive"
    } else {
        "unusual"
    }
}

/// A count followed by its unit, as a summary part.
fn part_text(pre: &str, n: usize, post: &str) -> (r: String)
    ensures
        r@ == pre@ + decimal(n as nat) + post@,
{
    let mut s = to_owned_string(pre);
    push_str(&mut s, decimal_string(n as u64).as_str());
    push_str(&mut s, post);
    s
}

impl CompareWithTemplateTool {
    /// Compares `text` with `template`: the required items it lacks, the
    /// forbidden patterns it holds, the expected fields it does not name,
    /// and a summary. Refuses a template with a pattern that cannot be
    /// searched without starting inside a character.
    pub fn compare_text(text: &str, template: &StandardTemplate) -> (r: Result<TemplateCompareResult, String>)
        ensures
            r is Ok <==> patterns_searchable(text@, template.forbidden_patterns.deep_view()),
            r matches Err(e) ==> e@ == "禁止模式的匹配位置落在字符中间"@,
            r matches Ok(res) ==> {
                let t = template.deep_view();
                let m = missing_of(text@, t.required_items);
                let x = extra_of(text@, t.forbidden_patterns);
                let w = wording_of(text@, t.expected_fields);
                &&& res.missing.deep_view() == m
                &&& res.extra.deep_view() == x
                &&& res.wording_diff.deep_view() == w
                &&& res.template_name@ == t.name
                &&& res.summary@ == template_summary(t.name, m.len(), x.len(), w.len())
            },
    {
        let ghost tv = template.deep_view();
        let mut missing: Vec<MissingItem> = Vec::new();
        let mut i: usize = 0;
        while i < template.required_items.len()
            invariant
                i <= template.required_items@.len(),
                tv == template.deep_view(),
                missing.deep_view() == missing_of(text@, tv.required_items.take(i as int)),
                missing@.len() <= i,
            decreases template.required_items@.len() - i,
        {
            proof {
                assert(tv.required_items.take(i + 1).drop_last() =~= tv.required_items.take(i as int));
                assert(tv.required_items.take(i + 1).last() == template.required_items@[i as int].deep_view());
            }
            let it = &template.required_items[i];
            if !Self::contains_item(text, it.item.as_str()) {
                let ghost m0 = missing.deep_view();
                let mi = missing_item(it);
                missing.push(mi);
                proof {
                    assert(missing.deep_view() =~= m0.push(it.deep_view()));
                }
            }
            i += 1;
        }
        proof {
            assert(tv.required_items.take(template.required_items@.len() as int) =~= tv.required_items);
        }
        let mut extra: Vec<ExtraItem> = Vec::new();
        let mut k: usize = 0;
        while k < template.forbidden_patterns.len()
            invariant
                k <= template.forbidden_patterns@.len(),
                tv == template.deep_view(),
                extra.deep_view() == extra_of(text@, tv.forbidden_patterns.take(k as int)),
                patterns_searchable(text@, tv.forbidden_patterns.take(k as int)),
                extra@.len() <= k,
            decreases template.forbidden_patterns@.len() - k,
        {
            proof {
                assert(tv.forbidden_patterns.take(k + 1).drop_last() =~= tv.forbidden_patterns.take(k as int));
                assert(tv.forbidden_patterns.take(k + 1).last() == template.forbidden_patterns@[k as int]@);
            }
            let p = template.forbidden_patterns[k].as_str();
            match Self::forbidden_check(text, p) {
                None => {
                    proof {
                        assert(tv.forbidden_patterns[k as int] == p@);
                        assert(forbidden_outcome(text@, tv.forbidden_patterns[k as int]) is None);
                    }
                    return Err(to_owned_string("禁止模式的匹配位置落在字符中间"));
                },
                Some(found) => {
                    if found {
                        let e = ExtraItem { item: template.forbidden_patterns[k].clone(), flag: to_owned_string(flag_exec(p)) };
                        let ghost e0 = extra.deep_view();
                        extra.push(e);
                        proof {
                            assert(extra.deep_view() =~= e0.push((p@, flag_of(p@))));
                        }
                    }
                    proof {
                        assert forall|q: int| 0 <= q < k + 1 implies #[trigger] forbidden_outcome(
                            text@,
                            tv.forbidden_patterns.take(k + 1)[q],
                        ) is Some by {
                            if q < k {
                                assert(tv.forbidden_patterns.take(k + 1)[q] == tv.forbidden_patterns.take(k as int)[q]);
                            }
                        }
                    }
                },
            }
            k += 1;
        }
        proof {
            assert(tv.forbidden_patterns.take(template.forbidden_patterns@.len() as int) =~= tv.forbidden_patterns);
        }
        let mut wording: Vec<WordingDiff> = Vec::new();
        let mut q: usize = 0;
        while q < template.expected_fields.len()
            invariant
                q <= template.expected_fields@.len(),
                tv == template.deep_view(),
                wording.deep_view() == wording_of(text@, tv.expected_fields.take(q as int)),
                wording@.len() <= q,
            decreases template.expected_fields@.len() - q,
        {
            proof {
                assert(tv.expected_fields.take(q + 1).drop_last() =~= tv.expected_fields.take(q as int));
                assert(tv.expected_fields.take(q + 1).last() == template.expected_fields@[q as int]@);
            }
            let f = template.expected_fields[q].as_str();
            let lf = to_lowercase(f);
            if !str_contains(text, f) && !str_contains(text, lf.as_str()) {
                let mut exp = to_owned_string("应包含 '");
                push_str(&mut exp, f);
                push_str(&mut exp, "' 相关条款");
                let wd = WordingDiff { field: template.expected_fields[q].clone(), expected: exp, actual: to_owned_string("未找到") };
                let ghost w0 = wording.deep_view();
                wording.push(wd);
                proof {
                    assert(wording.deep_view() =~= w0.push(wd.deep_view()));
                }
            }
            q += 1;
        }
        proof {
            assert(tv.expected_fields.take(template.expected_fields@.len() as int) =~= tv.expected_fields);
        }
        let summary = if missing.len() == 0 && extra.len() == 0 && wording.len() == 0 {
            let mut s = to_owned_string("✅ 该条款与'");
            push_str(&mut s, template.name.as_str());
            push_str(&mut s, "'模板完全匹配");
            s
        } else {
            let mut parts: Vec<String> = Vec::new();
            if missing.len() > 0 {
                parts.push(part_text("缺失 ", missing.len(), " 项必须条款"));
            }
            if extra.len() > 0 {
                parts.push(part_text("发现 ", extra.len(), " 处可疑内容"));
            }
            if wording.len() > 0 {
                parts.push(part_text("", wording.len(), " 处措辞差异"));
            }
            proof {
                reveal_strlit("");
                let mn = missing@.len() as nat;
                let xn = extra@.len() as nat;
                let wn = wording@.len() as nat;
                let p1: Seq<Seq<char>> = if mn > 0 {
                    seq!["缺失 "@ + decimal(mn) + " 项必须条款"@]
                } else {
                    Seq::empty()
                };
                let p2: Seq<Seq<char>> = if xn > 0 {
                    seq!["发现 "@ + decimal(xn) + " 处可疑内容"@]
                } else {
                    Seq::empty()
                };
                let p3: Seq<Seq<char>> = if wn > 0 {
                    seq![decimal(wn) + " 处措辞差异"@]
                } else {
                    Seq::empty()
                };
                if wn > 0 {
                    assert(""@ + decimal(wn) + " 处措辞差异"@ =~= decimal(wn) + " 处措辞差异"@);
                }
                assert(parts.deep_view() =~= p1 + p2 + p3);
            }
            let mut s = to_owned_string("⚠️ ");
            push_str(&mut s, join_strings(&parts, "，").as_str());
            s
        };
        Ok(TemplateCompareResult { missing, extra, wording_diff: wording, template_name: template.name.clone(), summary })
    }

    /// Compares the clause of `args.clause_chunk` with the template of
    /// `args.template_type`: refuses an unknown chunk, then an unknown
    /// template type (listing the known ones); otherwise as `compare_text`.
    pub fn execute(&self, args: &CompareWithTemplateArgs) -> (r: Result<TemplateCompareResult, String>)
        ensures
            !self.text_provider.view().dom().contains(args.clause_chunk@) ==> (r is Err && r->Err_0@ == "chunk_id 不存在: "@
                + args.clause_chunk@),
            self.text_provider.view().dom().contains(args.clause_chunk@) && !self.templates.view().dom().contains(
                args.template_type@,
            ) ==> (r is Err && r->Err_0@ == "未知模板类型: "@ + args.template_type@ + "。可用模板: "@ + join_seq(
                self.templates.type_order(),
                ", "@,
            )),
            self.text_provider.view().dom().contains(args.clause_chunk@) && self.templates.view().dom().contains(
                args.template_type@,
            ) ==> {
                let text = self.text_provider.view()[args.clause_chunk@].text;
                let t = self.templates.view()[args.template_type@];
                let m = missing_of(text, t.required_items);
                let x = extra_of(text, t.forbidden_patterns);
                let w = wording_of(text, t.expected_fields);
                &&& (r is Ok <==> patterns_searchable(text, t.forbidden_patterns))
                &&& r matches Ok(res) ==> {
                    &&& res.missing.deep_view() == m
                    &&& res.extra.deep_view() == x
                    &&& res.wording_diff.deep_view() == w
                    &&& res.template_name@ == t.name
                    &&& res.summary@ == template_summary(t.name, m.len(), x.len(), w.len())
                }
            },
    {
        let text = match self.text_provider.text_of(args.clause_chunk.as_str()) {
            Some(t) => t,
            None => {
                let mut e = to_owned_string("chunk_id 不存在: ");
                push_str(&mut e, args.clause_chunk.as_str());
                return Err(e);
            },
        };
        let template = match self.templates.get(args.template_type.as_str()) {
            Some(t) => t,
            None => {
                let mut e = to_owned_string("未知模板类型: ");
                push_str(&mut e, args.template_type.as_str());
                push_str(&mut e, "。可用模板: ");
                push_str(&mut e, self.templates.types_text().as_str());
                return Err(e);
            },
        };
        Self::compare_text(text.as_str(), template)
    }
}

} // verus!
