use tender_agents::tools::calculate_timeline::{
    CalcStatus, CalculateTimelineArgs, CalculateTimelineTool, DateEvent, DayCountType, TimelineCalculation,
    TimelineCalculationResult, TimelineResult,
};

fn run(dates: Vec<DateEvent>, calcs: Vec<TimelineCalculation>) -> TimelineResult {
    CalculateTimelineTool
        .execute(&CalculateTimelineArgs { dates, calculations: calcs })
        .expect("dates 非空时应成功")
}

fn date(label: &str, date_str: &str, event_type: Option<&str>) -> DateEvent {
    DateEvent {
        label: label.to_string(),
        date_str: date_str.to_string(),
        event_type: event_type.map(|s| s.to_string()),
    }
}

fn calc(from: &str, to: &str, day_count_type: &str) -> TimelineCalculation {
    TimelineCalculation {
        from: from.to_string(),
        to: to.to_string(),
        day_count_type: DayCountType::from_name(day_count_type).expect("已知计数类型"),
    }
}

fn result_for<'a>(out: &'a TimelineResult, from: &str, to: &str) -> &'a TimelineCalculationResult {
    out.calculations
        .iter()
        .find(|c| c.from == from && c.to == to)
        .expect("缺少计算结果")
}

#[test]
fn duplicate_label_invalid_input() {
    let out = run(
        vec![date("投标截止", "2025-06-01", None), date("投标截止", "2025-06-02", None)],
        vec![calc("投标截止", "投标截止", "calendar_days")],
    );
    let r = result_for(&out, "投标截止", "投标截止");
    assert_eq!(r.status, CalcStatus::InvalidInput);
    assert!(r.diagnostic.contains("重复 label"));
    assert!(out.calculations.iter().all(|c| c.actual_days.is_none()));
}

#[test]
fn missing_label_reference_invalid_input() {
    let out = run(
        vec![date("A", "2025-06-01", None), date("B", "2025-06-21", None)],
        vec![calc("A", "C", "calendar_days")],
    );
    let r = result_for(&out, "A", "C");
    assert_eq!(r.status, CalcStatus::InvalidInput);
    assert!(r.diagnostic.contains("C"));
}

#[test]
fn calendar_days_execute_20() {
    let out = run(
        vec![date("A", "2025-06-01", None), date("B", "2025-06-21", None)],
        vec![calc("A", "B", "calendar_days")],
    );
    let r = result_for(&out, "A", "B");
    assert_eq!(r.status, CalcStatus::Calculated);
    assert_eq!(r.actual_days, Some(20));
    assert_eq!(r.day_count_type, "calendar_days");
}

#[test]
fn working_days_execute_mon_to_fri_4() {
    let out = run(
        vec![date("A", "2025-06-09", None), date("B", "2025-06-13", None)],
        vec![calc("A", "B", "working_days")],
    );
    let r = result_for(&out, "A", "B");
    assert_eq!(r.status, CalcStatus::Calculated);
    assert_eq!(r.actual_days, Some(4));
    assert_eq!(r.day_count_type, "working_days");
}

#[test]
fn weekend_consumer_wd_differs_from_cd() {
    let out = run(
        vec![date("A", "2025-03-07", None), date("B", "2025-03-13", None)],
        vec![calc("A", "B", "calendar_days"), calc("A", "B", "working_days")],
    );
    assert_eq!(out.calculations.len(), 2);
    assert_eq!(out.calculations[0].day_count_type, "calendar_days");
    assert_eq!(out.calculations[0].actual_days, Some(6));
    assert_eq!(out.calculations[1].day_count_type, "working_days");
    assert_eq!(out.calculations[1].actual_days, Some(4));
}

#[test]
fn makeup_workday_sunday_counts() {
    let out = run(
        vec![date("A", "2024-02-16", None), date("B", "2024-02-22", None)],
        vec![calc("A", "B", "working_days")],
    );
    let r = result_for(&out, "A", "B");
    assert_eq!(r.status, CalcStatus::Calculated);
    assert_eq!(r.actual_days, Some(5), "2024-02-18 调休周日必须计入工作日");
}

#[test]
fn scheduled_day_off_not_counted() {
    let out = run(
        vec![date("A", "2025-05-30", None), date("B", "2025-06-03", None)],
        vec![calc("A", "B", "working_days")],
    );
    let r = result_for(&out, "A", "B");
    assert_eq!(r.status, CalcStatus::Calculated);
    assert_eq!(r.actual_days, Some(1));
}

#[test]
fn calendar_days_2027_still_calculated() {
    let out = run(
        vec![date("A", "2027-01-01", None), date("B", "2027-01-11", None)],
        vec![calc("A", "B", "calendar_days")],
    );
    let r = result_for(&out, "A", "B");
    assert_eq!(r.status, CalcStatus::Calculated);
    assert_eq!(r.actual_days, Some(10));
}

#[test]
fn working_days_2027_calendar_unavailable() {
    let out = run(
        vec![date("A", "2027-01-01", None), date("B", "2027-01-11", None)],
        vec![calc("A", "B", "working_days")],
    );
    let r = result_for(&out, "A", "B");
    assert_eq!(r.status, CalcStatus::CalendarUnavailable);
    assert!(r.diagnostic.contains("2027"), "必须保留 year=2027: {}", r.diagnostic);
    assert!(r.actual_days.is_none());
}

#[test]
fn invalid_date_diagnostic_has_label_and_date() {
    let out = run(
        vec![date("A", "2025-02-30", None), date("B", "2025-06-21", None)],
        vec![calc("A", "B", "calendar_days")],
    );
    let r = result_for(&out, "A", "B");
    assert_eq!(r.status, CalcStatus::InvalidInput);
    assert!(r.diagnostic.contains("A"));
    assert!(r.diagnostic.contains("2025-02-30"));
    assert!(!out.events[0].parsed);
    assert!(out.summary.contains("1 个日期解析失败"));
}

#[test]
fn reverse_date_invalid_input() {
    let out = run(
        vec![date("A", "2025-06-21", None), date("B", "2025-06-01", None)],
        vec![calc("A", "B", "calendar_days")],
    );
    let r = result_for(&out, "A", "B");
    assert_eq!(r.status, CalcStatus::InvalidInput);
    assert!(r.diagnostic.contains("EndBeforeStart"));
    assert_eq!(
        r.diagnostic,
        "from 日期 2025-06-21 晚于 to 日期 2025-06-01（EndBeforeStart），禁止反向计算"
    );
}

#[test]
fn same_date_zero_days() {
    let out = run(
        vec![date("A", "2025-06-01", None), date("B", "2025-06-01", None)],
        vec![calc("A", "B", "calendar_days")],
    );
    let r = result_for(&out, "A", "B");
    assert_eq!(r.status, CalcStatus::Calculated);
    assert_eq!(r.actual_days, Some(0));
}

#[test]
fn multi_relation_no_auto_extra() {
    let out = run(
        vec![date("A", "2025-06-01", None), date("B", "2025-06-21", None), date("C", "2025-06-30", None)],
        vec![calc("A", "B", "calendar_days"), calc("B", "C", "working_days")],
    );
    assert_eq!(out.calculations.len(), 2, "只允许计算明确指定的对");
    assert!(out.calculations.iter().all(|c| !(c.from == "A" && c.to == "C")));
}

#[test]
fn empty_calculations_insufficient_input() {
    let out = run(
        vec![
            date("公告发布", "2025-06-01", Some("announcement")),
            date("投标截止", "2025-06-22", Some("deadline")),
        ],
        vec![],
    );
    assert_eq!(out.calculations.len(), 0, "calculations 必须保持 0");
    assert!(out.summary.contains("insufficient input"));
    assert_eq!(
        out.summary,
        "insufficient input：未提供 calculations，未执行任何日期差计算（2 个事件节点）"
    );
}

#[test]
fn pure_contradiction_no_legal_output() {
    let out = run(
        vec![date("投标截止", "2025-06-22", Some("deadline")), date("开标", "2025-06-20", Some("bid_opening"))],
        vec![],
    );
    assert!(!out.contradictions.is_empty());
    assert_eq!(out.contradictions[0].description, "开标日期应在投标截止之后");
    assert_eq!(out.contradictions[0].detail, "开标日期(2025-06-20) < 投标截止(2025-06-22)，时序矛盾");
}

#[test]
fn opening_before_deadline_contradiction() {
    let out = run(
        vec![date("投标截止", "2025-06-20", Some("deadline")), date("开标", "2025-06-19", Some("bid_opening"))],
        vec![],
    );
    assert_eq!(out.contradictions.len(), 1, "开标早于截止必须矛盾");
}

#[test]
fn opening_equal_deadline_no_contradiction() {
    let out = run(
        vec![date("投标截止", "2025-06-20", Some("deadline")), date("开标", "2025-06-20", Some("bid_opening"))],
        vec![],
    );
    assert!(out.contradictions.is_empty());
}

#[test]
fn opening_after_deadline_no_pure_sequence_contradiction() {
    let out = run(
        vec![date("投标截止", "2025-06-20", Some("deadline")), date("开标", "2025-06-21", Some("bid_opening"))],
        vec![],
    );
    assert!(out.contradictions.is_empty());
}

#[test]
fn announcement_on_deadline_and_award_before_opening_contradict() {
    let out = run(
        vec![
            date("公告", "2025-06-22", Some("announcement")),
            date("截止", "2025-06-22", Some("deadline")),
            date("开标", "2025-06-22", Some("bid_opening")),
            date("中标", "2025-06-21", Some("award")),
        ],
        vec![calc("公告", "截止", "calendar_days")],
    );
    assert_eq!(out.contradictions.len(), 2);
    assert_eq!(out.contradictions[0].description, "公告发布日期应在投标截止之前");
    assert_eq!(out.contradictions[1].description, "中标日期应在开标之后");
    assert_eq!(out.summary, "完成 1 个日期关系计算；发现 2 个时间顺序矛盾");
}

#[test]
fn empty_dates_refused() {
    let r = CalculateTimelineTool.execute(&CalculateTimelineArgs { dates: vec![], calculations: vec![] });
    assert_eq!(r.err(), Some("dates 不能为空".to_string()));
}

#[test]
fn blank_label_refuses_every_calculation() {
    let out = run(
        vec![date(" ", "2025-06-01", None), date("B", "2025-06-02", None)],
        vec![calc("B", "B", "calendar_days")],
    );
    assert_eq!(out.calculations[0].status, CalcStatus::InvalidInput);
    assert_eq!(out.calculations[0].diagnostic, "label 校验失败（存在空 label），未执行任何计算");
    assert_eq!(out.summary, "完成 0 个日期关系计算；1 个因输入非法未完成");
}

#[test]
fn day_count_type_names() {
    assert_eq!(DayCountType::from_name("CalendarDays"), Some(DayCountType::CalendarDays));
    assert_eq!(DayCountType::from_name("WorkingDays"), Some(DayCountType::WorkingDays));
    assert_eq!(DayCountType::from_name("days"), None);
    assert_eq!(DayCountType::WorkingDays.as_str(), "working_days");
    assert_eq!(CalculateTimelineTool.name(), "calculate_timeline");
}
