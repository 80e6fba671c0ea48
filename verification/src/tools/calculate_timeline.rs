//! `calculate_timeline`: date arithmetic over the dates of a tender. It
//! parses the dates (YYYY-MM-DD), counts calendar or working days between
//! the pairs the caller names, and reports pure ordering contradictions; it
//! judges no legal period.
use vstd::prelude::*;

use chrono::Datelike;

use crate::text::{
    all_white, decimal, decimal_string, digit_char, is_blank, push_char, push_str, str_eq, to_owned_string,
    trim_seq, trim_string,
};
use crate::tools::calendar::{
    before, date_before, day_number, signed_decimal, signed_decimal_string, valid_date, workday_count,
    CalendarDaysCounter, CivilDate, CnCalendarProvider, TimeDomainError, WorkingDaysCounter,
};

verus! {

/// How the days between two dates are counted.
#[derive(Debug, Clone, Copy, PartialEq, Eq, Structural)]
pub enum DayCountType {
    CalendarDays,
    WorkingDays,
}

/// The kind named by `s`: "calendar_days" (or "CalendarDays") and
/// "working_days" (or "WorkingDays").
pub open spec fn day_count_type_named(s: Seq<char>) -> Option<DayCountType> {
    if s == "calendar_days"@ || s == "CalendarDays"@ {
        Some(DayCountType::CalendarDays)
    } else if s == "working_days"@ || s == "WorkingDays"@ {
        Some(DayCountType::WorkingDays)
    } else {
        None
    }
}

/// The canonical name of a kind.
pub open spec fn day_count_type_text(t: DayCountType) -> Seq<char> {
    match t {
        DayCountType::CalendarDays => "calendar_days"@,
        DayCountType::WorkingDays => "working_days"@,
    }
}

impl DayCountType {
    /// The kind a name gives, if any.
    pub fn from_name(s: &str) -> (r: Option<DayCountType>)
        ensures
            r == day_count_type_named(s@),
    {
        if str_eq(s, "calendar_days") || str_eq(s, "CalendarDays") {
            Some(DayCountType::CalendarDays)
        } else if str_eq(s, "working_days") || str_eq(s, "WorkingDays") {
            Some(DayCountType::WorkingDays)
        } else {
            None
        }
    }

    /// The canonical name.
    pub fn as_str(&self) -> (r: &'static str)
        ensures
            r@ == day_count_type_text(*self),
    {
        match self {
            DayCountType::CalendarDays => "calendar_days",
            DayCountType::WorkingDays => "working_days",
        }
    }
}

/// The message for a name that is no kind of count.
pub fn day_count_type_error(s: &str) -> (r: String)
    ensures
        r@ == "invalid day_count_type '"@ + s@ + "'（支持 calendar_days / working_days）"@,
{
    let mut m = to_owned_string("invalid day_count_type '");
    push_str(&mut m, s);
    push_str(&mut m, "'（支持 calendar_days / working_days）");
    m
}

/// One dated event.
pub struct DateEvent {
    /// The event's name; must be non-blank and unique.
    pub label: String,
    /// The date, as YYYY-MM-DD.
    pub date_str: String,
    /// What the event is ("announcement", "deadline", "bid_opening",
    /// "award", ...); only used to find ordering contradictions.
    pub event_type: Option<String>,
}

/// A requested count of days from one event to another.
pub struct TimelineCalculation {
    pub from: String,
    pub to: String,
    pub day_count_type: DayCountType,
}

/// The arguments of the tool.
pub struct CalculateTimelineArgs {
    pub dates: Vec<DateEvent>,
    pub calculations: Vec<TimelineCalculation>,
}

/// An event with whether its date parsed.
pub struct ResolvedEvent {
    pub label: String,
    pub date_str: String,
    pub parsed: bool,
    pub event_type: Option<String>,
}

/// Whether a count was made (not a legal judgement).
#[derive(Debug, Clone, Copy, PartialEq, Eq, Structural)]
pub enum CalcStatus {
    Calculated,
    InvalidInput,
    CalendarUnavailable,
}

/// The outcome of one requested count.
pub struct TimelineCalculationResult {
    pub from: String,
    pub to: String,
    pub day_count_type: String,
    pub actual_days: Option<i64>,
    pub status: CalcStatus,
    pub diagnostic: String,
}

/// Two events in an impossible order.
pub struct TimelineContradiction {
    pub description: String,
    pub event_a: String,
    pub event_b: String,
    pub detail: String,
}

/// The outcome of the tool.
pub struct TimelineResult {
    pub events: Vec<ResolvedEvent>,
    pub calculations: Vec<TimelineCalculationResult>,
    pub contradictions: Vec<TimelineContradiction>,
    pub summary: String,
}

/// The content of an event: label, date text, kind.
pub type EventView = (Seq<char>, Seq<char>, Option<Seq<char>>);

impl DeepView for DateEvent {
    type V = EventView;

    open spec fn deep_view(&self) -> EventView {
        (self.label@, self.date_str@, self.event_type.deep_view())
    }
}

/// The date that `chrono` reads from `s` with the format `%Y-%m-%d`.
pub uninterp spec fn ymd_parse(s: Seq<char>) -> Option<CivilDate>;

/// Reads a date as `%Y-%m-%d` with `chrono::NaiveDate::parse_from_str`;
/// the date it gives is one `chrono` can hold, so a valid one.
#[verifier::external_body]
fn parse_ymd(s: &str) -> (r: Option<CivilDate>)
    ensures
        r == ymd_parse(s@),
        r matches Some(d) ==> valid_date(d),
{
    match chrono::NaiveDate::parse_from_str(s, "%Y-%m-%d") {
        Ok(d) => Some(CivilDate { year: d.year(), month: d.month(), day: d.day() }),
        Err(_) => None,
    }
}

/// The date of an event's text (trimmed first), if it reads as one.
pub open spec fn event_date(date_str: Seq<char>) -> Option<CivilDate> {
    ymd_parse(trim_seq(date_str))
}

/// Two decimal digits of `n` (below 100).
pub open spec fn two_digits(n: int) -> Seq<char> {
    seq![digit_char((n / 10) as nat), digit_char((n % 10) as nat)]
}

/// The digits of `n`, zero-padded to at least four.
pub open spec fn four_digits(n: nat) -> Seq<char> {
    if n < 10 {
        "000"@ + decimal(n)
    } else if n < 100 {
        "00"@ + decimal(n)
    } else if n < 1000 {
        "0"@ + decimal(n)
    } else {
        decimal(n)
    }
}

/// A date as `chrono` prints it: YYYY-MM-DD, the year signed when it is
/// outside 0 to 9999.
pub open spec fn date_text(d: CivilDate) -> Seq<char> {
    let y = d.year as int;
    let year = if 0 <= y <= 9999 {
        two_digits(y / 100) + two_digits(y % 100)
    } else if y < 0 {
        seq!['-'] + four_digits((-y) as nat)
    } else {
        seq!['+'] + four_digits(y as nat)
    };
    year + seq!['-'] + two_digits(d.month as int) + seq!['-'] + two_digits(d.day as int)
}

/// Appends two decimal digits of `n`.
fn push_two_digits(s: &mut String, n: u32)
    requires
        n < 100,
    ensures
        final(s)@ == old(s)@ + two_digits(n as int),
{
    push_char(s, digit(n / 10));
    push_char(s, digit(n % 10));
}

/// The decimal digit `d`.
fn digit(d: u32) -> (c: char)
    requires
        d < 10,
    ensures
        c == digit_char(d as nat),
{
    if d == 0 {
        '0'
    } else if d == 1 {
        '1'
    } else if d == 2 {
        '2'
    } else if d == 3 {
        '3'
    } else if d == 4 {
        '4'
    } else if d == 5 {
        '5'
    } else if d == 6 {
        '6'
    } else if d == 7 {
        '7'
    } else if d == 8 {
        '8'
    } else {
        '9'
    }
}

/// Appends `n` zero-padded to at least four digits.
fn push_four_digits(s: &mut String, n: u64)
    ensures
        final(s)@ == old(s)@ + four_digits(n as nat),
{
    if n < 10 {
        push_str(s, "000");
    } else if n < 100 {
        push_str(s, "00");
    } else if n < 1000 {
        push_str(s, "0");
    }
    push_str(s, decimal_string(n).as_str());
    proof {
        reveal_strlit("000");
        reveal_strlit("00");
        reveal_strlit("0");
    }
}

/// A date as `chrono` prints it.
pub fn format_date(d: CivilDate) -> (r: String)
    requires
        valid_date(d),
    ensures
        r@ == date_text(d),
{
    let mut s = String::new();
    let y = d.year;
    if 0 <= y && y <= 9999 {
        push_two_digits(&mut s, (y / 100) as u32);
        push_two_digits(&mut s, (y % 100) as u32);
    } else if y < 0 {
        push_char(&mut s, '-');
        push_four_digits(&mut s, (0 - (y as i64)) as u64);
    } else {
        push_char(&mut s, '+');
        push_four_digits(&mut s, y as u64);
    }
    push_char(&mut s, '-');
    push_two_digits(&mut s, d.month);
    push_char(&mut s, '-');
    push_two_digits(&mut s, d.day);
    s
}

/// The problem of the `i`-th label, if any: blank, or equal to an earlier
/// non-blank label.
pub open spec fn label_issue(ds: Seq<EventView>, i: int) -> Option<Seq<char>> {
    let l = ds[i].0;
    if all_white(l) {
        Some("存在空 label"@)
    } else if exists|j: int| 0 <= j < i && !all_white(#[trigger] ds[j].0) && ds[j].0 == l {
        Some("重复 label '"@ + l + "'"@)
    } else {
        None
    }
}

/// The label problems of the first `n` events, in order.
pub open spec fn label_problems(ds: Seq<EventView>, n: int) -> Seq<Seq<char>>
    decreases n,
{
    if n <= 0 {
        Seq::empty()
    } else {
        let p = label_problems(ds, n - 1);
        match label_issue(ds, n - 1) {
            Some(x) => p.push(x),
            None => p,
        }
    }
}

/// The label problems of the events.
fn check_labels(dates: &Vec<DateEvent>) -> (r: Vec<String>)
    ensures
        r.deep_view() == label_problems(dates.deep_view(), dates@.len() as int),
{
    let ghost ds = dates.deep_view();
    let mut out: Vec<String> = Vec::new();
    let mut i: usize = 0;
    while i < dates.len()
        invariant
            i <= dates@.len(),
            ds == dates.deep_view(),
            out.deep_view() == label_problems(ds, i as int),
        decreases dates@.len() - i,
    {
        let l = dates[i].label.as_str();
        proof {
            assert(ds[i as int].0 == l@);
        }
        if is_blank(l) {
            out.push(to_owned_string("存在空 label"));
        } else {
            let mut seen = false;
            let mut j: usize = 0;
            while j < i
                invariant
                    j <= i < dates@.len(),
                    ds == dates.deep_view(),
                    l@ == ds[i as int].0,
                    seen <==> exists|k: int| 0 <= k < j && !all_white(#[trigger] ds[k].0) && ds[k].0 == l@,
                decreases i - j,
            {
                proof {
                    assert(ds[j as int].0 == dates@[j as int].label@);
                }
                if !seen && !is_blank(dates[j].label.as_str()) && str_eq(dates[j].label.as_str(), l) {
                    seen = true;
                }
                j += 1;
            }
            if seen {
                let mut m = to_owned_string("重复 label '");
                push_str(&mut m, l);
                push_str(&mut m, "'");
                out.push(m);
            }
        }
        proof {
            let v = out.deep_view();
            assert(v == label_problems(ds, i + 1));
        }
        i += 1;
    }
    out
}

/// The date of each event, where it parses.
fn parse_all(dates: &Vec<DateEvent>) -> (r: Vec<Option<CivilDate>>)
    ensures
        r@.len() == dates@.len(),
        forall|i: int| 0 <= i < r@.len() ==> r@[i] == event_date(#[trigger] dates@[i].date_str@),
        forall|i: int| 0 <= i < r@.len() ==> (#[trigger] r@[i] matches Some(d) ==> valid_date(d)),
{
    let mut out: Vec<Option<CivilDate>> = Vec::new();
    let mut i: usize = 0;
    while i < dates.len()
        invariant
            i <= dates@.len(),
            out@.len() == i,
            forall|k: int| 0 <= k < i ==> out@[k] == event_date(#[trigger] dates@[k].date_str@),
            forall|k: int| 0 <= k < i ==> (#[trigger] out@[k] matches Some(d) ==> valid_date(d)),
        decreases dates@.len() - i,
    {
        let t = trim_string(dates[i].date_str.as_str());
        out.push(parse_ymd(t.as_str()));
        i += 1;
    }
    out
}

/// The date of the last of the first `n` events labelled `label` whose
/// date parses.
pub open spec fn last_parsed(ds: Seq<EventView>, label: Seq<char>, n: int) -> Option<CivilDate>
    decreases n,
{
    if n <= 0 {
        None
    } else if ds[n - 1].0 == label && event_date(ds[n - 1].1) is Some {
        event_date(ds[n - 1].1)
    } else {
        last_parsed(ds, label, n - 1)
    }
}

/// The index of the last of the first `n` events labelled `label` whose
/// date does not parse.
pub open spec fn last_failed(ds: Seq<EventView>, label: Seq<char>, n: int) -> Option<int>
    decreases n,
{
    if n <= 0 {
        None
    } else if ds[n - 1].0 == label && event_date(ds[n - 1].1) is None {
        Some(n - 1)
    } else {
        last_failed(ds, label, n - 1)
    }
}

/// The index `last_failed` gives is one of the first `n`.
pub proof fn lemma_last_failed_bound(ds: Seq<EventView>, label: Seq<char>, n: int)
    ensures
        last_failed(ds, label, n) matches Some(k) ==> 0 <= k < n,
    decreases n,
{
    if n > 0 {
        lemma_last_failed_bound(ds, label, n - 1);
    }
}

/// The message of an event whose date does not parse.
pub open spec fn parse_error_text(ev: EventView) -> Seq<char> {
    ev.0 + ": "@ + "无法解析日期 '"@ + ev.1 + "'（期望 YYYY-MM-DD）"@
}

/// The message of an event whose date does not parse.
fn parse_error_message(ev: &DateEvent) -> (r: String)
    ensures
        r@ == parse_error_text(ev.deep_view()),
{
    let mut m = ev.label.clone();
    push_str(&mut m, ": ");
    push_str(&mut m, "无法解析日期 '");
    push_str(&mut m, ev.date_str.as_str());
    push_str(&mut m, "'（期望 YYYY-MM-DD）");
    m
}

/// The date of the last event labelled `label` whose date parses.
fn find_parsed(dates: &Vec<DateEvent>, parsed: &Vec<Option<CivilDate>>, label: &str) -> (r: Option<CivilDate>)
    requires
        parsed@.len() == dates@.len(),
        forall|i: int| 0 <= i < parsed@.len() ==> parsed@[i] == event_date(#[trigger] dates@[i].date_str@),
        forall|i: int| 0 <= i < parsed@.len() ==> (#[trigger] parsed@[i] matches Some(d) ==> valid_date(d)),
    ensures
        r == last_parsed(dates.deep_view(), label@, dates@.len() as int),
        r matches Some(d) ==> valid_date(d),
{
    let ghost ds = dates.deep_view();
    let mut i: usize = dates.len();
    while i > 0
        invariant
            i <= dates@.len(),
            ds == dates.deep_view(),
            parsed@.len() == dates@.len(),
            forall|k: int| 0 <= k < parsed@.len() ==> parsed@[k] == event_date(#[trigger] dates@[k].date_str@),
            last_parsed(ds, label@, dates@.len() as int) == last_parsed(ds, label@, i as int),
            forall|k: int| 0 <= k < parsed@.len() ==> (#[trigger] parsed@[k] matches Some(d) ==> valid_date(d)),
        decreases i,
    {
        let k = i - 1;
        proof {
            assert(ds[k as int].0 == dates@[k as int].label@);
            assert(ds[k as int].1 == dates@[k as int].date_str@);
        }
        if str_eq(dates[k].label.as_str(), label) && parsed[k].is_some() {
            return parsed[k];
        }
        i = k;
    }
    None
}

/// The index of the last event labelled `label` whose date does not parse.
fn find_failed(dates: &Vec<DateEvent>, parsed: &Vec<Option<CivilDate>>, label: &str) -> (r: Option<usize>)
    requires
        parsed@.len() == dates@.len(),
        forall|i: int| 0 <= i < parsed@.len() ==> parsed@[i] == event_date(#[trigger] dates@[i].date_str@),
    ensures
        last_failed(dates.deep_view(), label@, dates@.len() as int) is None <==> r is None,
        r matches Some(j) ==> last_failed(dates.deep_view(), label@, dates@.len() as int) == Some(j as int) && j
            < dates@.len(),
{
    let ghost ds = dates.deep_view();
    proof {
        lemma_last_failed_bound(ds, label@, dates@.len() as int);
    }
    let mut i: usize = dates.len();
    while i > 0
        invariant
            i <= dates@.len(),
            ds == dates.deep_view(),
            parsed@.len() == dates@.len(),
            forall|k: int| 0 <= k < parsed@.len() ==> parsed@[k] == event_date(#[trigger] dates@[k].date_str@),
            last_failed(ds, label@, dates@.len() as int) == last_failed(ds, label@, i as int),
        decreases i,
    {
        let k = i - 1;
        proof {
            assert(ds[k as int].0 == dates@[k as int].label@);
            assert(ds[k as int].1 == dates@[k as int].date_str@);
        }
        if str_eq(dates[k].label.as_str(), label) && parsed[k].is_none() {
            return Some(k);
        }
        proof {
            lemma_last_failed_bound(ds, label@, k as int);
        }
        i = k;
    }
    None
}

/// The only way a working-day count fails is a year without calendar data.
pub proof fn lemma_workday_count_errors(cur: CivilDate, end: CivilDate)
    requires
        valid_date(cur),
        valid_date(end),
    ensures
        workday_count(cur, end) matches Err(e) ==> e is CalendarUnavailable,
    decreases crate::tools::calendar::date_key(end) - crate::tools::calendar::date_key(cur),
{
    if before(cur, end) {
        crate::tools::calendar::lemma_next_within(cur, end);
        lemma_workday_count_errors(crate::tools::calendar::next_date(cur), end);
    }
}

/// The content of a count's outcome.
pub ghost struct CalcResultView {
    pub from: Seq<char>,
    pub to: Seq<char>,
    pub day_count_type: Seq<char>,
    pub actual_days: Option<int>,
    pub status: CalcStatus,
    pub diagnostic: Seq<char>,
}

/// The content of a count's outcome.
pub open spec fn calc_view(r: TimelineCalculationResult) -> CalcResultView {
    CalcResultView {
        from: r.from@,
        to: r.to@,
        day_count_type: r.day_count_type@,
        actual_days: match r.actual_days {
            Some(x) => Some(x as int),
            None => None,
        },
        status: r.status,
        diagnostic: r.diagnostic@,
    }
}

/// A count's outcome.
pub open spec fn outcome(
    from: Seq<char>,
    to: Seq<char>,
    t: DayCountType,
    actual_days: Option<int>,
    status: CalcStatus,
    diagnostic: Seq<char>,
) -> CalcResultView {
    CalcResultView { from, to, day_count_type: day_count_type_text(t), actual_days, status, diagnostic }
}

/// The count from `fd` to `td` (`fd` before `td`): the days, the status and
/// the message.
pub open spec fn count_outcome(fd: CivilDate, td: CivilDate, t: DayCountType) -> (Option<int>, CalcStatus, Seq<char>) {
    match t {
        DayCountType::CalendarDays => {
            let k = day_number(td) - day_number(fd);
            (Some(k), CalcStatus::Calculated, "日历日 "@ + decimal(k as nat) + " 天（STANDARD: start excluded, end included）"@)
        },
        DayCountType::WorkingDays => match workday_count(fd, td) {
            Ok(k) => (
                Some(k),
                CalcStatus::Calculated,
                "工作日 "@ + decimal(k as nat) + " 天（STANDARD: start excluded, end included）"@,
            ),
            Err(e) => (
                None,
                CalcStatus::CalendarUnavailable,
                "WorkingDays 需要日历数据，年份 "@ + signed_decimal(e->year as int) + " 不在支持范围（2024-2026）内"@,
            ),
        },
    }
}

/// The outcome of counting from event `from` to event `to`: refused where
/// either date does not parse or either label is unknown or the end comes
/// first; otherwise the calendar or working days after the start up to
/// the end (the start day excluded, the end day included).
pub open spec fn calc_outcome(ds: Seq<EventView>, from: Seq<char>, to: Seq<char>, t: DayCountType) -> CalcResultView {
    let n = ds.len() as int;
    let invalid = CalcStatus::InvalidInput;
    if last_failed(ds, from, n) is Some {
        outcome(from, to, t, None, invalid, "from 节点日期非法："@ + parse_error_text(ds[last_failed(ds, from, n)->0]))
    } else if last_failed(ds, to, n) is Some {
        outcome(from, to, t, None, invalid, "to 节点日期非法："@ + parse_error_text(ds[last_failed(ds, to, n)->0]))
    } else if last_parsed(ds, from, n) is None {
        outcome(from, to, t, None, invalid, "计算 from label '"@ + from + "' 不存在于 dates[]"@)
    } else if last_parsed(ds, to, n) is None {
        outcome(from, to, t, None, invalid, "计算 to label '"@ + to + "' 不存在于 dates[]"@)
    } else {
        let fd = last_parsed(ds, from, n)->0;
        let td = last_parsed(ds, to, n)->0;
        if before(td, fd) {
            outcome(
                from,
                to,
                t,
                None,
                invalid,
                "from 日期 "@ + date_text(fd) + " 晚于 to 日期 "@ + date_text(td) + "（EndBeforeStart），禁止反向计算"@,
            )
        } else if td == fd {
            outcome(from, to, t, Some(0), CalcStatus::Calculated, "from == to，实际 0 天"@)
        } else {
            let (a, st, dg) = count_outcome(fd, td, t);
            outcome(from, to, t, a, st, dg)
        }
    }
}

/// A count's outcome.
fn make_result(from: &str, to: &str, t: DayCountType, actual_days: Option<i64>, status: CalcStatus, diagnostic: String) -> (r:
    TimelineCalculationResult)
    ensures
        calc_view(r) == outcome(
            from@,
            to@,
            t,
            match actual_days {
                Some(x) => Some(x as int),
                None => None,
            },
            status,
            diagnostic@,
        ),
{
    TimelineCalculationResult {
        from: to_owned_string(from),
        to: to_owned_string(to),
        day_count_type: to_owned_string(t.as_str()),
        actual_days,
        status,
        diagnostic,
    }
}

/// Counts from `fd` to `td` as `count_outcome` says.
fn count_between(fd: CivilDate, td: CivilDate, t: DayCountType, counter: &WorkingDaysCounter) -> (r: (
    Option<i64>,
    CalcStatus,
    String,
))
    requires
        valid_date(fd),
        valid_date(td),
        before(fd, td),
    ensures
        ({
            let (a, st, dg) = count_outcome(fd, td, t);
            &&& r.0 == match a {
                Some(x) => Some(x as i64),
                None => None::<i64>,
            }
            &&& a matches Some(x) ==> 0 <= x <= u32::MAX
            &&& r.1 == st
            &&& r.2@ == dg
        }),
{
    match t {
        DayCountType::CalendarDays => {
            match CalendarDaysCounter.count_days(fd, td) {
                Ok(k) => {
                    let mut m = to_owned_string("日历日 ");
                    push_str(&mut m, decimal_string(k as u64).as_str());
                    push_str(&mut m, " 天（STANDARD: start excluded, end included）");
                    (Some(k as i64), CalcStatus::Calculated, m)
                },
                Err(_) => {
                    proof {
                        assert(false);
                    }
                    (None, CalcStatus::InvalidInput, String::new())
                },
            }
        },
        DayCountType::WorkingDays => {
            proof {
                lemma_workday_count_errors(fd, td);
                crate::tools::calendar::law_workdays_within_calendar_days(fd, td);
            }
            match counter.count_days(fd, td) {
                Ok(k) => {
                    let mut m = to_owned_string("工作日 ");
                    push_str(&mut m, decimal_string(k as u64).as_str());
                    push_str(&mut m, " 天（STANDARD: start excluded, end included）");
                    (Some(k as i64), CalcStatus::Calculated, m)
                },
                Err(TimeDomainError::CalendarUnavailable { year }) => {
                    let mut m = to_owned_string("WorkingDays 需要日历数据，年份 ");
                    push_str(&mut m, signed_decimal_string(year).as_str());
                    push_str(&mut m, " 不在支持范围（2024-2026）内");
                    (None, CalcStatus::CalendarUnavailable, m)
                },
                Err(_) => {
                    proof {
                        assert(false);
                    }
                    (None, CalcStatus::InvalidInput, String::new())
                },
            }
        },
    }
}

/// The refusal of a count where the date of `from` or of `to` does not
/// parse.
fn parse_refusal(dates: &Vec<DateEvent>, parsed: &Vec<Option<CivilDate>>, c: &TimelineCalculation) -> (r: Option<
    TimelineCalculationResult,
>)
    requires
        parsed@.len() == dates@.len(),
        forall|i: int| 0 <= i < parsed@.len() ==> parsed@[i] == event_date(#[trigger] dates@[i].date_str@),
    ensures
        ({
            let ds = dates.deep_view();
            let n = ds.len() as int;
            &&& r is Some <==> (last_failed(ds, c.from@, n) is Some || last_failed(ds, c.to@, n) is Some)
            &&& r matches Some(x) ==> calc_view(x) == calc_outcome(ds, c.from@, c.to@, c.day_count_type)
        }),
{
    let ghost ds = dates.deep_view();
    assert(ds.len() == dates@.len());
    let from = c.from.as_str();
    let to = c.to.as_str();
    let t = c.day_count_type;
    match find_failed(dates, parsed, from) {
        Some(i) => {
            let mut m = to_owned_string("from 节点日期非法：");
            push_str(&mut m, parse_error_message(&dates[i]).as_str());
            proof {
                assert(ds[i as int] == dates@[i as int].deep_view());
            }
            return Some(make_result(from, to, t, None, CalcStatus::InvalidInput, m));
        },
        None => {},
    }
    match find_failed(dates, parsed, to) {
        Some(i) => {
            let mut m = to_owned_string("to 节点日期非法：");
            push_str(&mut m, parse_error_message(&dates[i]).as_str());
            proof {
                assert(ds[i as int] == dates@[i as int].deep_view());
            }
            Some(make_result(from, to, t, None, CalcStatus::InvalidInput, m))
        },
        None => None,
    }
}

/// Counts from event `c.from` to event `c.to` as `calc_outcome` says.
fn compute_one(
    dates: &Vec<DateEvent>,
    parsed: &Vec<Option<CivilDate>>,
    c: &TimelineCalculation,
    counter: &WorkingDaysCounter,
) -> (r: TimelineCalculationResult)
    requires
        parsed@.len() == dates@.len(),
        forall|i: int| 0 <= i < parsed@.len() ==> parsed@[i] == event_date(#[trigger] dates@[i].date_str@),
        forall|i: int| 0 <= i < parsed@.len() ==> (#[trigger] parsed@[i] matches Some(d) ==> valid_date(d)),
    ensures
        calc_view(r) == calc_outcome(dates.deep_view(), c.from@, c.to@, c.day_count_type),
{
    match parse_refusal(dates, parsed, c) {
        Some(r) => {
            return r;
        },
        None => {},
    }
    let from = c.from.as_str();
    let to = c.to.as_str();
    let t = c.day_count_type;
    let fd = match find_parsed(dates, parsed, from) {
        Some(d) => d,
        None => {
            let mut m = to_owned_string("计算 from label '");
            push_str(&mut m, from);
            push_str(&mut m, "' 不存在于 dates[]");
            return make_result(from, to, t, None, CalcStatus::InvalidInput, m);
        },
    };
    let td = match find_parsed(dates, parsed, to) {
        Some(d) => d,
        None => {
            let mut m = to_owned_string("计算 to label '");
            push_str(&mut m, to);
            push_str(&mut m, "' 不存在于 dates[]");
            return make_result(from, to, t, None, CalcStatus::InvalidInput, m);
        },
    };
    if date_before(td, fd) {
        let mut m = to_owned_string("from 日期 ");
        push_str(&mut m, format_date(fd).as_str());
        push_str(&mut m, " 晚于 to 日期 ");
        push_str(&mut m, format_date(td).as_str());
        push_str(&mut m, "（EndBeforeStart），禁止反向计算");
        return make_result(from, to, t, None, CalcStatus::InvalidInput, m);
    }
    if td == fd {
        return make_result(from, to, t, Some(0), CalcStatus::Calculated, to_owned_string("from == to，实际 0 天"));
    }
    let (a, st, dg) = count_between(fd, td, t, counter);
    make_result(from, to, t, a, st, dg)
}

/// The content of a contradiction.
pub ghost struct ContraView {
    pub description: Seq<char>,
    pub event_a: Seq<char>,
    pub event_b: Seq<char>,
    pub detail: Seq<char>,
}

/// The content of a contradiction.
pub open spec fn contra_view(c: TimelineContradiction) -> ContraView {
    ContraView { description: c.description@, event_a: c.event_a@, event_b: c.event_b@, detail: c.detail@ }
}

/// The contradiction between event `i` and event `j`, if any: a bid
/// opening before a deadline, an announcement on or after a deadline, an
/// award before a bid opening (each event dated by the last parsed date of
/// its label).
pub open spec fn pair_conflict(ds: Seq<EventView>, i: int, j: int) -> Option<ContraView> {
    let ev = ds[i];
    let other = ds[j];
    let n = ds.len() as int;
    match ev.2 {
        None => None,
        Some(et) => match last_parsed(ds, ev.0, n) {
            None => None,
            Some(date) => if et == "bid_opening"@ {
                if other.2 == Some("deadline"@) && (last_parsed(ds, other.0, n) matches Some(dl) && before(date, dl)) {
                    Some(
                        ContraView {
                            description: "开标日期应在投标截止之后"@,
                            event_a: ev.0,
                            event_b: other.0,
                            detail: "开标日期("@ + ev.1 + ") < 投标截止("@ + other.1 + ")，时序矛盾"@,
                        },
                    )
                } else {
                    None
                }
            } else if et == "announcement"@ {
                if other.2 == Some("deadline"@) && (last_parsed(ds, other.0, n) matches Some(dl) && !before(date, dl)) {
                    Some(
                        ContraView {
                            description: "公告发布日期应在投标截止之前"@,
                            event_a: ev.0,
                            event_b: other.0,
                            detail: "公告日期("@ + ev.1 + ") ≥ 投标截止("@ + other.1 + ")，时序矛盾"@,
                        },
                    )
                } else {
                    None
                }
            } else if et == "award"@ {
                if other.2 == Some("bid_opening"@) && (last_parsed(ds, other.0, n) matches Some(op) && before(date, op)) {
                    Some(
                        ContraView {
                            description: "中标日期应在开标之后"@,
                            event_a: ev.0,
                            event_b: other.0,
                            detail: "中标日期("@ + ev.1 + ") < 开标日期("@ + other.1 + ")，时序矛盾"@,
                        },
                    )
                } else {
                    None
                }
            } else {
                None
            },
        },
    }
}

/// The one-element sequence of `o`, or the empty one.
pub open spec fn opt_seq<T>(o: Option<T>) -> Seq<T> {
    match o {
        Some(x) => seq![x],
        None => Seq::empty(),
    }
}

/// The contradictions of event `i` with the first `m` events.
pub open spec fn conflicts_row(ds: Seq<EventView>, i: int, m: int) -> Seq<ContraView>
    decreases m,
{
    if m <= 0 {
        Seq::empty()
    } else {
        conflicts_row(ds, i, m - 1) + opt_seq(pair_conflict(ds, i, m - 1))
    }
}

/// The contradictions of the first `n` events with every event, in order.
pub open spec fn conflicts_upto(ds: Seq<EventView>, n: int) -> Seq<ContraView>
    decreases n,
{
    if n <= 0 {
        Seq::empty()
    } else {
        conflicts_upto(ds, n - 1) + conflicts_row(ds, n - 1, ds.len() as int)
    }
}

/// Whether `o` holds the text `t`.
fn opt_is(o: &Option<String>, t: &str) -> (r: bool)
    ensures
        r == (o.deep_view() == Some(t@)),
{
    match o {
        Some(x) => str_eq(x.as_str(), t),
        None => false,
    }
}

/// A contradiction.
fn make_contra(description: &str, a: &DateEvent, b: &DateEvent, first: &str, second: &str) -> (r: TimelineContradiction)
    ensures
        contra_view(r) == (ContraView {
            description: description@,
            event_a: a.label@,
            event_b: b.label@,
            detail: first@ + a.date_str@ + second@ + b.date_str@ + ")，时序矛盾"@,
        }),
{
    let mut detail = to_owned_string(first);
    push_str(&mut detail, a.date_str.as_str());
    push_str(&mut detail, second);
    push_str(&mut detail, b.date_str.as_str());
    push_str(&mut detail, ")，时序矛盾");
    TimelineContradiction {
        description: to_owned_string(description),
        event_a: a.label.clone(),
        event_b: b.label.clone(),
        detail,
    }
}

/// The contradiction between event `i` and event `j`, as `pair_conflict`
/// says.
fn conflict_at(dates: &Vec<DateEvent>, parsed: &Vec<Option<CivilDate>>, i: usize, j: usize) -> (r: Option<
    TimelineContradiction,
>)
    requires
        i < dates@.len(),
        j < dates@.len(),
        parsed@.len() == dates@.len(),
        forall|k: int| 0 <= k < parsed@.len() ==> parsed@[k] == event_date(#[trigger] dates@[k].date_str@),
        forall|k: int| 0 <= k < parsed@.len() ==> (#[trigger] parsed@[k] matches Some(d) ==> valid_date(d)),
    ensures
        match r {
            Some(c) => pair_conflict(dates.deep_view(), i as int, j as int) == Some(contra_view(c)),
            None => pair_conflict(dates.deep_view(), i as int, j as int) is None,
        },
{
    let ghost ds = dates.deep_view();
    proof {
        assert(ds.len() == dates@.len());
        assert(ds[i as int] == dates@[i as int].deep_view());
        assert(ds[j as int] == dates@[j as int].deep_view());
    }
    let ev = &dates[i];
    let other = &dates[j];
    let et = match &ev.event_type {
        Some(t) => t.as_str(),
        None => {
            return None;
        },
    };
    let date = match find_parsed(dates, parsed, ev.label.as_str()) {
        Some(d) => d,
        None => {
            return None;
        },
    };
    if str_eq(et, "bid_opening") {
        if opt_is(&other.event_type, "deadline") {
            match find_parsed(dates, parsed, other.label.as_str()) {
                Some(dl) => {
                    if date_before(date, dl) {
                        return Some(make_contra("开标日期应在投标截止之后", ev, other, "开标日期(", ") < 投标截止("));
                    }
                },
                None => {},
            }
        }
        None
    } else if str_eq(et, "announcement") {
        if opt_is(&other.event_type, "deadline") {
            match find_parsed(dates, parsed, other.label.as_str()) {
                Some(dl) => {
                    if !date_before(date, dl) {
                        return Some(make_contra("公告发布日期应在投标截止之前", ev, other, "公告日期(", ") ≥ 投标截止("));
                    }
                },
                None => {},
            }
        }
        None
    } else if str_eq(et, "award") {
        if opt_is(&other.event_type, "bid_opening") {
            match find_parsed(dates, parsed, other.label.as_str()) {
                Some(op) => {
                    if date_before(date, op) {
                        return Some(make_contra("中标日期应在开标之后", ev, other, "中标日期(", ") < 开标日期("));
                    }
                },
                None => {},
            }
        }
        None
    } else {
        None
    }
}

/// The ordering contradictions of the events, as `conflicts_upto` says.
fn detect_contradictions(dates: &Vec<DateEvent>, parsed: &Vec<Option<CivilDate>>) -> (r: Vec<TimelineContradiction>)
    requires
        parsed@.len() == dates@.len(),
        forall|k: int| 0 <= k < parsed@.len() ==> parsed@[k] == event_date(#[trigger] dates@[k].date_str@),
        forall|k: int| 0 <= k < parsed@.len() ==> (#[trigger] parsed@[k] matches Some(d) ==> valid_date(d)),
    ensures
        r@.map_values(|c: TimelineContradiction| contra_view(c)) == conflicts_upto(
            dates.deep_view(),
            dates@.len() as int,
        ),
{
    let ghost ds = dates.deep_view();
    let mut out: Vec<TimelineContradiction> = Vec::new();
    let mut i: usize = 0;
    while i < dates.len()
        invariant
            i <= dates@.len(),
            ds == dates.deep_view(),
            ds.len() == dates@.len(),
            parsed@.len() == dates@.len(),
            forall|k: int| 0 <= k < parsed@.len() ==> parsed@[k] == event_date(#[trigger] dates@[k].date_str@),
            forall|k: int| 0 <= k < parsed@.len() ==> (#[trigger] parsed@[k] matches Some(d) ==> valid_date(d)),
            out@.map_values(|c: TimelineContradiction| contra_view(c)) == conflicts_upto(ds, i as int),
        decreases dates@.len() - i,
    {
        let ghost before_row = out@.map_values(|c: TimelineContradiction| contra_view(c));
        let mut j: usize = 0;
        while j < dates.len()
            invariant
                i < dates@.len(),
                j <= dates@.len(),
                ds == dates.deep_view(),
                ds.len() == dates@.len(),
                parsed@.len() == dates@.len(),
                forall|k: int| 0 <= k < parsed@.len() ==> parsed@[k] == event_date(#[trigger] dates@[k].date_str@),
                forall|k: int| 0 <= k < parsed@.len() ==> (#[trigger] parsed@[k] matches Some(d) ==> valid_date(d)),
                out@.map_values(|c: TimelineContradiction| contra_view(c)) == before_row + conflicts_row(
                    ds,
                    i as int,
                    j as int,
                ),
            decreases dates@.len() - j,
        {
            let ghost prev = out@;
            match conflict_at(dates, parsed, i, j) {
                Some(c) => {
                    out.push(c);
                    proof {
                        assert(out@.map_values(|c: TimelineContradiction| contra_view(c)) =~= prev.map_values(
                            |c: TimelineContradiction| contra_view(c),
                        ).push(contra_view(c)));
                    }
                },
                None => {},
            }
            proof {
                assert(before_row + conflicts_row(ds, i as int, j + 1) =~= before_row + conflicts_row(
                    ds,
                    i as int,
                    j as int,
                ) + opt_seq(pair_conflict(ds, i as int, j as int)));
            }
            j += 1;
        }
        i += 1;
    }
    out
}

/// The content of a request: from, to, kind of count.
pub open spec fn req_view(c: TimelineCalculation) -> (Seq<char>, Seq<char>, DayCountType) {
    (c.from@, c.to@, c.day_count_type)
}

/// The outcomes of the requests: all refused when a label is blank or
/// repeated (no count is made), else each as `calc_outcome` says.
pub open spec fn timeline_calcs(
    ds: Seq<EventView>,
    cs: Seq<(Seq<char>, Seq<char>, DayCountType)>,
    problems: Seq<Seq<char>>,
) -> Seq<CalcResultView> {
    if problems.len() > 0 {
        Seq::new(
            cs.len(),
            |k: int|
                outcome(
                    cs[k].0,
                    cs[k].1,
                    cs[k].2,
                    None,
                    CalcStatus::InvalidInput,
                    "label 校验失败（"@ + crate::tools::keywords::join_seq(problems, "；"@) + "），未执行任何计算"@,
                ),
        )
    } else {
        Seq::new(cs.len(), |k: int| calc_outcome(ds, cs[k].0, cs[k].1, cs[k].2))
    }
}

/// How many outcomes of the first `n` have status `st` (and, for refused
/// ones, a message).
pub open spec fn tally(rs: Seq<CalcResultView>, st: CalcStatus, n: int) -> nat
    decreases n,
{
    if n <= 0 {
        0
    } else {
        tally(rs, st, n - 1) + if rs[n - 1].status == st && (st != CalcStatus::InvalidInput || rs[n
            - 1].diagnostic.len() > 0) {
            1nat
        } else {
            0nat
        }
    }
}

/// How many of the first `n` events have a date that does not parse.
pub open spec fn failed_count(ds: Seq<EventView>, n: int) -> nat
    decreases n,
{
    if n <= 0 {
        0
    } else {
        failed_count(ds, n - 1) + if event_date(ds[n - 1].1) is None {
            1nat
        } else {
            0nat
        }
    }
}

/// The parts of the summary.
pub open spec fn summary_parts(
    n_dates: nat,
    nothing_asked: bool,
    done: nat,
    invalid: nat,
    unavailable: nat,
    contradictions: nat,
    failed: nat,
) -> Seq<Seq<char>> {
    let head = if nothing_asked {
        seq!["insufficient input：未提供 calculations，未执行任何日期差计算（"@ + decimal(n_dates) + " 个事件节点）"@]
    } else {
        seq!["完成 "@ + decimal(done) + " 个日期关系计算"@] + (if invalid > 0 {
            seq![decimal(invalid) + " 个因输入非法未完成"@]
        } else {
            Seq::empty()
        }) + (if unavailable > 0 {
            seq![decimal(unavailable) + " 个工作日计算因 CalendarUnavailable 未完成"@]
        } else {
            Seq::empty()
        })
    };
    head + (if contradictions > 0 {
        seq!["发现 "@ + decimal(contradictions) + " 个时间顺序矛盾"@]
    } else {
        Seq::empty()
    }) + (if failed > 0 {
        seq![decimal(failed) + " 个日期解析失败"@]
    } else {
        Seq::empty()
    })
}

/// The content of a resolved event.
pub open spec fn resolved_view(e: ResolvedEvent) -> (Seq<char>, Seq<char>, bool, Option<Seq<char>>) {
    (e.label@, e.date_str@, e.parsed, e.event_type.deep_view())
}

/// The events with whether their dates parse.
pub open spec fn resolved_events(ds: Seq<EventView>) -> Seq<(Seq<char>, Seq<char>, bool, Option<Seq<char>>)> {
    Seq::new(ds.len(), |i: int| (ds[i].0, ds[i].1, event_date(ds[i].1) is Some, ds[i].2))
}

/// The timeline tool: pure date arithmetic, no legal judgement.
pub struct CalculateTimelineTool;

impl CalculateTimelineTool {
    /// The tool's name.
    pub fn name(&self) -> (r: &'static str)
        ensures
            r@ == "calculate_timeline"@,
    {
        "calculate_timeline"
    }

    /// Refuses an empty list of dates; otherwise resolves every event's date,
    /// makes the requested counts (none when a label is blank or repeated),
    /// finds the ordering contradictions, and sums up.
    #[verifier::rlimit(40)]
    pub fn execute(&self, args: &CalculateTimelineArgs) -> (r: Result<TimelineResult, String>)
        ensures
            args.dates@.len() == 0 ==> (r is Err && r->Err_0@ == "dates 不能为空"@),
            args.dates@.len() > 0 ==> (r matches Ok(res) && {
                let ds = args.dates.deep_view();
                let n = ds.len() as int;
                let cs = args.calculations@.map_values(|c: TimelineCalculation| req_view(c));
                let problems = label_problems(ds, n);
                let rs = timeline_calcs(ds, cs, problems);
                let contras = conflicts_upto(ds, n);
                &&& res.events@.map_values(|e: ResolvedEvent| resolved_view(e)) == resolved_events(ds)
                &&& res.calculations@.map_values(|c: TimelineCalculationResult| calc_view(c)) == rs
                &&& res.contradictions@.map_values(|c: TimelineContradiction| contra_view(c)) == contras
                &&& res.summary@ == crate::tools::keywords::join_seq(
                    summary_parts(
                        n as nat,
                        problems.len() == 0 && cs.len() == 0,
                        tally(rs, CalcStatus::Calculated, rs.len() as int),
                        tally(rs, CalcStatus::InvalidInput, rs.len() as int),
                        tally(rs, CalcStatus::CalendarUnavailable, rs.len() as int),
                        contras.len(),
                        failed_count(ds, n),
                    ),
                    "；"@,
                )
            }),
    {
        if args.dates.len() == 0 {
            return Err(to_owned_string("dates 不能为空"));
        }
        let dates = &args.dates;
        let ghost ds = dates.deep_view();
        let problems = check_labels(dates);
        let parsed = parse_all(dates);
        let events = resolve_events(dates, &parsed);
        let results = run_calculations(dates, &parsed, &args.calculations, &problems);
        let contradictions = detect_contradictions(dates, &parsed);
        let summary = summarize(dates, &parsed, &args.calculations, &problems, &results, &contradictions);
        Ok(TimelineResult { events, calculations: results, contradictions, summary })
    }
}

/// The events with whether their dates parse.
fn resolve_events(dates: &Vec<DateEvent>, parsed: &Vec<Option<CivilDate>>) -> (r: Vec<ResolvedEvent>)
    requires
        parsed@.len() == dates@.len(),
        forall|k: int| 0 <= k < parsed@.len() ==> parsed@[k] == event_date(#[trigger] dates@[k].date_str@),
    ensures
        r@.map_values(|e: ResolvedEvent| resolved_view(e)) == resolved_events(dates.deep_view()),
{
    let ghost ds = dates.deep_view();
    let mut out: Vec<ResolvedEvent> = Vec::new();
    let mut i: usize = 0;
    while i < dates.len()
        invariant
            i <= dates@.len(),
            ds == dates.deep_view(),
            ds.len() == dates@.len(),
            parsed@.len() == dates@.len(),
            forall|k: int| 0 <= k < parsed@.len() ==> parsed@[k] == event_date(#[trigger] dates@[k].date_str@),
            out@.len() == i,
            forall|k: int|
                0 <= k < i ==> resolved_view(#[trigger] out@[k]) == (ds[k].0, ds[k].1, event_date(ds[k].1) is Some, ds[k].2),
        decreases dates@.len() - i,
    {
        let ev = &dates[i];
        proof {
            assert(ds[i as int] == dates@[i as int].deep_view());
        }
        let et: Option<String> = match &ev.event_type {
            Some(t) => Some(t.clone()),
            None => None,
        };
        out.push(ResolvedEvent { label: ev.label.clone(), date_str: ev.date_str.clone(), parsed: parsed[i].is_some(), event_type: et });
        i += 1;
    }
    proof {
        assert(out@.map_values(|e: ResolvedEvent| resolved_view(e)) =~= resolved_events(ds));
    }
    out
}

/// The outcomes of the requests, as `timeline_calcs` says.
fn run_calculations(
    dates: &Vec<DateEvent>,
    parsed: &Vec<Option<CivilDate>>,
    calcs: &Vec<TimelineCalculation>,
    problems: &Vec<String>,
) -> (r: Vec<TimelineCalculationResult>)
    requires
        parsed@.len() == dates@.len(),
        forall|k: int| 0 <= k < parsed@.len() ==> parsed@[k] == event_date(#[trigger] dates@[k].date_str@),
        forall|k: int| 0 <= k < parsed@.len() ==> (#[trigger] parsed@[k] matches Some(d) ==> valid_date(d)),
    ensures
        r@.map_values(|c: TimelineCalculationResult| calc_view(c)) == timeline_calcs(
            dates.deep_view(),
            calcs@.map_values(|c: TimelineCalculation| req_view(c)),
            problems.deep_view(),
        ),
{
    let ghost cs = calcs@.map_values(|c: TimelineCalculation| req_view(c));
    let ghost expected = timeline_calcs(dates.deep_view(), cs, problems.deep_view());
    let mut out: Vec<TimelineCalculationResult> = Vec::new();
    let counter = WorkingDaysCounter { provider: CnCalendarProvider::new() };
    let problem_text = crate::tools::keywords::join_strings(problems, "；");
    let mut k: usize = 0;
    while k < calcs.len()
        invariant
            k <= calcs@.len(),
            cs == calcs@.map_values(|c: TimelineCalculation| req_view(c)),
            expected == timeline_calcs(dates.deep_view(), cs, problems.deep_view()),
            expected.len() == calcs@.len(),
            problem_text@ == crate::tools::keywords::join_seq(problems.deep_view(), "；"@),
            parsed@.len() == dates@.len(),
            forall|j: int| 0 <= j < parsed@.len() ==> parsed@[j] == event_date(#[trigger] dates@[j].date_str@),
            forall|j: int| 0 <= j < parsed@.len() ==> (#[trigger] parsed@[j] matches Some(d) ==> valid_date(d)),
            out@.len() == k,
            forall|j: int| 0 <= j < k ==> calc_view(#[trigger] out@[j]) == expected[j],
        decreases calcs@.len() - k,
    {
        let c = &calcs[k];
        proof {
            assert(cs[k as int] == req_view(calcs@[k as int]));
        }
        let res = if problems.len() > 0 {
            let mut m = to_owned_string("label 校验失败（");
            push_str(&mut m, problem_text.as_str());
            push_str(&mut m, "），未执行任何计算");
            make_result(c.from.as_str(), c.to.as_str(), c.day_count_type, None, CalcStatus::InvalidInput, m)
        } else {
            compute_one(dates, parsed, c, &counter)
        };
        out.push(res);
        k += 1;
    }
    proof {
        assert(out@.map_values(|c: TimelineCalculationResult| calc_view(c)) =~= expected);
    }
    out
}

/// The summary of a run.
fn summarize(
    dates: &Vec<DateEvent>,
    parsed: &Vec<Option<CivilDate>>,
    calcs: &Vec<TimelineCalculation>,
    problems: &Vec<String>,
    results: &Vec<TimelineCalculationResult>,
    contradictions: &Vec<TimelineContradiction>,
) -> (r: String)
    requires
        parsed@.len() == dates@.len(),
        forall|k: int| 0 <= k < parsed@.len() ==> parsed@[k] == event_date(#[trigger] dates@[k].date_str@),
    ensures
        ({
            let ds = dates.deep_view();
            let rs = results@.map_values(|c: TimelineCalculationResult| calc_view(c));
            r@ == crate::tools::keywords::join_seq(
                summary_parts(
                    ds.len(),
                    problems@.len() == 0 && calcs@.len() == 0,
                    tally(rs, CalcStatus::Calculated, rs.len() as int),
                    tally(rs, CalcStatus::InvalidInput, rs.len() as int),
                    tally(rs, CalcStatus::CalendarUnavailable, rs.len() as int),
                    contradictions@.len(),
                    failed_count(ds, ds.len() as int),
                ),
                "；"@,
            )
        }),
{
    let ghost ds = dates.deep_view();
    let ghost rs = results@.map_values(|c: TimelineCalculationResult| calc_view(c));
    let mut done: usize = 0;
    let mut invalid: usize = 0;
    let mut unavailable: usize = 0;
    let mut k: usize = 0;
    while k < results.len()
        invariant
            k <= results@.len(),
            rs == results@.map_values(|c: TimelineCalculationResult| calc_view(c)),
            done == tally(rs, CalcStatus::Calculated, k as int),
            invalid == tally(rs, CalcStatus::InvalidInput, k as int),
            unavailable == tally(rs, CalcStatus::CalendarUnavailable, k as int),
            done <= k,
            invalid <= k,
            unavailable <= k,
        decreases results@.len() - k,
    {
        proof {
            assert(rs[k as int] == calc_view(results@[k as int]));
            reveal_strlit("");
            assert(results@[k as int].diagnostic@.len() == 0 ==> results@[k as int].diagnostic@ =~= ""@);
        }
        let st = results[k].status;
        if st == CalcStatus::Calculated {
            done += 1;
        } else if st == CalcStatus::InvalidInput {
            if !crate::text::str_eq(results[k].diagnostic.as_str(), "") {
                invalid += 1;
            }
        } else {
            unavailable += 1;
        }
        k += 1;
    }
    let mut failed: usize = 0;
    let mut i: usize = 0;
    while i < parsed.len()
        invariant
            i <= parsed@.len(),
            parsed@.len() == dates@.len(),
            ds == dates.deep_view(),
            ds.len() == dates@.len(),
            forall|j: int| 0 <= j < parsed@.len() ==> parsed@[j] == event_date(#[trigger] dates@[j].date_str@),
            failed == failed_count(ds, i as int),
            failed <= i,
        decreases parsed@.len() - i,
    {
        proof {
            assert(ds[i as int].1 == dates@[i as int].date_str@);
        }
        if parsed[i].is_none() {
            failed += 1;
        }
        i += 1;
    }
    let mut parts: Vec<String> = Vec::new();
    if problems.len() == 0 && calcs.len() == 0 {
        let mut m = to_owned_string("insufficient input：未提供 calculations，未执行任何日期差计算（");
        push_str(&mut m, decimal_string(dates.len() as u64).as_str());
        push_str(&mut m, " 个事件节点）");
        parts.push(m);
    } else {
        let mut m = to_owned_string("完成 ");
        push_str(&mut m, decimal_string(done as u64).as_str());
        push_str(&mut m, " 个日期关系计算");
        parts.push(m);
        if invalid > 0 {
            let mut m = decimal_string(invalid as u64);
            push_str(&mut m, " 个因输入非法未完成");
            parts.push(m);
        }
        if unavailable > 0 {
            let mut m = decimal_string(unavailable as u64);
            push_str(&mut m, " 个工作日计算因 CalendarUnavailable 未完成");
            parts.push(m);
        }
    }
    if contradictions.len() > 0 {
        let mut m = to_owned_string("发现 ");
        push_str(&mut m, decimal_string(contradictions.len() as u64).as_str());
        push_str(&mut m, " 个时间顺序矛盾");
        parts.push(m);
    }
    if failed > 0 {
        let mut m = decimal_string(failed as u64);
        push_str(&mut m, " 个日期解析失败");
        parts.push(m);
    }
    proof {
        assert(parts.deep_view() =~= summary_parts(
            ds.len(),
            problems@.len() == 0 && calcs@.len() == 0,
            done as nat,
            invalid as nat,
            unavailable as nat,
            contradictions@.len(),
            failed as nat,
        ));
    }
    crate::tools::keywords::join_strings(&parts, "；")
}

} // verus!
