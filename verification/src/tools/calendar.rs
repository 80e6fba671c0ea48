//! The working-day calendar of government procurement (2024 to 2026): which
//! days are regular workdays, weekends, scheduled days off, statutory
//! holidays and make-up workdays; counting of working and calendar days;
//! moving a final day past statutory holidays.
use vstd::prelude::*;

use crate::text::{decimal, decimal_string, push_str, to_owned_string};

verus! {

/// The first year a date can have.
pub const MIN_YEAR: i32 = -262143;

/// The last year a date can have.
pub const MAX_YEAR: i32 = 262142;

/// A day of the proleptic Gregorian calendar.
#[derive(Clone, Copy, PartialEq, Eq, Debug, Structural)]
pub struct CivilDate {
    pub year: i32,
    pub month: u32,
    pub day: u32,
}

/// Whether `y` is a leap year.
pub open spec fn is_leap(y: int) -> bool {
    (y % 4 == 0 && y % 100 != 0) || y % 400 == 0
}

/// The number of days of month `m` of year `y`.
pub open spec fn days_in_month(y: int, m: int) -> int {
    if m == 2 {
        if is_leap(y) {
            29
        } else {
            28
        }
    } else if m == 4 || m == 6 || m == 9 || m == 11 {
        30
    } else {
        31
    }
}

/// `d` names a day that exists, within the years a date can have.
pub open spec fn valid_date(d: CivilDate) -> bool {
    &&& MIN_YEAR <= d.year <= MAX_YEAR
    &&& 1 <= d.month <= 12
    &&& 1 <= d.day <= days_in_month(d.year as int, d.month as int)
}

/// A number that orders dates as the calendar does.
pub open spec fn date_key(d: CivilDate) -> int {
    d.year as int * 512 + d.month as int * 32 + d.day as int
}

/// `a` is an earlier day than `b`.
pub open spec fn before(a: CivilDate, b: CivilDate) -> bool {
    date_key(a) < date_key(b)
}

/// The day after `d`.
pub open spec fn next_date(d: CivilDate) -> CivilDate {
    if (d.day as int) < days_in_month(d.year as int, d.month as int) {
        CivilDate { year: d.year, month: d.month, day: (d.day + 1) as u32 }
    } else if d.month < 12 {
        CivilDate { year: d.year, month: (d.month + 1) as u32, day: 1 }
    } else {
        CivilDate { year: (d.year + 1) as i32, month: 1, day: 1 }
    }
}

/// The number of days from 1970-01-01 to `d` (negative before it).
pub open spec fn day_number(d: CivilDate) -> int {
    let y = if d.month <= 2 {
        d.year - 1
    } else {
        d.year as int
    };
    let shifted = y + 400000;
    let mp = if d.month > 2 {
        d.month - 3
    } else {
        d.month + 9
    };
    365 * shifted + shifted / 4 - shifted / 100 + shifted / 400 - 146097000 + (153 * mp + 2) / 5 + d.day
        - 1 - 719468
}

/// The day of the week of `d`: 0 for Monday up to 6 for Sunday.
pub open spec fn weekday_index(d: CivilDate) -> int {
    (day_number(d) + 3) % 7
}

/// `d` falls on a Saturday or a Sunday.
pub open spec fn on_weekend(d: CivilDate) -> bool {
    weekday_index(d) >= 5
}

/// Whether `a` is an earlier day than `b`.
pub fn date_before(a: CivilDate, b: CivilDate) -> (r: bool)
    requires
        valid_date(a),
        valid_date(b),
    ensures
        r == before(a, b),
{
    a.year < b.year || (a.year == b.year && (a.month < b.month || (a.month == b.month && a.day < b.day)))
}

/// Whether `y` is a leap year.
pub fn leap_year(y: i32) -> (r: bool)
    ensures
        r == is_leap(y as int),
{
    let yy: i64 = y as i64 + 2147484000;
    assert(yy % 4 == 0 <==> y % 4 == 0);
    assert(yy % 100 == 0 <==> y % 100 == 0);
    assert(yy % 400 == 0 <==> y % 400 == 0);
    (yy % 4 == 0 && yy % 100 != 0) || yy % 400 == 0
}

/// The number of days of month `m` of year `y`.
pub fn month_length(y: i32, m: u32) -> (r: u32)
    ensures
        r == days_in_month(y as int, m as int),
{
    if m == 2 {
        if leap_year(y) {
            29
        } else {
            28
        }
    } else if m == 4 || m == 6 || m == 9 || m == 11 {
        30
    } else {
        31
    }
}

/// The day after `d`, or `None` after the last day a date can have.
pub fn succ(d: CivilDate) -> (r: Option<CivilDate>)
    requires
        valid_date(d),
    ensures
        match r {
            Some(n) => n == next_date(d) && valid_date(n) && before(d, n),
            None => d.year == MAX_YEAR && d.month == 12 && d.day == 31,
        },
{
    let dim = month_length(d.year, d.month);
    if d.day < dim {
        Some(CivilDate { year: d.year, month: d.month, day: d.day + 1 })
    } else if d.month < 12 {
        Some(CivilDate { year: d.year, month: d.month + 1, day: 1 })
    } else if d.year < MAX_YEAR {
        Some(CivilDate { year: d.year + 1, month: 1, day: 1 })
    } else {
        None
    }
}

/// The number of days from 1970-01-01 to `d`.
pub fn day_number_of(d: CivilDate) -> (r: i64)
    requires
        valid_date(d),
    ensures
        r == day_number(d),
        -100000000 <= r <= 100000000,
{
    let y: i64 = if d.month <= 2 {
        d.year as i64 - 1
    } else {
        d.year as i64
    };
    let shifted: i64 = y + 400000;
    let mp: i64 = if d.month > 2 {
        d.month as i64 - 3
    } else {
        d.month as i64 + 9
    };
    assert(0 <= shifted <= 700000);
    assert(0 <= mp <= 11);
    365 * shifted + shifted / 4 - shifted / 100 + shifted / 400 - 146097000 + (153 * mp + 2) / 5 + d.day as i64
        - 1 - 719468
}

/// The day of the week of `d`: 0 for Monday up to 6 for Sunday.
pub fn weekday_of(d: CivilDate) -> (r: u32)
    requires
        valid_date(d),
    ensures
        r == weekday_index(d),
        r < 7,
{
    let n = day_number_of(d);
    let m: i64 = n + 3 + 140000000;
    let w = m % 7;
    proof {
        let x = n + 3;
        assert((x + 7 * 20000000) % 7 == x % 7) by (nonlinear_arith);
    }
    w as u32
}

/// What kind of day a date is. A make-up workday comes before a statutory
/// holiday, which comes before a scheduled day off, which comes before a
/// weekend; every other day is a regular workday.
#[derive(Debug, Clone, Copy, PartialEq, Eq, Structural)]
pub enum CalendarDayKind {
    RegularWorkday,
    Weekend,
    ScheduledDayOff,
    StatutoryHoliday,
    MakeupWorkday,
}

impl CalendarDayKind {
    /// Whether the day counts as a working day.
    pub fn is_workday(self) -> (r: bool)
        ensures
            r == (self == CalendarDayKind::RegularWorkday || self == CalendarDayKind::MakeupWorkday),
    {
        match self {
            CalendarDayKind::RegularWorkday => true,
            CalendarDayKind::MakeupWorkday => true,
            _ => false,
        }
    }

    /// Whether the day is a statutory holiday.
    pub fn is_statutory_holiday(self) -> (r: bool)
        ensures
            r == (self == CalendarDayKind::StatutoryHoliday),
    {
        match self {
            CalendarDayKind::StatutoryHoliday => true,
            _ => false,
        }
    }
}

/// Why the calendar cannot say what a day is.
#[derive(Debug, Clone, Copy, PartialEq, Eq, Structural)]
pub enum CalendarError {
    /// The calendar holds no data for this year.
    UnsupportedYear(i32),
}

/// The text of an integer in decimal digits, with a minus sign if negative.
pub open spec fn signed_decimal(n: int) -> Seq<char> {
    if n < 0 {
        seq!['-'] + decimal((-n) as nat)
    } else {
        decimal(n as nat)
    }
}

/// The text of an integer in decimal digits.
pub fn signed_decimal_string(n: i32) -> (r: String)
    ensures
        r@ == signed_decimal(n as int),
{
    if n < 0 {
        let mut s = to_owned_string("-");
        let m: u64 = (0 - (n as i64)) as u64;
        push_str(&mut s, decimal_string(m).as_str());
        proof {
            reveal_strlit("-");
        }
        s
    } else {
        decimal_string(n as u64)
    }
}

impl CalendarError {
    /// The error's message.
    pub fn message(&self) -> (r: String)
        ensures
            match *self {
                CalendarError::UnsupportedYear(y) => r@ == "unsupported year: "@ + signed_decimal(y as int),
            },
    {
        match self {
            CalendarError::UnsupportedYear(y) => {
                let mut s = to_owned_string("unsupported year: ");
                push_str(&mut s, signed_decimal_string(*y).as_str());
                s
            },
        }
    }
}

/// The date `y`-`m`-`d`.
pub open spec fn cd(y: int, m: int, d: int) -> CivilDate {
    CivilDate { year: y as i32, month: m as u32, day: d as u32 }
}

/// The days `d1` to `d2` of month `m` of year `y`.
pub open spec fn span(y: int, m: int, d1: int, d2: int) -> Seq<CivilDate> {
    Seq::new((d2 - d1 + 1) as nat, |i: int| cd(y, m, d1 + i))
}

/// The years the calendar holds.
pub open spec fn supported_year(y: int) -> bool {
    y == 2024 || y == 2025 || y == 2026
}

/// The days off that the State Council's yearly notice schedules.
pub open spec fn scheduled_days(y: int) -> Seq<CivilDate> {
    if y == 2024 {
        Seq::empty() + span(2024, 1, 1, 1) + span(2024, 2, 10, 17) + span(2024, 4, 4, 6) + span(2024, 5, 1, 5) + span(
            2024,
            6,
            10,
            10,
        ) + span(2024, 9, 15, 17) + span(2024, 10, 1, 7)
    } else if y == 2025 {
        Seq::empty() + span(2025, 1, 1, 1) + span(2025, 1, 28, 31) + span(2025, 2, 1, 4) + span(2025, 4, 4, 6) + span(
            2025,
            5,
            1,
            5,
        ) + span(2025, 5, 31, 31) + span(2025, 6, 1, 2) + span(2025, 10, 1, 8)
    } else if y == 2026 {
        Seq::empty() + span(2026, 1, 1, 3) + span(2026, 2, 15, 23) + span(2026, 4, 4, 6) + span(2026, 5, 1, 5) + span(
            2026,
            6,
            19,
            21,
        ) + span(2026, 9, 25, 27) + span(2026, 10, 1, 7)
    } else {
        Seq::empty()
    }
}

/// The statutory holidays (11 days under the 2013 rules for 2024, 13 days
/// under State Council Decree No. 795 from 2025).
pub open spec fn statutory_days(y: int) -> Seq<CivilDate> {
    if y == 2024 {
        Seq::empty() + span(2024, 1, 1, 1) + span(2024, 2, 10, 12) + span(2024, 4, 4, 4) + span(2024, 5, 1, 1) + span(
            2024,
            6,
            10,
            10,
        ) + span(2024, 9, 17, 17) + span(2024, 10, 1, 3)
    } else if y == 2025 {
        Seq::empty() + span(2025, 1, 1, 1) + span(2025, 1, 28, 31) + span(2025, 4, 4, 4) + span(2025, 5, 1, 2) + span(
            2025,
            5,
            31,
            31,
        ) + span(2025, 10, 6, 6) + span(2025, 10, 1, 3)
    } else if y == 2026 {
        Seq::empty() + span(2026, 1, 1, 1) + span(2026, 2, 16, 19) + span(2026, 4, 5, 5) + span(2026, 5, 1, 2) + span(
            2026,
            6,
            19,
            19,
        ) + span(2026, 9, 25, 25) + span(2026, 10, 1, 3)
    } else {
        Seq::empty()
    }
}

/// The weekend days worked to make up for days off.
pub open spec fn makeup_days(y: int) -> Seq<CivilDate> {
    if y == 2024 {
        Seq::empty() + span(2024, 2, 4, 4) + span(2024, 2, 18, 18) + span(2024, 4, 7, 7) + span(2024, 4, 28, 28)
            + span(2024, 5, 11, 11) + span(2024, 9, 14, 14) + span(2024, 9, 29, 29) + span(2024, 10, 12, 12)
    } else if y == 2025 {
        Seq::empty() + span(2025, 1, 26, 26) + span(2025, 2, 8, 8) + span(2025, 4, 27, 27) + span(2025, 9, 28, 28)
            + span(2025, 10, 11, 11)
    } else if y == 2026 {
        Seq::empty() + span(2026, 1, 4, 4) + span(2026, 2, 14, 14) + span(2026, 2, 28, 28) + span(2026, 5, 9, 9)
            + span(2026, 9, 20, 20) + span(2026, 10, 10, 10)
    } else {
        Seq::empty()
    }
}

/// What kind of day `d` is, or the error for a year without data.
pub open spec fn cn_day_kind(d: CivilDate) -> Result<CalendarDayKind, CalendarError> {
    let y = d.year as int;
    if !supported_year(y) {
        Err(CalendarError::UnsupportedYear(d.year))
    } else if makeup_days(y).contains(d) {
        Ok(CalendarDayKind::MakeupWorkday)
    } else if statutory_days(y).contains(d) {
        Ok(CalendarDayKind::StatutoryHoliday)
    } else if scheduled_days(y).contains(d) {
        Ok(CalendarDayKind::ScheduledDayOff)
    } else if on_weekend(d) {
        Ok(CalendarDayKind::Weekend)
    } else {
        Ok(CalendarDayKind::RegularWorkday)
    }
}

/// The calendar data of one year.
pub struct CalendarYear {
    pub year: i32,
    /// The days off of the yearly notice (weekends joined to holidays too).
    pub scheduled_days_off: Vec<CivilDate>,
    /// The statutory holidays.
    pub statutory_holidays: Vec<CivilDate>,
    /// The weekend days worked instead.
    pub makeup_workdays: Vec<CivilDate>,
    pub schedule_source: String,
    pub statutory_source: String,
}

/// `c` holds the data of year `y`.
pub open spec fn year_holds(c: CalendarYear, y: int) -> bool {
    &&& c.year == y
    &&& c.scheduled_days_off@ == scheduled_days(y)
    &&& c.statutory_holidays@ == statutory_days(y)
    &&& c.makeup_workdays@ == makeup_days(y)
}

/// Appends the days `d1` to `d2` of month `m` of year `y`.
fn push_span(v: &mut Vec<CivilDate>, y: i32, m: u32, d1: u32, d2: u32)
    requires
        1 <= d1 <= d2 + 1,
        d2 <= 31,
    ensures
        final(v)@ == old(v)@ + span(y as int, m as int, d1 as int, d2 as int),
{
    let ghost start = v@;
    let mut d = d1;
    while d <= d2
        invariant
            d1 <= d <= d2 + 1,
            d2 <= 31,
            v@ == start + span(y as int, m as int, d1 as int, d as int - 1),
        decreases d2 + 1 - d,
    {
        v.push(CivilDate { year: y, month: m, day: d });
        proof {
            assert(span(y as int, m as int, d1 as int, d as int) =~= span(y as int, m as int, d1 as int, d as int - 1).push(
                cd(y as int, m as int, d as int),
            ));
        }
        d = d + 1;
    }
}

/// The data of 2024.
fn year_2024() -> (r: CalendarYear)
    ensures
        year_holds(r, 2024),
{
    let mut sched: Vec<CivilDate> = Vec::new();
    push_span(&mut sched, 2024, 1, 1, 1);
    push_span(&mut sched, 2024, 2, 10, 17);
    push_span(&mut sched, 2024, 4, 4, 6);
    push_span(&mut sched, 2024, 5, 1, 5);
    push_span(&mut sched, 2024, 6, 10, 10);
    push_span(&mut sched, 2024, 9, 15, 17);
    push_span(&mut sched, 2024, 10, 1, 7);
    let mut stat: Vec<CivilDate> = Vec::new();
    push_span(&mut stat, 2024, 1, 1, 1);
    push_span(&mut stat, 2024, 2, 10, 12);
    push_span(&mut stat, 2024, 4, 4, 4);
    push_span(&mut stat, 2024, 5, 1, 1);
    push_span(&mut stat, 2024, 6, 10, 10);
    push_span(&mut stat, 2024, 9, 17, 17);
    push_span(&mut stat, 2024, 10, 1, 3);
    let mut makeup: Vec<CivilDate> = Vec::new();
    push_span(&mut makeup, 2024, 2, 4, 4);
    push_span(&mut makeup, 2024, 2, 18, 18);
    push_span(&mut makeup, 2024, 4, 7, 7);
    push_span(&mut makeup, 2024, 4, 28, 28);
    push_span(&mut makeup, 2024, 5, 11, 11);
    push_span(&mut makeup, 2024, 9, 14, 14);
    push_span(&mut makeup, 2024, 9, 29, 29);
    push_span(&mut makeup, 2024, 10, 12, 12);
    CalendarYear {
        year: 2024,
        scheduled_days_off: sched,
        statutory_holidays: stat,
        makeup_workdays: makeup,
        schedule_source: to_owned_string("国办2024年节假日通知"),
        statutory_source: to_owned_string("《全国年节及纪念日放假办法》(2013修订)"),
    }
}

/// The data of 2025.
fn year_2025() -> (r: CalendarYear)
    ensures
        year_holds(r, 2025),
{
    let mut sched: Vec<CivilDate> = Vec::new();
    push_span(&mut sched, 2025, 1, 1, 1);
    push_span(&mut sched, 2025, 1, 28, 31);
    push_span(&mut sched, 2025, 2, 1, 4);
    push_span(&mut sched, 2025, 4, 4, 6);
    push_span(&mut sched, 2025, 5, 1, 5);
    push_span(&mut sched, 2025, 5, 31, 31);
    push_span(&mut sched, 2025, 6, 1, 2);
    push_span(&mut sched, 2025, 10, 1, 8);
    let mut stat: Vec<CivilDate> = Vec::new();
    push_span(&mut stat, 2025, 1, 1, 1);
    push_span(&mut stat, 2025, 1, 28, 31);
    push_span(&mut stat, 2025, 4, 4, 4);
    push_span(&mut stat, 2025, 5, 1, 2);
    push_span(&mut stat, 2025, 5, 31, 31);
    push_span(&mut stat, 2025, 10, 6, 6);
    push_span(&mut stat, 2025, 10, 1, 3);
    let mut makeup: Vec<CivilDate> = Vec::new();
    push_span(&mut makeup, 2025, 1, 26, 26);
    push_span(&mut makeup, 2025, 2, 8, 8);
    push_span(&mut makeup, 2025, 4, 27, 27);
    push_span(&mut makeup, 2025, 9, 28, 28);
    push_span(&mut makeup, 2025, 10, 11, 11);
    CalendarYear {
        year: 2025,
        scheduled_days_off: sched,
        statutory_holidays: stat,
        makeup_workdays: makeup,
        schedule_source: to_owned_string("国办2025年节假日通知"),
        statutory_source: to_owned_string("《全国年节及纪念日放假办法》(国务院令第795号)"),
    }
}

/// The data of 2026.
fn year_2026() -> (r: CalendarYear)
    ensures
        year_holds(r, 2026),
{
    let mut sched: Vec<CivilDate> = Vec::new();
    push_span(&mut sched, 2026, 1, 1, 3);
    push_span(&mut sched, 2026, 2, 15, 23);
    push_span(&mut sched, 2026, 4, 4, 6);
    push_span(&mut sched, 2026, 5, 1, 5);
    push_span(&mut sched, 2026, 6, 19, 21);
    push_span(&mut sched, 2026, 9, 25, 27);
    push_span(&mut sched, 2026, 10, 1, 7);
    let mut stat: Vec<CivilDate> = Vec::new();
    push_span(&mut stat, 2026, 1, 1, 1);
    push_span(&mut stat, 2026, 2, 16, 19);
    push_span(&mut stat, 2026, 4, 5, 5);
    push_span(&mut stat, 2026, 5, 1, 2);
    push_span(&mut stat, 2026, 6, 19, 19);
    push_span(&mut stat, 2026, 9, 25, 25);
    push_span(&mut stat, 2026, 10, 1, 3);
    let mut makeup: Vec<CivilDate> = Vec::new();
    push_span(&mut makeup, 2026, 1, 4, 4);
    push_span(&mut makeup, 2026, 2, 14, 14);
    push_span(&mut makeup, 2026, 2, 28, 28);
    push_span(&mut makeup, 2026, 5, 9, 9);
    push_span(&mut makeup, 2026, 9, 20, 20);
    push_span(&mut makeup, 2026, 10, 10, 10);
    CalendarYear {
        year: 2026,
        scheduled_days_off: sched,
        statutory_holidays: stat,
        makeup_workdays: makeup,
        schedule_source: to_owned_string("国办2026年节假日通知"),
        statutory_source: to_owned_string("《全国年节及纪念日放假办法》(国务院令第795号)"),
    }
}

/// Whether `d` is one of `v`.
fn holds_date(v: &Vec<CivilDate>, d: CivilDate) -> (r: bool)
    ensures
        r == v@.contains(d),
{
    let mut i: usize = 0;
    while i < v.len()
        invariant
            i <= v@.len(),
            forall|k: int| 0 <= k < i ==> v@[k] != d,
        decreases v@.len() - i,
    {
        if v[i] == d {
            return true;
        }
        i += 1;
    }
    false
}

/// The calendar of mainland China for the years 2024 to 2026.
pub struct CnCalendarProvider {
    years: Vec<CalendarYear>,
}

impl CnCalendarProvider {
    /// The provider holds the data of 2024, 2025 and 2026, in that order.
    #[verifier::type_invariant]
    spec fn holds_data(self) -> bool {
        &&& self.years@.len() == 3
        &&& year_holds(self.years@[0], 2024)
        &&& year_holds(self.years@[1], 2025)
        &&& year_holds(self.years@[2], 2026)
    }

    /// The yearly data the calendar holds, in order.
    pub closed spec fn years_held(&self) -> Seq<CalendarYear> {
        self.years@
    }

    /// The calendar with its data: the years 2024, 2025 and 2026, in order.
    pub fn new() -> (r: Self)
        ensures
            r.years_held().len() == 3,
            year_holds(r.years_held()[0], 2024),
            year_holds(r.years_held()[1], 2025),
            year_holds(r.years_held()[2], 2026),
    {
        let mut years: Vec<CalendarYear> = Vec::new();
        years.push(year_2024());
        years.push(year_2025());
        years.push(year_2026());
        CnCalendarProvider { years }
    }

    /// The data of year `y`, if the calendar holds it.
    pub fn year(&self, y: i32) -> (r: Option<&CalendarYear>)
        ensures
            r is Some <==> supported_year(y as int),
            r matches Some(c) ==> year_holds(*c, y as int),
    {
        proof {
            use_type_invariant(self);
        }
        if y == 2024 {
            Some(&self.years[0])
        } else if y == 2025 {
            Some(&self.years[1])
        } else if y == 2026 {
            Some(&self.years[2])
        } else {
            None
        }
    }

    /// What kind of day `date` is; refuses a year the calendar does not hold.
    pub fn day_kind(&self, date: CivilDate) -> (r: Result<CalendarDayKind, CalendarError>)
        requires
            valid_date(date),
        ensures
            r == cn_day_kind(date),
    {
        let y = match self.year(date.year) {
            Some(y) => y,
            None => {
                return Err(CalendarError::UnsupportedYear(date.year));
            },
        };
        if holds_date(&y.makeup_workdays, date) {
            return Ok(CalendarDayKind::MakeupWorkday);
        }
        if holds_date(&y.statutory_holidays, date) {
            return Ok(CalendarDayKind::StatutoryHoliday);
        }
        if holds_date(&y.scheduled_days_off, date) {
            return Ok(CalendarDayKind::ScheduledDayOff);
        }
        if weekday_of(date) >= 5 {
            return Ok(CalendarDayKind::Weekend);
        }
        Ok(CalendarDayKind::RegularWorkday)
    }

    /// Whether `date` is a working day (a regular or a make-up workday).
    pub fn is_workday(&self, date: CivilDate) -> (r: Result<bool, CalendarError>)
        requires
            valid_date(date),
        ensures
            match cn_day_kind(date) {
                Ok(k) => r == Ok::<bool, CalendarError>(k == CalendarDayKind::RegularWorkday || k
                    == CalendarDayKind::MakeupWorkday),
                Err(e) => r == Err::<bool, CalendarError>(e),
            },
    {
        match self.day_kind(date) {
            Ok(k) => Ok(k.is_workday()),
            Err(e) => Err(e),
        }
    }

    /// Whether `date` is a statutory holiday.
    pub fn is_statutory_holiday(&self, date: CivilDate) -> (r: Result<bool, CalendarError>)
        requires
            valid_date(date),
        ensures
            match cn_day_kind(date) {
                Ok(k) => r == Ok::<bool, CalendarError>(k == CalendarDayKind::StatutoryHoliday),
                Err(e) => r == Err::<bool, CalendarError>(e),
            },
    {
        match self.day_kind(date) {
            Ok(k) => Ok(k.is_statutory_holiday()),
            Err(e) => Err(e),
        }
    }
}

/// A calendar that says what kind each day is.
pub trait CalendarProvider {
    /// What kind of day `date` is, or why the calendar cannot tell.
    spec fn kind_of(&self, date: CivilDate) -> Result<CalendarDayKind, CalendarError>;

    /// What kind of day `date` is.
    fn day_kind(&self, date: CivilDate) -> (r: Result<CalendarDayKind, CalendarError>)
        requires
            valid_date(date),
        ensures
            r == self.kind_of(date),
    ;

    /// Whether `date` is a working day (a regular or a make-up workday).
    fn is_workday(&self, date: CivilDate) -> (r: Result<bool, CalendarError>)
        requires
            valid_date(date),
        ensures
            match self.kind_of(date) {
                Ok(k) => r == Ok::<bool, CalendarError>(k == CalendarDayKind::RegularWorkday || k
                    == CalendarDayKind::MakeupWorkday),
                Err(e) => r == Err::<bool, CalendarError>(e),
            },
    {
        match self.day_kind(date) {
            Ok(k) => Ok(k.is_workday()),
            Err(e) => Err(e),
        }
    }

    /// Whether `date` is a statutory holiday.
    fn is_statutory_holiday(&self, date: CivilDate) -> (r: Result<bool, CalendarError>)
        requires
            valid_date(date),
        ensures
            match self.kind_of(date) {
                Ok(k) => r == Ok::<bool, CalendarError>(k == CalendarDayKind::StatutoryHoliday),
                Err(e) => r == Err::<bool, CalendarError>(e),
            },
    {
        match self.day_kind(date) {
            Ok(k) => Ok(k.is_statutory_holiday()),
            Err(e) => Err(e),
        }
    }
}

impl CalendarProvider for CnCalendarProvider {
    open spec fn kind_of(&self, date: CivilDate) -> Result<CalendarDayKind, CalendarError> {
        cn_day_kind(date)
    }

    fn day_kind(&self, date: CivilDate) -> (r: Result<CalendarDayKind, CalendarError>) {
        CnCalendarProvider::day_kind(self, date)
    }
}


/// Why a count of days failed.
#[derive(Debug, Clone, Copy, PartialEq, Eq, Structural)]
pub enum TimeDomainError {
    /// The end day comes before the start day.
    EndBeforeStart,
    /// The count ran past the last day a date can have.
    DateOverflow,
    /// The calendar holds no data for a year the period reaches.
    CalendarUnavailable { year: i32 },
}

/// Whether a period's final day moves past statutory holidays.
#[derive(Debug, Clone, Copy, PartialEq, Eq, Structural)]
pub enum FinalDayAdjustment {
    /// The final day stays as it is.
    NoAdjustment,
    /// A final day on a statutory holiday moves to the first later day that
    /// is not one.
    ExtendPastLegalHoliday,
}

/// The day after a valid day before a valid `end` is valid, later, and not
/// after `end`.
pub proof fn lemma_next_within(cur: CivilDate, end: CivilDate)
    requires
        valid_date(cur),
        valid_date(end),
        before(cur, end),
    ensures
        valid_date(next_date(cur)),
        before(cur, next_date(cur)),
        !before(end, next_date(cur)),
{
}

/// 1 for a working day, else 0.
pub open spec fn workday_weight(k: CalendarDayKind) -> int {
    if k == CalendarDayKind::RegularWorkday || k == CalendarDayKind::MakeupWorkday {
        1
    } else {
        0
    }
}

/// The working days after `cur` up to and including `end`, or the error of
/// the first day after `cur` whose year the calendar does not hold.
pub open spec fn workday_count(cur: CivilDate, end: CivilDate) -> Result<int, TimeDomainError>
    decreases date_key(end) - date_key(cur),
    when valid_date(cur) && valid_date(end)
{
    if !before(cur, end) {
        Ok(0)
    } else {
        proof {
            lemma_next_within(cur, end);
        }
        let n = next_date(cur);
        match cn_day_kind(n) {
            Err(CalendarError::UnsupportedYear(y)) => Err(TimeDomainError::CalendarUnavailable { year: y }),
            Ok(k) => match workday_count(n, end) {
                Ok(c) => Ok(c + workday_weight(k)),
                Err(e) => Err(e),
            },
        }
    }
}

/// `c` working days followed by the count `rest`.
pub open spec fn count_after(c: int, rest: Result<int, TimeDomainError>) -> Result<int, TimeDomainError> {
    match rest {
        Ok(x) => Ok(c + x),
        Err(e) => Err(e),
    }
}

/// Counts working days on the calendar of mainland China.
pub struct WorkingDaysCounter {
    pub provider: CnCalendarProvider,
}

impl WorkingDaysCounter {
    /// The working days after `start` up to and including `end` (the start
    /// day is not counted, the end day is); refuses an end before the start
    /// and a period that reaches a year the calendar does not hold.
    pub fn count_days(&self, start: CivilDate, end: CivilDate) -> (r: Result<u32, TimeDomainError>)
        requires
            valid_date(start),
            valid_date(end),
        ensures
            before(end, start) ==> r == Err::<u32, TimeDomainError>(TimeDomainError::EndBeforeStart),
            !before(end, start) ==> match workday_count(start, end) {
                Ok(c) => r == Ok::<u32, TimeDomainError>(c as u32) && c <= u32::MAX,
                Err(e) => r == Err::<u32, TimeDomainError>(e),
            },
    {
        if date_before(end, start) {
            return Err(TimeDomainError::EndBeforeStart);
        }
        let mut count: u32 = 0;
        let mut current = start;
        while date_before(current, end)
            invariant
                valid_date(start),
                valid_date(end),
                valid_date(current),
                !before(end, current),
                date_key(start) <= date_key(current),
                count <= date_key(current) - date_key(start),
                count_after(count as int, workday_count(current, end)) == workday_count(start, end),
            decreases date_key(end) - date_key(current),
        {
            proof {
                lemma_next_within(current, end);
            }
            let next = match succ(current) {
                Some(n) => n,
                None => {
                    return Err(TimeDomainError::DateOverflow);
                },
            };
            match self.provider.day_kind(next) {
                Ok(k) => {
                    if k.is_workday() {
                        count = count + 1;
                    }
                },
                Err(CalendarError::UnsupportedYear(y)) => {
                    return Err(TimeDomainError::CalendarUnavailable { year: y });
                },
            }
            current = next;
        }
        Ok(count)
    }
}

/// The day after a valid day of a year before the last is valid and later.
pub proof fn lemma_next_valid(d: CivilDate)
    requires
        valid_date(d),
        d.year < MAX_YEAR,
    ensures
        valid_date(next_date(d)),
        before(d, next_date(d)),
{
}

/// The first day after `d` that is not a statutory holiday, or the error of
/// the first day on the way whose year the calendar does not hold.
pub open spec fn first_non_statutory_after(d: CivilDate) -> Result<CivilDate, CalendarError>
    decreases 2030 * 512 - date_key(d),
    when valid_date(d) && d.year <= 2029
{
    proof {
        lemma_next_valid(d);
    }
    let n = next_date(d);
    match cn_day_kind(n) {
        Err(e) => Err(e),
        Ok(k) => if k == CalendarDayKind::StatutoryHoliday {
            first_non_statutory_after(n)
        } else {
            Ok(n)
        },
    }
}

/// The final day of a period ending on `date`, adjusted as `adjustment`
/// says: a statutory holiday moves to the first later day that is not one
/// (a weekend or a scheduled day off there is kept as it is).
pub open spec fn adjusted_final_day(date: CivilDate, adjustment: FinalDayAdjustment) -> Result<
    CivilDate,
    CalendarError,
> {
    match adjustment {
        FinalDayAdjustment::NoAdjustment => Ok(date),
        FinalDayAdjustment::ExtendPastLegalHoliday => match cn_day_kind(date) {
            Err(e) => Err(e),
            Ok(k) => if k == CalendarDayKind::StatutoryHoliday {
                first_non_statutory_after(date)
            } else {
                Ok(date)
            },
        },
    }
}

/// Moves the final day `date` of a period as `adjustment` says.
pub fn adjust_final_day(date: CivilDate, adjustment: FinalDayAdjustment, provider: &CnCalendarProvider) -> (r: Result<
    CivilDate,
    CalendarError,
>)
    requires
        valid_date(date),
    ensures
        r == adjusted_final_day(date, adjustment),
{
    match adjustment {
        FinalDayAdjustment::NoAdjustment => Ok(date),
        FinalDayAdjustment::ExtendPastLegalHoliday => {
            match provider.day_kind(date) {
                Err(e) => {
                    return Err(e);
                },
                Ok(k) => {
                    if !k.is_statutory_holiday() {
                        return Ok(date);
                    }
                },
            }
            let mut current = date;
            loop
                invariant
                    valid_date(date),
                    valid_date(current),
                    supported_year(current.year as int),
                    first_non_statutory_after(current) == first_non_statutory_after(date),
                    cn_day_kind(date) == Ok::<CalendarDayKind, CalendarError>(CalendarDayKind::StatutoryHoliday),
                    adjustment == FinalDayAdjustment::ExtendPastLegalHoliday,
                decreases 2030 * 512 - date_key(current),
            {
                proof {
                    lemma_next_valid(current);
                }
                let ghost prev = current;
                current = match succ(current) {
                    Some(n) => n,
                    None => {
                        return Err(CalendarError::UnsupportedYear(current.year));
                    },
                };
                let kind = provider.day_kind(current);
                proof {
                    assert(current == next_date(prev));
                    assert(first_non_statutory_after(prev) == match cn_day_kind(current) {
                        Err(e) => Err(e),
                        Ok(k) => if k == CalendarDayKind::StatutoryHoliday {
                            first_non_statutory_after(current)
                        } else {
                            Ok(current)
                        },
                    });
                }
                match kind {
                    Err(e) => {
                        return Err(e);
                    },
                    Ok(k) => {
                        if !k.is_statutory_holiday() {
                            return Ok(current);
                        }
                    },
                }
            }
        },
    }
}

/// Day numbers count days: the day after `d` has the next number.
pub proof fn lemma_next_day_number(d: CivilDate)
    requires
        valid_date(d),
    ensures
        day_number(next_date(d)) == day_number(d) + 1,
{
    let n = next_date(d);
    if (d.day as int) < days_in_month(d.year as int, d.month as int) {
    } else if d.month < 12 {
        if d.month == 2 {
            let s = d.year as int + 400000;
            assert(s / 4 - (s - 1) / 4 == (if s % 4 == 0 { 1int } else { 0 }));
            assert(s / 100 - (s - 1) / 100 == (if s % 100 == 0 { 1int } else { 0 }));
            assert(s / 400 - (s - 1) / 400 == (if s % 400 == 0 { 1int } else { 0 }));
            assert(s % 4 == 0 <==> d.year % 4 == 0);
            assert(s % 100 == 0 <==> d.year % 100 == 0);
            assert(s % 400 == 0 <==> d.year % 400 == 0);
        }
    } else {
    }
}

/// Of two valid days, the earlier has the smaller day number.
pub proof fn lemma_day_number_monotone(a: CivilDate, b: CivilDate)
    requires
        valid_date(a),
        valid_date(b),
        before(a, b),
    ensures
        day_number(a) < day_number(b),
    decreases date_key(b) - date_key(a),
{
    lemma_next_within(a, b);
    lemma_next_day_number(a);
    let n = next_date(a);
    if before(n, b) {
        lemma_day_number_monotone(n, b);
    } else {
        assert(n == b);
    }
}

/// Counts calendar days.
pub struct CalendarDaysCounter;

impl CalendarDaysCounter {
    /// The calendar days after `start` up to and including `end`; refuses
    /// an end before the start.
    pub fn count_days(&self, start: CivilDate, end: CivilDate) -> (r: Result<u32, TimeDomainError>)
        requires
            valid_date(start),
            valid_date(end),
        ensures
            before(end, start) ==> r == Err::<u32, TimeDomainError>(TimeDomainError::EndBeforeStart),
            !before(end, start) ==> r == Ok::<u32, TimeDomainError>((day_number(end) - day_number(start)) as u32)
                && 0 <= day_number(end) - day_number(start) <= u32::MAX,
    {
        if date_before(end, start) {
            return Err(TimeDomainError::EndBeforeStart);
        }
        proof {
            if before(start, end) {
                lemma_day_number_monotone(start, end);
            } else {
                assert(start == end);
            }
        }
        let a = day_number_of(start);
        let b = day_number_of(end);
        Ok((b - a) as u32)
    }
}

/// A period has no more working days than calendar days: the working days
/// after `start` up to `end` number at most the days between them.
pub proof fn law_workdays_within_calendar_days(start: CivilDate, end: CivilDate)
    requires
        valid_date(start),
        valid_date(end),
        !before(end, start),
    ensures
        workday_count(start, end) matches Ok(c) ==> 0 <= c <= day_number(end) - day_number(start),
    decreases date_key(end) - date_key(start),
{
    if before(start, end) {
        lemma_next_within(start, end);
        lemma_next_day_number(start);
        let n = next_date(start);
        law_workdays_within_calendar_days(n, end);
    } else {
        assert(start == end);
    }
}

/// A final day that is not a statutory holiday stays where it is.
pub proof fn law_only_statutory_holidays_move(date: CivilDate)
    requires
        valid_date(date),
        cn_day_kind(date) matches Ok(k) && k != CalendarDayKind::StatutoryHoliday,
    ensures
        adjusted_final_day(date, FinalDayAdjustment::ExtendPastLegalHoliday) == Ok::<CivilDate, CalendarError>(date),
        adjusted_final_day(date, FinalDayAdjustment::NoAdjustment) == Ok::<CivilDate, CalendarError>(date),
{
}

/// A final day on a statutory holiday moves to a later day that is not
/// one, and every day it passes is a statutory holiday.
pub proof fn law_extension_lands_after_holidays(d: CivilDate)
    requires
        valid_date(d),
        d.year <= 2029,
    ensures
        first_non_statutory_after(d) matches Ok(r) ==> {
            &&& before(d, r)
            &&& valid_date(r)
            &&& cn_day_kind(r) matches Ok(k) && k != CalendarDayKind::StatutoryHoliday
            &&& forall|x: CivilDate|
                valid_date(x) && before(d, x) && before(x, r) ==> cn_day_kind(x)
                    == Ok::<CalendarDayKind, CalendarError>(CalendarDayKind::StatutoryHoliday)
        },
    decreases 2030 * 512 - date_key(d),
{
    lemma_next_valid(d);
    let n = next_date(d);
    assert forall|x: CivilDate| valid_date(x) && before(d, x) implies !before(x, n) by {
        if before(x, n) {
            lemma_next_within(d, x);
        }
    }
    match cn_day_kind(n) {
        Err(_) => {},
        Ok(k) => {
            if k == CalendarDayKind::StatutoryHoliday {
                law_extension_lands_after_holidays(n);
                assert(first_non_statutory_after(d) == first_non_statutory_after(n));
                assert forall|x: CivilDate|
                    first_non_statutory_after(d) is Ok && valid_date(x) && before(d, x) && before(
                        x,
                        first_non_statutory_after(d)->Ok_0,
                    ) implies cn_day_kind(x)
                    == Ok::<CalendarDayKind, CalendarError>(CalendarDayKind::StatutoryHoliday) by {
                    if x != n {
                        assert(before(n, x));
                    }
                }
            }
        },
    }
}

} // verus!
