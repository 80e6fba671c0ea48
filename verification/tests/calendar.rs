use tender_agents::tools::calendar::{
    adjust_final_day, CalendarDayKind, CalendarDaysCounter, CalendarError, CivilDate, CnCalendarProvider,
    FinalDayAdjustment, TimeDomainError, WorkingDaysCounter,
};
use tender_agents::tools::calendar::weekday_of;

fn d(y: i32, m: u32, day: u32) -> CivilDate {
    CivilDate { year: y, month: m, day }
}
fn provider() -> CnCalendarProvider {
    CnCalendarProvider::new()
}
fn kind(y: i32, m: u32, day: u32) -> CalendarDayKind {
    provider().day_kind(d(y, m, day)).unwrap()
}
fn wd(start: CivilDate, end: CivilDate) -> u32 {
    WorkingDaysCounter { provider: provider() }.count_days(start, end).unwrap()
}
fn adj(date: CivilDate, adj_ty: FinalDayAdjustment) -> CivilDate {
    adjust_final_day(date, adj_ty, &provider()).unwrap()
}

#[test]
fn kind_regular() {
    assert_eq!(kind(2026, 6, 18), CalendarDayKind::RegularWorkday);
}
#[test]
fn kind_weekend() {
    assert_eq!(kind(2024, 6, 16), CalendarDayKind::Weekend);
}
#[test]
fn kind_scheduled() {
    assert_eq!(kind(2024, 2, 14), CalendarDayKind::ScheduledDayOff);
}
#[test]
fn kind_statutory() {
    assert_eq!(kind(2024, 6, 10), CalendarDayKind::StatutoryHoliday);
}
#[test]
fn kind_makeup() {
    assert_eq!(kind(2024, 2, 18), CalendarDayKind::MakeupWorkday);
}

#[test]
fn wd_regular() {
    assert!(provider().is_workday(d(2026, 6, 18)).unwrap());
}
#[test]
fn wd_makeup() {
    assert!(provider().is_workday(d(2024, 2, 18)).unwrap());
}
#[test]
fn wd_weekend() {
    assert!(!provider().is_workday(d(2024, 6, 16)).unwrap());
}
#[test]
fn wd_scheduled() {
    assert!(!provider().is_workday(d(2024, 2, 14)).unwrap());
}
#[test]
fn wd_statutory() {
    assert!(!provider().is_workday(d(2024, 6, 10)).unwrap());
}

#[test]
fn y2024_may01_statutory() {
    assert!(provider().is_statutory_holiday(d(2024, 5, 1)).unwrap());
}
#[test]
fn y2024_may02_not_statutory() {
    assert!(!provider().is_statutory_holiday(d(2024, 5, 2)).unwrap());
}
#[test]
fn y2025_may01_statutory() {
    assert!(provider().is_statutory_holiday(d(2025, 5, 1)).unwrap());
}
#[test]
fn y2025_may02_statutory() {
    assert!(provider().is_statutory_holiday(d(2025, 5, 2)).unwrap());
}

#[test]
fn y2024_sf_statutory_only_3() {
    assert!(provider().is_statutory_holiday(d(2024, 2, 10)).unwrap());
    assert!(provider().is_statutory_holiday(d(2024, 2, 11)).unwrap());
    assert!(provider().is_statutory_holiday(d(2024, 2, 12)).unwrap());
    assert!(!provider().is_statutory_holiday(d(2024, 2, 9)).unwrap());
    assert!(!provider().is_statutory_holiday(d(2024, 2, 8)).unwrap());
}

#[test]
fn y2026_sf_statutory_4_with_eve() {
    assert!(provider().is_statutory_holiday(d(2026, 2, 16)).unwrap());
    assert!(provider().is_statutory_holiday(d(2026, 2, 17)).unwrap());
    assert!(provider().is_statutory_holiday(d(2026, 2, 19)).unwrap());
    assert_eq!(kind(2026, 2, 15), CalendarDayKind::ScheduledDayOff);
    assert!(!provider().is_statutory_holiday(d(2026, 2, 15)).unwrap());
    assert_eq!(kind(2026, 2, 20), CalendarDayKind::ScheduledDayOff);
    assert!(!provider().is_statutory_holiday(d(2026, 2, 20)).unwrap());
}

#[test]
fn scheduled_not_statutory_no_extend() {
    assert_eq!(adj(d(2026, 2, 20), FinalDayAdjustment::ExtendPastLegalHoliday), d(2026, 2, 20));
}

#[test]
fn exact_2024_01_01() {
    assert_eq!(kind(2024, 1, 1), CalendarDayKind::StatutoryHoliday);
}
#[test]
fn exact_2024_06_10() {
    assert_eq!(kind(2024, 6, 10), CalendarDayKind::StatutoryHoliday);
}
#[test]
fn exact_2025_10_01() {
    assert_eq!(kind(2025, 10, 1), CalendarDayKind::StatutoryHoliday);
}
#[test]
fn exact_2026_06_19() {
    assert_eq!(kind(2026, 6, 19), CalendarDayKind::StatutoryHoliday);
}

#[test]
fn makeup_feb18() {
    assert_eq!(kind(2024, 2, 18), CalendarDayKind::MakeupWorkday);
}
#[test]
fn makeup_jan26() {
    assert_eq!(kind(2025, 1, 26), CalendarDayKind::MakeupWorkday);
}
#[test]
fn makeup_feb14() {
    assert_eq!(kind(2026, 2, 14), CalendarDayKind::MakeupWorkday);
}
#[test]
fn makeup_priority_weekend() {
    assert_eq!(kind(2024, 2, 18), CalendarDayKind::MakeupWorkday);
}

#[test]
fn unsupported_year() {
    assert!(matches!(provider().day_kind(d(2027, 1, 4)), Err(CalendarError::UnsupportedYear(2027))));
}

#[test]
fn wd_mon_fri() {
    assert_eq!(wd(d(2025, 6, 16), d(2025, 6, 20)), 4);
}
#[test]
fn wd_fri_mon() {
    assert_eq!(wd(d(2025, 6, 13), d(2025, 6, 16)), 1);
}
#[test]
fn wd_same() {
    assert_eq!(wd(d(2025, 6, 17), d(2025, 6, 17)), 0);
}
#[test]
fn wd_spring() {
    assert_eq!(wd(d(2024, 2, 16), d(2024, 2, 19)), 2);
}
#[test]
fn wd_reversed() {
    assert!(matches!(
        WorkingDaysCounter { provider: provider() }.count_days(d(2025, 6, 2), d(2025, 6, 1)),
        Err(TimeDomainError::EndBeforeStart)
    ));
}
#[test]
fn wd_2027_err() {
    assert!(matches!(
        WorkingDaysCounter { provider: provider() }.count_days(d(2026, 12, 30), d(2027, 1, 4)),
        Err(TimeDomainError::CalendarUnavailable { year: 2027 })
    ));
}

#[test]
fn adj_none() {
    assert_eq!(adj(d(2026, 6, 19), FinalDayAdjustment::NoAdjustment), d(2026, 6, 19));
}
#[test]
fn adj_regular() {
    assert_eq!(adj(d(2026, 6, 18), FinalDayAdjustment::ExtendPastLegalHoliday), d(2026, 6, 18));
}
#[test]
fn adj_makeup() {
    assert_eq!(adj(d(2026, 2, 14), FinalDayAdjustment::ExtendPastLegalHoliday), d(2026, 2, 14));
}
#[test]
fn adj_weekend_no() {
    assert_eq!(adj(d(2026, 6, 13), FinalDayAdjustment::ExtendPastLegalHoliday), d(2026, 6, 13));
}
#[test]
fn adj_scheduled_no_extend() {
    assert_eq!(adj(d(2026, 2, 20), FinalDayAdjustment::ExtendPastLegalHoliday), d(2026, 2, 20));
}
#[test]
fn adj_statutory_consecutive() {
    assert_eq!(adj(d(2026, 6, 19), FinalDayAdjustment::ExtendPastLegalHoliday), d(2026, 6, 20));
}

#[test]
fn sched_2024_count() {
    assert_eq!(provider().year(2024).unwrap().scheduled_days_off.len(), 28);
}
#[test]
fn sched_2025_count() {
    assert_eq!(provider().year(2025).unwrap().scheduled_days_off.len(), 28);
}
#[test]
fn sched_2026_count() {
    assert_eq!(provider().year(2026).unwrap().scheduled_days_off.len(), 33);
}
#[test]
fn stat_2024_count() {
    assert_eq!(provider().year(2024).unwrap().statutory_holidays.len(), 11);
}
#[test]
fn stat_2025_count() {
    assert_eq!(provider().year(2025).unwrap().statutory_holidays.len(), 13);
}
#[test]
fn stat_2026_count() {
    assert_eq!(provider().year(2026).unwrap().statutory_holidays.len(), 13);
}

#[test]
fn spring_festival_2025_extends_past_four_statutory_days() {
    assert_eq!(adj(d(2025, 1, 28), FinalDayAdjustment::ExtendPastLegalHoliday), d(2025, 2, 1));
    assert_eq!(
        adjust_final_day(d(2027, 1, 1), FinalDayAdjustment::ExtendPastLegalHoliday, &provider()),
        Err(CalendarError::UnsupportedYear(2027))
    );
}

#[test]
fn calendar_days_count_across_months_and_years() {
    let c = CalendarDaysCounter;
    assert_eq!(c.count_days(d(2024, 2, 28), d(2024, 3, 1)), Ok(2));
    assert_eq!(c.count_days(d(2025, 2, 28), d(2025, 3, 1)), Ok(1));
    assert_eq!(c.count_days(d(2024, 12, 31), d(2025, 1, 1)), Ok(1));
    assert_eq!(c.count_days(d(2025, 6, 22), d(2025, 7, 12)), Ok(20));
    assert_eq!(c.count_days(d(2025, 6, 2), d(2025, 6, 1)), Err(TimeDomainError::EndBeforeStart));
    assert!(wd(d(2025, 6, 22), d(2025, 7, 12)) <= 20);
}

#[test]
fn weekday_of_known_dates() {
    assert_eq!(weekday_of(d(1970, 1, 1)), 3);
    assert_eq!(weekday_of(d(2024, 6, 16)), 6);
    assert_eq!(weekday_of(d(2026, 6, 18)), 3);
    assert_eq!(weekday_of(d(1900, 1, 1)), 0);
    assert_eq!(weekday_of(d(2000, 2, 29)), 1);
}

#[test]
fn calendar_error_message() {
    assert_eq!(CalendarError::UnsupportedYear(2027).message(), "unsupported year: 2027");
    assert_eq!(CalendarError::UnsupportedYear(-5).message(), "unsupported year: -5");
}
