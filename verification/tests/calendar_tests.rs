use chrono::{Datelike, NaiveDate, TimeZone, Utc};
use qdb::calendar::{
    default_calendar, default_finish_hour, default_start_hour, default_timezone, default_working_days,
    weekday_to_iso, CalendarException, CalendarSet, KernelCalendar, RuntimeCalendar,
};

fn day(y: i32, m: u32, d: u32) -> i64 {
    NaiveDate::from_ymd_opt(y, m, d).unwrap().num_days_from_ce() as i64
}

fn at(y: i32, mo: u32, d: u32, h: u32, mi: u32) -> i128 {
    Utc.with_ymd_and_hms(y, mo, d, h, mi, 0).unwrap().timestamp() as i128 * 1_000_000_000
}

fn exception(date: &str, day_type: &str, sh: u8, fh: u8) -> CalendarException {
    CalendarException {
        date: date.to_string(),
        day_type: day_type.to_string(),
        work_start_hour: sh,
        work_start_minute: 0,
        work_finish_hour: fh,
        work_finish_minute: 0,
        description: String::new(),
    }
}

fn calendar(exceptions: Vec<CalendarException>) -> KernelCalendar {
    KernelCalendar {
        calendar_id: "cal".to_string(),
        name: "Cal".to_string(),
        timezone: default_timezone(),
        working_days: default_working_days(),
        work_start_hour: default_start_hour(),
        work_start_minute: 0,
        work_finish_hour: default_finish_hour(),
        work_finish_minute: 0,
        exceptions,
    }
}

#[test]
fn defaults_match_the_documented_standard_week() {
    assert_eq!(default_timezone(), "UTC");
    assert_eq!(default_working_days(), vec![0, 1, 2, 3, 4]);
    assert_eq!(default_start_hour(), 8);
    assert_eq!(default_finish_hour(), 17);
    let e = CalendarException::default();
    assert_eq!(e.day_type, "non_working");
    assert_eq!((e.work_start_hour, e.work_start_minute, e.work_finish_hour, e.work_finish_minute), (8, 0, 17, 0));
    assert!(e.date.is_empty() && e.description.is_empty());
}

#[test]
fn weekday_numbers_follow_chrono() {
    for (y, m, d) in [(2026, 1, 5), (2026, 1, 6), (2026, 1, 11), (1, 1, 1), (-44, 3, 15), (1970, 1, 1)] {
        let date = NaiveDate::from_ymd_opt(y, m, d).unwrap();
        assert_eq!(weekday_to_iso(day(y, m, d)) as u32, date.weekday().num_days_from_monday());
    }
    assert_eq!(weekday_to_iso(day(2026, 1, 5)), 0); // a Monday
    assert_eq!(weekday_to_iso(day(2026, 1, 11)), 6); // a Sunday
}

#[test]
fn normal_days_follow_the_working_week() {
    let cal = RuntimeCalendar::new(calendar(vec![]));
    assert_eq!(cal.minutes_per_normal_day(), 540);
    assert_eq!(cal.working_minutes_on_day(day(2026, 1, 6)), 540);
    assert_eq!(cal.working_minutes_on_day(day(2026, 1, 10)), 0);
    assert!(cal.is_working_day(day(2026, 1, 9)));
    assert!(!cal.is_working_day(day(2026, 1, 11)));
    assert_eq!(cal.id(), "cal");
}

#[test]
fn exceptions_decide_their_day_and_the_last_one_wins() {
    let cal = RuntimeCalendar::new(calendar(vec![
        exception("2026-12-25", "non_working", 8, 17),
        exception("2026-12-26", "working", 9, 13),
        exception("2026-12-24", "half_day", 8, 12),
        exception("2026-12-24", "working", 10, 12),
        exception("not a date", "working", 8, 17),
        exception("2026-12-27", "working", 17, 8),
    ]));
    assert_eq!(cal.working_minutes_on_day(day(2026, 12, 25)), 0); // a Friday, overridden
    assert_eq!(cal.working_minutes_on_day(day(2026, 12, 26)), 240); // a Saturday, worked
    assert_eq!(cal.working_minutes_on_day(day(2026, 12, 24)), 120);
    assert_eq!(cal.working_minutes_on_day(day(2026, 12, 27)), 0); // finish before start
    assert_eq!(cal.day_work_finish(day(2026, 12, 26)), at(2026, 12, 26, 13, 0));
    assert_eq!(cal.day_work_finish(day(2026, 12, 28)), at(2026, 12, 28, 17, 0));
}

#[test]
fn invalid_clock_times_fall_back() {
    let mut k = calendar(vec![exception("2026-03-02", "working", 8, 30)]);
    k.work_start_hour = 25;
    k.work_finish_hour = 24;
    let cal = RuntimeCalendar::new(k);
    assert_eq!(cal.day_work_finish(day(2026, 3, 3)), at(2026, 3, 3, 17, 0));
    assert_eq!(cal.day_work_finish(day(2026, 3, 2)), at(2026, 3, 2, 17, 0));
    assert_eq!(cal.next_work_start(day(2026, 3, 2)), at(2026, 3, 2, 8, 0));
    assert!(!cal.has_working_day_from(day(2026, 3, 3)));
}

#[test]
fn next_work_start_skips_to_the_first_working_day() {
    let cal = RuntimeCalendar::new(calendar(vec![exception("2026-01-12", "non_working", 8, 17)]));
    // Saturday 10th -> Monday 12th is an exception -> Tuesday 13th
    assert!(cal.has_working_day_from(day(2026, 1, 10)));
    assert_eq!(cal.next_work_start(day(2026, 1, 10)), at(2026, 1, 13, 8, 0));
    assert_eq!(cal.next_work_start(day(2026, 1, 9)), at(2026, 1, 9, 8, 0));
}

#[test]
fn a_calendar_without_working_time_has_no_next_day() {
    let mut k = calendar(vec![exception("2026-01-03", "working", 8, 12)]);
    k.working_days = vec![7, 9];
    let cal = RuntimeCalendar::new(k);
    assert!(cal.has_working_day_from(day(2026, 1, 1)));
    assert_eq!(cal.next_work_start(day(2026, 1, 1)), at(2026, 1, 3, 8, 0));
    assert!(!cal.has_working_day_from(day(2026, 1, 4)));
    let mut k2 = calendar(vec![]);
    k2.work_finish_hour = 8;
    assert!(!RuntimeCalendar::new(k2).has_working_day_from(day(2026, 1, 1)));
}

#[test]
fn default_calendar_is_monday_to_friday() {
    let cal = default_calendar();
    assert_eq!(cal.id(), "__default__");
    assert_eq!(cal.minutes_per_normal_day(), 540);
    assert!(cal.is_working_day(day(2026, 1, 5)));
    assert!(!cal.is_working_day(day(2026, 1, 4)));
}

#[test]
fn minutes_per_day_is_never_negative() {
    let mut k = calendar(vec![]);
    k.work_start_hour = 18;
    assert_eq!(k.working_minutes_per_day(), 0);
    k.work_start_hour = 8;
    k.work_start_minute = 30;
    k.work_finish_minute = 15;
    assert_eq!(k.working_minutes_per_day(), 525);
}

#[test]
fn minutes_by_day_walks_working_days() {
    let cal = default_calendar();
    // Monday 2026-01-05 10:30 to Wednesday 2026-01-07 12:00.
    let v = cal.working_minutes_by_day(at(2026, 1, 5, 10, 30), at(2026, 1, 7, 12, 0)).unwrap();
    assert_eq!(v, vec![390, 540, 240]);
    // Friday 15:00 to Monday 09:00: the weekend counts nothing.
    let v = cal.working_minutes_by_day(at(2026, 1, 9, 15, 0), at(2026, 1, 12, 9, 0)).unwrap();
    assert_eq!(v, vec![120, 60]);
    // A start before the day's work counts from the start of work.
    let v = cal.working_minutes_by_day(at(2026, 1, 5, 6, 0), at(2026, 1, 5, 9, 0)).unwrap();
    assert_eq!(v, vec![60]);
    // A start on a weekend day counts nothing for that day.
    let v = cal.working_minutes_by_day(at(2026, 1, 10, 9, 0), at(2026, 1, 12, 17, 0)).unwrap();
    assert_eq!(v, vec![540]);
    // An empty or reversed span counts nothing.
    assert_eq!(cal.working_minutes_by_day(at(2026, 1, 5, 9, 0), at(2026, 1, 5, 9, 0)).unwrap(), Vec::<i64>::new());
    assert_eq!(cal.working_minutes_by_day(at(2026, 1, 6, 9, 0), at(2026, 1, 5, 9, 0)).unwrap(), Vec::<i64>::new());
    // Seconds short of a minute are dropped.
    let v = cal.working_minutes_by_day(at(2026, 1, 5, 8, 0), at(2026, 1, 5, 8, 1) - 1).unwrap();
    assert_eq!(v, vec![0]);
}

fn total(cal: &RuntimeCalendar, a: i128, b: i128) -> i64 {
    cal.working_minutes_by_day(a, b).unwrap().iter().sum()
}

#[test]
fn working_minutes_add_up_across_a_split() {
    let cal = default_calendar();
    let (a, b, e) = (at(2026, 1, 5, 18, 0), at(2026, 1, 6, 7, 0), at(2026, 1, 6, 10, 0));
    assert_eq!(total(&cal, a, e), 120);
    assert_eq!(total(&cal, a, b), 0);
    assert_eq!(total(&cal, b, e), 120);
    let (a, b, e) = (at(2026, 1, 2, 9, 15), at(2026, 1, 7, 13, 45), at(2026, 1, 13, 16, 5));
    assert_eq!(total(&cal, a, e), total(&cal, a, b) + total(&cal, b, e));
    // One end off a whole minute: still additive.
    let (a, b, e) = (at(2026, 1, 5, 8, 0) + 30_000_000_000, at(2026, 1, 5, 9, 0), at(2026, 1, 5, 10, 0));
    assert_eq!(total(&cal, a, e), 119);
    assert_eq!(total(&cal, a, b) + total(&cal, b, e), 59 + 60);
    // Partial minutes on both sides of the split fall a minute short.
    let (a, b, e) = (at(2026, 1, 5, 8, 0), at(2026, 1, 5, 8, 0) + 30_000_000_000, at(2026, 1, 5, 8, 1));
    assert_eq!(total(&cal, a, e), 1);
    assert_eq!(total(&cal, a, b) + total(&cal, b, e), 0);
}

#[test]
fn exception_hours_bound_the_counted_time() {
    let cal = RuntimeCalendar::new(calendar(vec![exception("2026-01-06", "half_day", 13, 17)]));
    assert_eq!(cal.day_work_start(day(2026, 1, 6)), at(2026, 1, 6, 13, 0));
    assert_eq!(cal.next_work_start(day(2026, 1, 6)), at(2026, 1, 6, 13, 0));
    let v = cal.working_minutes_by_day(at(2026, 1, 6, 9, 0), at(2026, 1, 6, 15, 0)).unwrap();
    assert_eq!(v, vec![120]);
    let v = cal.working_minutes_by_day(at(2026, 1, 5, 12, 0), at(2026, 1, 6, 14, 0)).unwrap();
    assert_eq!(v, vec![300, 60]);
}

#[test]
fn minutes_by_day_without_a_later_working_day_is_none() {
    let mut k = calendar(vec![exception("2026-01-06", "working", 8, 12)]);
    k.working_days = vec![];
    let cal = RuntimeCalendar::new(k);
    assert!(cal.working_minutes_by_day(at(2026, 1, 5, 9, 0), at(2026, 1, 7, 9, 0)).is_none());
    // When the only working day starts at or after the end, the walk ends.
    assert_eq!(cal.working_minutes_by_day(at(2026, 1, 5, 9, 0), at(2026, 1, 6, 8, 0)).unwrap(), Vec::<i64>::new());
}

#[test]
fn work_left_on_day_counts_within_working_hours() {
    let cal = RuntimeCalendar::new(calendar(vec![exception("2026-01-06", "half_day", 8, 12)]));
    assert_eq!(cal.work_left_on_day(at(2026, 1, 5, 16, 15)), Some((at(2026, 1, 5, 16, 15), 45)));
    assert_eq!(cal.work_left_on_day(at(2026, 1, 5, 18, 0)), Some((at(2026, 1, 5, 18, 0), 0)));
    // Before work starts, the day counts from its start of work: 9 hours.
    assert_eq!(cal.work_left_on_day(at(2026, 1, 5, 6, 0)), Some((at(2026, 1, 5, 8, 0), 540)));
    assert_eq!(cal.work_left_on_day(at(2026, 1, 6, 10, 0)), Some((at(2026, 1, 6, 10, 0), 120)));
    assert_eq!(cal.work_left_on_day(at(2026, 1, 10, 10, 0)), None);
}

fn named(id: &str, start: u8) -> KernelCalendar {
    let mut k = calendar(vec![]);
    k.calendar_id = id.to_string();
    k.work_start_hour = start;
    k
}

#[test]
fn calendar_set_finds_by_id_and_falls_back_on_the_standard_calendar() {
    let set = CalendarSet::new(vec![named("a", 7), named("b", 9), named("a", 6)], None);
    // The later of two calendars with one id wins.
    assert_eq!(set.get(Some("a")).unwrap().day_work_start(day(2026, 1, 5)), at(2026, 1, 5, 6, 0));
    assert_eq!(set.get(Some("b")).unwrap().id(), "b");
    // Unknown ids and no id find the standard calendar.
    assert_eq!(set.get(Some("zz")).unwrap().id(), "__default__");
    assert_eq!(set.get(None).unwrap().id(), "__default__");
    assert_eq!(set.get(None).unwrap().minutes_per_normal_day(), 540);
}

#[test]
fn calendar_set_with_a_given_default() {
    let set = CalendarSet::new(vec![named("a", 7), named("b", 9)], Some("b".to_string()));
    assert_eq!(set.get(None).unwrap().id(), "b");
    // The default is among the calendars, so no standard calendar is added.
    assert!(set.get(Some("zz")).is_none());
    // A default id that names no calendar brings in the standard calendar,
    // which replaces a calendar named `__default__`.
    let set = CalendarSet::new(vec![named("__default__", 5)], Some("x".to_string()));
    assert_eq!(set.get(None).unwrap().day_work_start(day(2026, 1, 5)), at(2026, 1, 5, 8, 0));
    let set = CalendarSet::new(vec![named("__default__", 5)], None);
    assert_eq!(set.get(None).unwrap().day_work_start(day(2026, 1, 5)), at(2026, 1, 5, 5, 0));
}
