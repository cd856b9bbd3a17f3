use chrono::{Duration, TimeZone, Utc};
use qdb::error::KernelError;
use qdb::resources::{
    activity_windows, build_periods, default_period_granularity, default_resource_type, default_true,
    default_work_type, find_window, report_window, report_window_at, ActivityDates,
};

const DAY: i128 = 86_400_000_000_000;

fn at(y: i32, mo: u32, d: u32, h: u32) -> i128 {
    Utc.with_ymd_and_hms(y, mo, d, h, 0, 0).unwrap().timestamp() as i128 * 1_000_000_000
}

fn dates(id: &str, es: Option<&str>, ef: Option<&str>, ss: Option<&str>, sf: Option<&str>) -> ActivityDates {
    ActivityDates {
        id: id.to_string(),
        early_start: es.map(String::from),
        early_finish: ef.map(String::from),
        scheduled_start: ss.map(String::from),
        scheduled_finish: sf.map(String::from),
    }
}

#[test]
fn resource_request_defaults() {
    assert_eq!(default_resource_type(), "labour");
    assert_eq!(default_work_type(), "fixed_units");
    assert_eq!(default_period_granularity(), "daily");
    assert!(default_true());
}

#[test]
fn daily_and_weekly_periods_tile_the_window() {
    let s = at(2026, 1, 5, 8);
    let e = s + 2 * DAY + DAY / 2;
    assert_eq!(build_periods(s, e, "daily"), vec![(s, s + DAY), (s + DAY, s + 2 * DAY), (s + 2 * DAY, e)]);
    assert_eq!(build_periods(s, e, "hourly"), build_periods(s, e, "daily"));
    assert_eq!(build_periods(s, s + 10 * DAY, "weekly"), vec![(s, s + 7 * DAY), (s + 7 * DAY, s + 10 * DAY)]);
    assert!(build_periods(s, s, "daily").is_empty());
    assert!(build_periods(e, s, "weekly").is_empty());
}

#[test]
fn monthly_periods_follow_calendar_months() {
    let s = at(2026, 11, 15, 8);
    let e = at(2027, 2, 1, 0);
    assert_eq!(
        build_periods(s, e, "monthly"),
        vec![(s, at(2026, 12, 15, 8)), (at(2026, 12, 15, 8), at(2027, 1, 15, 8)), (at(2027, 1, 15, 8), e)]
    );
    // there is no 31 February: chrono gives no month, so thirty days follow
    let j = at(2026, 1, 31, 8);
    let p = build_periods(j, at(2026, 3, 15, 0), "monthly");
    assert_eq!(p[0], (j, j + 30 * DAY));
    let expected = Utc.with_ymd_and_hms(2026, 1, 31, 8, 0, 0).unwrap() + Duration::days(30);
    assert_eq!(p[0].1, expected.timestamp() as i128 * 1_000_000_000);
}

#[test]
fn report_window_prefers_given_bounds() {
    let acts = vec![
        dates("A", Some("2026-01-06T08:00:00"), Some("2026-01-09T17:00:00"), None, None),
        dates("B", Some("2026-01-05T08:00:00"), Some("2026-01-20T17:00:00"), None, None),
        dates("C", Some("garbage"), None, None, None),
    ];
    let now = at(2030, 1, 1, 0);
    assert_eq!(report_window_at(&acts, &None, &None, now), Ok((at(2026, 1, 5, 8), at(2026, 1, 20, 17))));
    assert_eq!(
        report_window_at(&acts, &Some("2026-02-01".into()), &Some("2026-02-10".into()), now),
        Ok((at(2026, 2, 1, 8), at(2026, 2, 10, 8)))
    );
    assert_eq!(report_window_at(&vec![], &None, &None, now), Ok((now, now + 30 * DAY)));
    assert_eq!(
        report_window_at(&acts, &Some("bad".into()), &Some("worse".into()), now),
        Err(KernelError::DateParse("bad".into()))
    );
    assert_eq!(
        report_window_at(&acts, &None, &Some("worse".into()), now),
        Err(KernelError::DateParse("worse".into()))
    );
}

#[test]
fn report_window_without_dates_starts_now() {
    let before = Utc::now().timestamp() as i128 * 1_000_000_000;
    let (s, e) = report_window(&vec![], &None, &None).unwrap();
    let after = (Utc::now().timestamp() as i128 + 1) * 1_000_000_000;
    assert!(before <= s && s <= after);
    assert_eq!(e, s + 30 * DAY);
}

#[test]
fn activity_windows_prefer_scheduled_dates_and_last_readable_duplicate() {
    let acts = vec![
        dates("A", Some("2026-01-05"), Some("2026-01-09"), None, None),
        dates("B", None, Some("2026-01-12"), None, None),
        dates("C", Some("2026-01-05"), Some("2026-01-09"), Some("2026-02-02"), Some("2026-02-03")),
        dates("A", Some("2026-03-05"), Some("2026-03-09"), None, None),
        dates("A", Some("2026-04-05"), None, None, None),
    ];
    let w = activity_windows(&acts);
    assert_eq!(w[0], Some((at(2026, 1, 5, 8), at(2026, 1, 9, 8))));
    // B has no start of its own: the first activity's early start is used
    assert_eq!(w[1], Some((at(2026, 1, 5, 8), at(2026, 1, 12, 8))));
    assert_eq!(w[2], Some((at(2026, 2, 2, 8), at(2026, 2, 3, 8))));
    assert_eq!(w[4], None);
    assert_eq!(find_window(&acts, &w, "A"), Some((at(2026, 3, 5, 8), at(2026, 3, 9, 8))));
    assert_eq!(find_window(&acts, &w, "Z"), None);
}
