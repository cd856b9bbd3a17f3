use chrono::{DateTime, NaiveDate, TimeZone, Utc};
use qdb::datetime::{at_time_on_day, date_of, parse_datetime};
use qdb::error::KernelError;

fn ns(dt: DateTime<Utc>) -> i128 {
    dt.timestamp() as i128 * 1_000_000_000 + dt.timestamp_subsec_nanos() as i128
}

#[test]
fn reads_rfc3339_with_offset() {
    let expected = ns(DateTime::parse_from_rfc3339("2026-01-06T10:30:00+02:00").unwrap().with_timezone(&Utc));
    assert_eq!(parse_datetime("2026-01-06T10:30:00+02:00"), Ok(expected));
    assert_eq!(parse_datetime("2026-01-06T08:30:00Z"), Ok(expected));
    assert_eq!(parse_datetime("2026-01-06T08:30:00.25Z"), Ok(expected + 250_000_000));
}

#[test]
fn reads_naive_datetimes_as_utc() {
    let expected = ns(Utc.with_ymd_and_hms(2026, 1, 6, 9, 15, 0).unwrap());
    assert_eq!(parse_datetime("2026-01-06T09:15:00"), Ok(expected));
    assert_eq!(parse_datetime("2026-01-06 09:15:00"), Ok(expected));
}

#[test]
fn reads_bare_dates_as_eight_in_the_morning() {
    let expected = ns(Utc.with_ymd_and_hms(2026, 1, 6, 8, 0, 0).unwrap());
    assert_eq!(parse_datetime("2026-01-06"), Ok(expected));
}

#[test]
fn unreadable_text_is_a_date_parse_error() {
    assert_eq!(parse_datetime("next tuesday"), Err(KernelError::DateParse("next tuesday".to_string())));
    assert_eq!(parse_datetime(""), Err(KernelError::DateParse(String::new())));
}

#[test]
fn day_arithmetic_matches_chrono() {
    let d = NaiveDate::from_ymd_opt(2026, 3, 1).unwrap();
    let n = chrono::Datelike::num_days_from_ce(&d) as i64;
    assert_eq!(at_time_on_day(n, 13, 45), ns(Utc.with_ymd_and_hms(2026, 3, 1, 13, 45, 0).unwrap()));
    assert_eq!(date_of(ns(Utc.with_ymd_and_hms(2026, 3, 1, 23, 59, 59).unwrap())), n);
    let before_epoch = ns(Utc.with_ymd_and_hms(1969, 12, 31, 12, 0, 0).unwrap());
    assert_eq!(date_of(before_epoch), 719_162);
    assert_eq!(date_of(0), 719_163);
}
