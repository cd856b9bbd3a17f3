use chrono::{TimeZone, Utc};
use qdb::error::KernelError;
use qdb::schedule::{
    analyse_float, constraint_early_start, constraint_late_finish, default_constraint, default_dep_type,
    default_status, dependency_kind, early_start, late_finish, project_finish, ActivityTiming,
    DependencyKind,
};

const HOUR: i128 = 3_600_000_000_000;

fn at(y: i32, mo: u32, d: u32, h: u32) -> i128 {
    Utc.with_ymd_and_hms(y, mo, d, h, 0, 0).unwrap().timestamp() as i128 * 1_000_000_000
}

#[test]
fn schedule_request_defaults() {
    assert_eq!(default_status(), "not_started");
    assert_eq!(default_constraint(), "ASAP");
    assert_eq!(default_dep_type(), "FS");
}

#[test]
fn dependency_types_are_read_with_finish_to_start_as_default() {
    assert_eq!(dependency_kind("SS"), DependencyKind::StartToStart);
    assert_eq!(dependency_kind("FF"), DependencyKind::FinishToFinish);
    assert_eq!(dependency_kind("SF"), DependencyKind::StartToFinish);
    assert_eq!(dependency_kind("FS"), DependencyKind::FinishToStart);
    assert_eq!(dependency_kind("ss"), DependencyKind::FinishToStart);
}

#[test]
fn start_constraints_pin_the_early_start() {
    let start = at(2026, 1, 6, 8);
    let date = Some("2026-02-02T09:00:00".to_string());
    assert_eq!(constraint_early_start("MSO", &date, start), Ok(at(2026, 2, 2, 9)));
    assert_eq!(constraint_early_start("SNET", &date, start), Ok(at(2026, 2, 2, 9)));
    assert_eq!(constraint_early_start("ASAP", &date, start), Ok(start));
    assert_eq!(constraint_early_start("MSO", &None, start), Ok(start));
    assert_eq!(
        constraint_early_start("SNET", &Some("soon".to_string()), start),
        Err(KernelError::DateParse("soon".to_string()))
    );
}

#[test]
fn early_start_is_the_latest_driver_unless_started() {
    let base = at(2026, 1, 6, 8);
    let driven = vec![base + 5 * HOUR, base - HOUR, base + 2 * HOUR];
    assert_eq!(early_start(base, &driven, "not_started", &None), base + 5 * HOUR);
    assert_eq!(early_start(base, &vec![], "not_started", &None), base);
    let actual = Some("2026-01-05T10:00:00Z".to_string());
    assert_eq!(early_start(base, &driven, "in_progress", &actual), at(2026, 1, 5, 10));
    assert_eq!(early_start(base, &driven, "completed", &actual), at(2026, 1, 5, 10));
    assert_eq!(early_start(base, &driven, "not_started", &actual), base + 5 * HOUR);
    assert_eq!(early_start(base, &driven, "in_progress", &Some("bad".to_string())), base + 5 * HOUR);
}

#[test]
fn finish_constraints_shape_the_late_finish() {
    let finish = at(2026, 3, 1, 17);
    let earlier = Some("2026-02-20T17:00:00".to_string());
    let later = Some("2026-03-10T17:00:00".to_string());
    assert_eq!(constraint_late_finish("MFO", &earlier, finish), at(2026, 2, 20, 17));
    assert_eq!(constraint_late_finish("FNLT", &later, finish), at(2026, 3, 10, 17));
    assert_eq!(constraint_late_finish("FNET", &earlier, finish), finish);
    assert_eq!(constraint_late_finish("FNET", &later, finish), at(2026, 3, 10, 17));
    assert_eq!(constraint_late_finish("MFO", &Some("bad".to_string()), finish), finish);
    assert_eq!(constraint_late_finish("ASAP", &earlier, finish), finish);
    assert_eq!(late_finish(finish, &vec![finish - HOUR, finish + HOUR]), finish - HOUR);
    assert_eq!(late_finish(finish, &vec![]), finish);
}

#[test]
fn project_finish_is_the_constraint_or_the_latest_finish() {
    let start = at(2026, 1, 6, 8);
    let finishes = vec![start + 10 * HOUR, start + 30 * HOUR];
    assert_eq!(project_finish(start, &finishes, &None), Ok(start + 30 * HOUR));
    assert_eq!(project_finish(start, &vec![], &None), Ok(start));
    // The constraint is the hard finish, even before the latest early finish.
    assert_eq!(project_finish(start, &finishes, &Some("2026-01-06T12:00:00".to_string())), Ok(at(2026, 1, 6, 12)));
    assert_eq!(project_finish(start, &finishes, &Some("2026-01-01".to_string())), Ok(at(2026, 1, 1, 8)));
    assert_eq!(project_finish(start, &finishes, &Some("2026-06-01".to_string())), Ok(at(2026, 6, 1, 8)));
    assert_eq!(project_finish(start, &finishes, &Some("x".to_string())), Err(KernelError::DateParse("x".to_string())));
}

fn timing(id: &str, es: i128, ef: i128, lf: i128, deadline: Option<&str>) -> ActivityTiming {
    ActivityTiming {
        id: id.to_string(),
        early_start: Some(es),
        early_finish: Some(ef),
        late_finish: Some(lf),
        deadline: deadline.map(|d| d.to_string()),
        early_finish_text: Some(format!("text-{id}")),
    }
}

#[test]
fn float_criticality_and_critical_path() {
    let s = at(2026, 1, 6, 8);
    let acts = vec![
        timing("B", s + 9 * HOUR, s + 18 * HOUR, s + 18 * HOUR, None),
        timing("A", s, s + 9 * HOUR, s + 9 * HOUR, None),
        timing("C", s, s + 2 * HOUR, s + 9 * HOUR, None),
        timing("D", s, s + 20 * HOUR, s + 18 * HOUR, Some("2026-01-06T12:00:00")),
        timing("E", s + 9 * HOUR, s + 9 * HOUR + 30_000_000_000, s + 9 * HOUR, None),
        ActivityTiming { id: "F".into(), early_start: None, early_finish: None, late_finish: Some(s), deadline: None, early_finish_text: None },
    ];
    let r = analyse_float(&acts);
    assert_eq!(r.outcomes[0].total_float_minutes, Some(0));
    assert_eq!(r.outcomes[2].total_float_minutes, Some(420));
    assert!(!r.outcomes[2].is_critical);
    assert_eq!(r.outcomes[3].total_float_minutes, Some(-120));
    // half a minute of negative float rounds towards zero
    assert_eq!(r.outcomes[4].total_float_minutes, Some(0));
    assert_eq!(r.outcomes[5].total_float_minutes, None);
    assert!(!r.outcomes[5].is_critical);
    assert_eq!(r.negative_float_count, 1);
    assert_eq!(r.critical_path, vec!["A", "D", "B", "E"]);
    assert_eq!(r.critical_order, vec![1, 3, 0, 4]);
    let w = r.outcomes[3].deadline_warning.as_ref().unwrap();
    assert_eq!(w.code, "DEADLINE_MISSED");
    assert_eq!(w.message, "activity 'D' early finish text-D exceeds deadline 2026-01-06T12:00:00");
    assert_eq!(w.activity_id.as_deref(), Some("D"));
    assert!(r.outcomes[0].deadline_warning.is_none());
}

#[test]
fn unreadable_or_met_deadlines_raise_nothing() {
    let s = at(2026, 1, 6, 8);
    let acts = vec![
        timing("A", s, s + HOUR, s + HOUR, Some("garbage")),
        timing("B", s, s + HOUR, s + HOUR, Some("2026-02-01")),
    ];
    let r = analyse_float(&acts);
    assert!(r.outcomes[0].deadline_warning.is_none());
    assert!(r.outcomes[1].deadline_warning.is_none());
}
