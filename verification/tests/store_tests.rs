use qdb::simulation::{default_distribution, default_iterations, distribution_kind, DistributionKind};
use qdb::schema::{
    activities_schema, evm_series_schema, resource_loads_schema, schedule_snapshots_schema, simulations_schema,
    ColumnDef, ColumnType,
};
use qdb::session::{ProjectSession, SessionRegistry};
use qdb::snapshots::{is_snapshot_of, latest_snapshot, snapshot_file_name};

#[test]
fn saved_names_replace_colons_and_are_found_again() {
    let name = snapshot_file_name("P1", "2026-01-06T08:00:00+00:00");
    assert_eq!(name, "P1_2026-01-06T08-00-00+00-00.json");
    assert!(is_snapshot_of(&name, "P1"));
    assert!(!is_snapshot_of(&name, "P2"));
    assert!(!is_snapshot_of("P1_x.txt", "P1"));
    assert!(!is_snapshot_of("P1.json", "P1"));
    assert_eq!(snapshot_file_name("é", "a:b"), "é_a-b.json");
    // What follows `{id}_` must be a time stamp.
    assert!(!is_snapshot_of("P1_x.json", "P1"));
    assert!(!is_snapshot_of("P1_.json", "P1"));
    assert!(is_snapshot_of("P1_2026-01-06T08-00-00.123+00-00.json", "P1"));
    // Another project whose id starts with `P1_` is not taken for `P1`.
    assert!(!is_snapshot_of(&snapshot_file_name("P1_x", "2026-01-06T08:00:00+00:00"), "P1"));
    assert!(!is_snapshot_of(&snapshot_file_name("P1_2", "2026-01-06T08:00:00+00:00"), "P1"));
    assert!(!is_snapshot_of(&snapshot_file_name("P1", "2026-01-06T08:00:00+00:00"), "P1_2"));
}

#[test]
fn latest_ignores_other_projects_with_a_longer_id() {
    let names: Vec<String> = [
        "p1_2026-01-06T08-00-00+00-00.json",
        "p1_x_2026-09-06T08-00-00+00-00.json",
        "p1_x.json",
        "p1_2026-02-01T08-00-00+00-00.json",
    ]
    .iter()
    .map(|s| s.to_string())
    .collect();
    assert_eq!(latest_snapshot(&names, "p1"), Some(3));
    assert_eq!(latest_snapshot(&names, "p1_x"), Some(1));
}

#[test]
fn latest_is_the_greatest_matching_name() {
    let names: Vec<String> = [
        "P1_2026-01-06T08-00-00.json",
        "P2_2026-09-06T08-00-00.json",
        "P1_2026-03-01T08-00-00.json",
        "P1_2026-02-01T08-00-00.json",
        "P1_zzz.txt",
    ]
    .iter()
    .map(|s| s.to_string())
    .collect();
    assert_eq!(latest_snapshot(&names, "P1"), Some(2));
    assert_eq!(latest_snapshot(&names, "P2"), Some(1));
    assert_eq!(latest_snapshot(&names, "P3"), None);
    assert_eq!(latest_snapshot(&Vec::new(), "P1"), None);
}

fn tail(cols: &[ColumnDef]) -> Vec<(String, ColumnType, bool)> {
    cols[cols.len() - 4..].iter().map(|c| (c.name.clone(), c.data_type, c.nullable)).collect()
}

#[test]
fn every_table_ends_with_the_bitemporal_columns() {
    let expected = vec![
        ("valid_from".to_string(), ColumnType::Utf8, false),
        ("valid_to".to_string(), ColumnType::Utf8, true),
        ("txn_from".to_string(), ColumnType::Utf8, false),
        ("txn_to".to_string(), ColumnType::Utf8, true),
    ];
    for cols in [schedule_snapshots_schema(), activities_schema(), evm_series_schema(), simulations_schema(), resource_loads_schema()] {
        assert_eq!(tail(&cols), expected);
    }
    assert_eq!(schedule_snapshots_schema().len(), 15);
    assert_eq!(activities_schema().len(), 21);
    assert_eq!(evm_series_schema().len(), 23);
    assert_eq!(simulations_schema().len(), 17);
    assert_eq!(resource_loads_schema().len(), 15);
    let a = activities_schema();
    assert_eq!(a[13].name, "total_float_hours");
    assert_eq!(a[13].data_type, ColumnType::Float64);
    assert!(a[13].nullable);
}

#[test]
fn sessions_are_created_once_and_removed() {
    let mut reg: SessionRegistry<u32> = SessionRegistry::new();
    assert!(reg.get("P1").is_none());
    reg.get_or_create("P1").activities.push(7);
    assert_eq!(reg.get("P1").unwrap().activities, vec![7]);
    assert_eq!(reg.get("P1").unwrap().project_id, "P1");
    // a second call returns the same session, not a fresh one
    assert_eq!(reg.get_or_create("P1").activities, vec![7]);
    reg.get_or_create("P2");
    reg.get_mut("P2").unwrap().evm = Some(3);
    assert_eq!(reg.get("P2").unwrap().evm, Some(3));
    assert!(reg.get_mut("P3").is_none());
    reg.remove("P1");
    assert!(reg.get("P1").is_none());
    assert_eq!(reg.get("P2").unwrap().evm, Some(3));
    reg.remove("P9");
    let fresh: ProjectSession<u32> = ProjectSession::new("X");
    assert!(fresh.schedule_snapshot.is_none() && fresh.activities.is_empty() && fresh.resource_loads.is_empty());
    let d: SessionRegistry<u32> = Default::default();
    assert!(d.get("X").is_none());
}

#[test]
fn simulation_defaults_and_distribution_names() {
    assert_eq!(default_distribution(), "pert");
    assert_eq!(default_iterations(), 10_000);
    assert_eq!(distribution_kind("fixed"), DistributionKind::Fixed);
    assert_eq!(distribution_kind("uniform"), DistributionKind::Uniform);
    assert_eq!(distribution_kind("triangular"), DistributionKind::Triangular);
    assert_eq!(distribution_kind("pert"), DistributionKind::Pert);
    assert_eq!(distribution_kind("lognormal"), DistributionKind::Pert);
}
