//! Column layout of the stored tables.
//!
//! Every table ends with the bitemporal columns `valid_from`, `valid_to`,
//! `txn_from`, `txn_to` (text); `valid_to` and `txn_to` may be null, and a null
//! `txn_to` marks the current record.

use vstd::prelude::*;

use crate::text::owned;

verus! {

/// The value type of a column.
#[derive(Debug, Clone, Copy, PartialEq, Eq)]
pub enum ColumnType {
    Utf8,
    Float64,
    Boolean,
    Int64,
}

/// One column of a table.
#[derive(Debug, Clone)]
pub struct ColumnDef {
    pub name: String,
    pub data_type: ColumnType,
    pub nullable: bool,
}

/// `cols` has exactly the columns `expected`, in order.
pub open spec fn has_columns(cols: Seq<ColumnDef>, expected: Seq<(Seq<char>, ColumnType, bool)>) -> bool {
    &&& cols.len() == expected.len()
    &&& forall|i: int|
        0 <= i < cols.len() ==> {
            &&& (#[trigger] cols[i]).name@ == expected[i].0
            &&& cols[i].data_type == expected[i].1
            &&& cols[i].nullable == expected[i].2
        }
}

/// The table ends with the four bitemporal text columns; only `valid_to` and `txn_to` may be null.
pub open spec fn is_bitemporal(cols: Seq<ColumnDef>) -> bool {
    let n = cols.len();
    &&& n >= 4
    &&& cols[n - 4].name@ == "valid_from"@ && cols[n - 4].data_type == ColumnType::Utf8 && !cols[n - 4].nullable
    &&& cols[n - 3].name@ == "valid_to"@ && cols[n - 3].data_type == ColumnType::Utf8 && cols[n - 3].nullable
    &&& cols[n - 2].name@ == "txn_from"@ && cols[n - 2].data_type == ColumnType::Utf8 && !cols[n - 2].nullable
    &&& cols[n - 1].name@ == "txn_to"@ && cols[n - 1].data_type == ColumnType::Utf8 && cols[n - 1].nullable
}

fn column(name: &str, data_type: ColumnType, nullable: bool) -> (c: ColumnDef)
    ensures
        c.name@ == name@,
        c.data_type == data_type,
        c.nullable == nullable,
{
    ColumnDef { name: owned(name), data_type, nullable }
}

fn push_bitemporal(cols: &mut Vec<ColumnDef>)
    ensures
        final(cols)@.len() == old(cols)@.len() + 4,
        forall|i: int| 0 <= i < old(cols)@.len() ==> final(cols)@[i] == old(cols)@[i],
        is_bitemporal(final(cols)@),
{
    cols.push(column("valid_from", ColumnType::Utf8, false));
    cols.push(column("valid_to", ColumnType::Utf8, true));
    cols.push(column("txn_from", ColumnType::Utf8, false));
    cols.push(column("txn_to", ColumnType::Utf8, true));
}

/// Columns of `schedule_snapshots`.
pub open spec fn schedule_snapshots_columns() -> Seq<(Seq<char>, ColumnType, bool)> {
    seq![
        ("snapshot_id"@, ColumnType::Utf8, false),
        ("project_id"@, ColumnType::Utf8, false),
        ("project_start"@, ColumnType::Utf8, false),
        ("project_finish"@, ColumnType::Utf8, false),
        ("data_date"@, ColumnType::Utf8, false),
        ("total_duration_hours"@, ColumnType::Float64, false),
        ("success"@, ColumnType::Boolean, false),
        ("negative_float_count"@, ColumnType::Int64, false),
        ("critical_path_json"@, ColumnType::Utf8, false),
        ("warnings_json"@, ColumnType::Utf8, false),
        ("computed_at"@, ColumnType::Utf8, false),
        ("valid_from"@, ColumnType::Utf8, false),
        ("valid_to"@, ColumnType::Utf8, true),
        ("txn_from"@, ColumnType::Utf8, false),
        ("txn_to"@, ColumnType::Utf8, true)
    ]
}

/// Layout of the `schedule_snapshots` table. One row per stored schedule result.
pub fn schedule_snapshots_schema() -> (r: Vec<ColumnDef>)
    ensures
        has_columns(r@, schedule_snapshots_columns()),
        is_bitemporal(r@),
{
    let mut cols: Vec<ColumnDef> = Vec::new();
    cols.push(column("snapshot_id", ColumnType::Utf8, false));
    cols.push(column("project_id", ColumnType::Utf8, false));
    cols.push(column("project_start", ColumnType::Utf8, false));
    cols.push(column("project_finish", ColumnType::Utf8, false));
    cols.push(column("data_date", ColumnType::Utf8, false));
    cols.push(column("total_duration_hours", ColumnType::Float64, false));
    cols.push(column("success", ColumnType::Boolean, false));
    cols.push(column("negative_float_count", ColumnType::Int64, false));
    cols.push(column("critical_path_json", ColumnType::Utf8, false));
    cols.push(column("warnings_json", ColumnType::Utf8, false));
    cols.push(column("computed_at", ColumnType::Utf8, false));
    push_bitemporal(&mut cols);
    assert(has_columns(cols@, schedule_snapshots_columns()));
    cols
}

/// Columns of `activities`.
pub open spec fn activities_columns() -> Seq<(Seq<char>, ColumnType, bool)> {
    seq![
        ("activity_id"@, ColumnType::Utf8, false),
        ("snapshot_id"@, ColumnType::Utf8, false),
        ("project_id"@, ColumnType::Utf8, false),
        ("name"@, ColumnType::Utf8, false),
        ("duration_hours"@, ColumnType::Float64, false),
        ("status"@, ColumnType::Utf8, false),
        ("percent_complete"@, ColumnType::Float64, false),
        ("is_critical"@, ColumnType::Boolean, false),
        ("is_milestone"@, ColumnType::Boolean, false),
        ("early_start"@, ColumnType::Utf8, true),
        ("early_finish"@, ColumnType::Utf8, true),
        ("late_start"@, ColumnType::Utf8, true),
        ("late_finish"@, ColumnType::Utf8, true),
        ("total_float_hours"@, ColumnType::Float64, true),
        ("free_float_hours"@, ColumnType::Float64, true),
        ("wbs_code"@, ColumnType::Utf8, true),
        ("constraint_type"@, ColumnType::Utf8, false),
        ("valid_from"@, ColumnType::Utf8, false),
        ("valid_to"@, ColumnType::Utf8, true),
        ("txn_from"@, ColumnType::Utf8, false),
        ("txn_to"@, ColumnType::Utf8, true)
    ]
}

/// Layout of the `activities` table. One row per activity of a stored schedule.
pub fn activities_schema() -> (r: Vec<ColumnDef>)
    ensures
        has_columns(r@, activities_columns()),
        is_bitemporal(r@),
{
    let mut cols: Vec<ColumnDef> = Vec::new();
    cols.push(column("activity_id", ColumnType::Utf8, false));
    cols.push(column("snapshot_id", ColumnType::Utf8, false));
    cols.push(column("project_id", ColumnType::Utf8, false));
    cols.push(column("name", ColumnType::Utf8, false));
    cols.push(column("duration_hours", ColumnType::Float64, false));
    cols.push(column("status", ColumnType::Utf8, false));
    cols.push(column("percent_complete", ColumnType::Float64, false));
    cols.push(column("is_critical", ColumnType::Boolean, false));
    cols.push(column("is_milestone", ColumnType::Boolean, false));
    cols.push(column("early_start", ColumnType::Utf8, true));
    cols.push(column("early_finish", ColumnType::Utf8, true));
    cols.push(column("late_start", ColumnType::Utf8, true));
    cols.push(column("late_finish", ColumnType::Utf8, true));
    cols.push(column("total_float_hours", ColumnType::Float64, true));
    cols.push(column("free_float_hours", ColumnType::Float64, true));
    cols.push(column("wbs_code", ColumnType::Utf8, true));
    cols.push(column("constraint_type", ColumnType::Utf8, false));
    push_bitemporal(&mut cols);
    assert(has_columns(cols@, activities_columns()));
    cols
}

/// Columns of `evm_series`.
pub open spec fn evm_series_columns() -> Seq<(Seq<char>, ColumnType, bool)> {
    seq![
        ("evm_id"@, ColumnType::Utf8, false),
        ("project_id"@, ColumnType::Utf8, false),
        ("data_date"@, ColumnType::Utf8, false),
        ("bac"@, ColumnType::Float64, false),
        ("pv"@, ColumnType::Float64, false),
        ("ev"@, ColumnType::Float64, false),
        ("ac"@, ColumnType::Float64, false),
        ("cv"@, ColumnType::Float64, false),
        ("sv"@, ColumnType::Float64, false),
        ("cpi"@, ColumnType::Float64, false),
        ("spi"@, ColumnType::Float64, false),
        ("eac"@, ColumnType::Float64, false),
        ("etc"@, ColumnType::Float64, false),
        ("vac"@, ColumnType::Float64, false),
        ("tcpi"@, ColumnType::Float64, false),
        ("percent_complete"@, ColumnType::Float64, false),
        ("percent_spent"@, ColumnType::Float64, false),
        ("eac_method"@, ColumnType::Utf8, false),
        ("computed_at"@, ColumnType::Utf8, false),
        ("valid_from"@, ColumnType::Utf8, false),
        ("valid_to"@, ColumnType::Utf8, true),
        ("txn_from"@, ColumnType::Utf8, false),
        ("txn_to"@, ColumnType::Utf8, true)
    ]
}

/// Layout of the `evm_series` table. One row per stored earned-value result.
pub fn evm_series_schema() -> (r: Vec<ColumnDef>)
    ensures
        has_columns(r@, evm_series_columns()),
        is_bitemporal(r@),
{
    let mut cols: Vec<ColumnDef> = Vec::new();
    cols.push(column("evm_id", ColumnType::Utf8, false));
    cols.push(column("project_id", ColumnType::Utf8, false));
    cols.push(column("data_date", ColumnType::Utf8, false));
    cols.push(column("bac", ColumnType::Float64, false));
    cols.push(column("pv", ColumnType::Float64, false));
    cols.push(column("ev", ColumnType::Float64, false));
    cols.push(column("ac", ColumnType::Float64, false));
    cols.push(column("cv", ColumnType::Float64, false));
    cols.push(column("sv", ColumnType::Float64, false));
    cols.push(column("cpi", ColumnType::Float64, false));
    cols.push(column("spi", ColumnType::Float64, false));
    cols.push(column("eac", ColumnType::Float64, false));
    cols.push(column("etc", ColumnType::Float64, false));
    cols.push(column("vac", ColumnType::Float64, false));
    cols.push(column("tcpi", ColumnType::Float64, false));
    cols.push(column("percent_complete", ColumnType::Float64, false));
    cols.push(column("percent_spent", ColumnType::Float64, false));
    cols.push(column("eac_method", ColumnType::Utf8, false));
    cols.push(column("computed_at", ColumnType::Utf8, false));
    push_bitemporal(&mut cols);
    assert(has_columns(cols@, evm_series_columns()));
    cols
}

/// Columns of `simulations`.
pub open spec fn simulations_columns() -> Seq<(Seq<char>, ColumnType, bool)> {
    seq![
        ("simulation_id"@, ColumnType::Utf8, false),
        ("project_id"@, ColumnType::Utf8, false),
        ("iterations"@, ColumnType::Int64, false),
        ("mean_cost"@, ColumnType::Float64, false),
        ("std_dev_cost"@, ColumnType::Float64, false),
        ("p50_cost"@, ColumnType::Float64, false),
        ("p80_cost"@, ColumnType::Float64, false),
        ("p90_cost"@, ColumnType::Float64, false),
        ("mean_duration_hours"@, ColumnType::Float64, false),
        ("p50_duration_hours"@, ColumnType::Float64, false),
        ("p80_duration_hours"@, ColumnType::Float64, false),
        ("tornado_json"@, ColumnType::Utf8, false),
        ("computed_at"@, ColumnType::Utf8, false),
        ("valid_from"@, ColumnType::Utf8, false),
        ("valid_to"@, ColumnType::Utf8, true),
        ("txn_from"@, ColumnType::Utf8, false),
        ("txn_to"@, ColumnType::Utf8, true)
    ]
}

/// Layout of the `simulations` table. One row per stored simulation result.
pub fn simulations_schema() -> (r: Vec<ColumnDef>)
    ensures
        has_columns(r@, simulations_columns()),
        is_bitemporal(r@),
{
    let mut cols: Vec<ColumnDef> = Vec::new();
    cols.push(column("simulation_id", ColumnType::Utf8, false));
    cols.push(column("project_id", ColumnType::Utf8, false));
    cols.push(column("iterations", ColumnType::Int64, false));
    cols.push(column("mean_cost", ColumnType::Float64, false));
    cols.push(column("std_dev_cost", ColumnType::Float64, false));
    cols.push(column("p50_cost", ColumnType::Float64, false));
    cols.push(column("p80_cost", ColumnType::Float64, false));
    cols.push(column("p90_cost", ColumnType::Float64, false));
    cols.push(column("mean_duration_hours", ColumnType::Float64, false));
    cols.push(column("p50_duration_hours", ColumnType::Float64, false));
    cols.push(column("p80_duration_hours", ColumnType::Float64, false));
    cols.push(column("tornado_json", ColumnType::Utf8, false));
    cols.push(column("computed_at", ColumnType::Utf8, false));
    push_bitemporal(&mut cols);
    assert(has_columns(cols@, simulations_columns()));
    cols
}

/// Columns of `resource_loads`.
pub open spec fn resource_loads_columns() -> Seq<(Seq<char>, ColumnType, bool)> {
    seq![
        ("load_id"@, ColumnType::Utf8, false),
        ("project_id"@, ColumnType::Utf8, false),
        ("resource_id"@, ColumnType::Utf8, false),
        ("resource_name"@, ColumnType::Utf8, false),
        ("period_start"@, ColumnType::Utf8, false),
        ("period_end"@, ColumnType::Utf8, false),
        ("assigned_hours"@, ColumnType::Float64, false),
        ("available_hours"@, ColumnType::Float64, false),
        ("utilisation"@, ColumnType::Float64, false),
        ("overallocation_hours"@, ColumnType::Float64, false),
        ("computed_at"@, ColumnType::Utf8, false),
        ("valid_from"@, ColumnType::Utf8, false),
        ("valid_to"@, ColumnType::Utf8, true),
        ("txn_from"@, ColumnType::Utf8, false),
        ("txn_to"@, ColumnType::Utf8, true)
    ]
}

/// Layout of the `resource_loads` table. One row per resource and period of a stored load profile.
pub fn resource_loads_schema() -> (r: Vec<ColumnDef>)
    ensures
        has_columns(r@, resource_loads_columns()),
        is_bitemporal(r@),
{
    let mut cols: Vec<ColumnDef> = Vec::new();
    cols.push(column("load_id", ColumnType::Utf8, false));
    cols.push(column("project_id", ColumnType::Utf8, false));
    cols.push(column("resource_id", ColumnType::Utf8, false));
    cols.push(column("resource_name", ColumnType::Utf8, false));
    cols.push(column("period_start", ColumnType::Utf8, false));
    cols.push(column("period_end", ColumnType::Utf8, false));
    cols.push(column("assigned_hours", ColumnType::Float64, false));
    cols.push(column("available_hours", ColumnType::Float64, false));
    cols.push(column("utilisation", ColumnType::Float64, false));
    cols.push(column("overallocation_hours", ColumnType::Float64, false));
    cols.push(column("computed_at", ColumnType::Utf8, false));
    push_bitemporal(&mut cols);
    assert(has_columns(cols@, resource_loads_columns()));
    cols
}

} // verus!
