//! Project-management computation kernel: working-time calendars, critical-path
//! network ordering, earned-value period selection, resource report windows and
//! the per-project session registry.

pub mod error;
pub mod text;
pub mod datetime;
pub mod calendar;
pub mod network;
pub mod schedule;
pub mod evm;
pub mod resources;
pub mod snapshots;
pub mod schema;
pub mod session;
pub mod simulation;
