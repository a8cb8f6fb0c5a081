//! The database's one-line health summary.
use vstd::prelude::*;

verus! {

/// A one-line health summary of a database: its schema version and how
/// many rows its main tables hold.
#[derive(Debug, Clone, Copy, PartialEq, Eq)]
pub struct DbSummary {
    pub schema_version: i32,
    pub events: i64,
    pub blocks: i64,
    pub sessions: i64,
    pub jira_tickets: i64,
}

} // verus!
