//! Strongly-typed rows. ISO-8601 UTC timestamps are kept as `String` on
//! purpose: the store keeps them as text and other writers emit them the
//! same way, so rows round-trip without parse/format divergence.
use vstd::prelude::*;

verus! {

/// One collected event (a shell command, a commit, a calendar entry, ...).
#[derive(Debug, Clone, PartialEq, Eq)]
pub struct Event {
    pub id: Option<i64>,
    pub source: String,
    pub source_id: String,
    pub started_at: String,
    pub ended_at: Option<String>,
    pub duration_seconds: Option<i64>,
    pub title: String,
    pub details: Option<String>,
    pub repo: Option<String>,
    pub project_path: Option<String>,
    pub jira_issue: Option<String>,
    pub session_id: Option<String>,
    pub tempo_worklog_id: Option<String>,
    pub raw_json: Option<String>,
}

impl Event {
    /// An event with its four identifying fields set and everything else
    /// empty.
    pub fn minimal(source: &str, source_id: &str, started_at: &str, title: &str) -> (e: Event)
        ensures
            e.id is None,
            e.source@ == source@,
            e.source_id@ == source_id@,
            e.started_at@ == started_at@,
            e.ended_at is None,
            e.duration_seconds is None,
            e.title@ == title@,
            e.details is None,
            e.repo is None,
            e.project_path is None,
            e.jira_issue is None,
            e.session_id is None,
            e.tempo_worklog_id is None,
            e.raw_json is None,
    {
        Event {
            id: None,
            source: source.to_owned(),
            source_id: source_id.to_owned(),
            started_at: started_at.to_owned(),
            ended_at: None,
            duration_seconds: None,
            title: title.to_owned(),
            details: None,
            repo: None,
            project_path: None,
            jira_issue: None,
            session_id: None,
            tempo_worklog_id: None,
            raw_json: None,
        }
    }
}

/// A stretch of work on one day, as stored and reviewed.
#[derive(Debug, Clone, PartialEq, Eq)]
pub struct Block {
    pub id: i64,
    pub day: String,
    pub jira_issue: Option<String>,
    pub started_at: String,
    pub ended_at: String,
    pub duration_seconds: i64,
    pub description: Option<String>,
    pub estimated_by: Option<String>,
    pub flagged: bool,
    pub tempo_worklog_id: Option<String>,
    /// Classified from the dominant `project_path` of the block's events.
    /// Personal blocks are dimmed in review, skipped by the estimator and
    /// kept out of the Tempo sync.
    pub is_personal: bool,
    /// Edited since `tempo_worklog_id` was recorded: the next sync updates
    /// the worklog instead of posting a duplicate, then clears the flag.
    pub dirty: bool,
    /// Set when the block's day is marked exported for billing; accepted
    /// by the pruner as "billed" for blocks that never got a Tempo id.
    pub exported_at: Option<String>,
}

/// A cached Jira issue.
#[derive(Debug, Clone, PartialEq, Eq)]
pub struct JiraTicket {
    pub key: String,
    pub summary: String,
    pub status: Option<String>,
    pub project_key: Option<String>,
    pub updated: Option<String>,
    /// Numeric issue id, which the Tempo worklog endpoint requires.
    pub issue_id: Option<String>,
}

/// A Jira project for the create-ticket picker: `id` is the numeric
/// project id, `key` the human prefix (e.g. `PROJ`).
#[derive(Debug, Clone, PartialEq, Eq)]
pub struct JiraProject {
    pub key: String,
    pub name: String,
    pub id: Option<String>,
}

/// A Tempo account: the billing bucket that maps logged time to a
/// customer.
#[derive(Debug, Clone, PartialEq, Eq)]
pub struct TempoAccount {
    /// Numeric account id, written to the issue's account field.
    pub id: i64,
    pub key: String,
    pub name: String,
    /// Customer name, when the account is linked to one.
    pub customer: Option<String>,
}

} // verus!
