use chrono::{TimeZone, Utc};
use worklog_core::day_blocks::day_blocks;
use worklog_core::estimate::dominant_project;
use worklog_core::infer::{InferBlock, InferEvent};
use worklog_core::sources::{assistant_turn_source, assistant_work_source};

const A: &str = "/Users/dev/Desktop/Work/vitinn-infra";
const A_WT: &str = "/Users/dev/Desktop/Work/vitinn-infra/.worktrees/sandbox-runner";
const B: &str = "/Users/dev/Desktop/Projects/worklog";
const A_WORK: &str = "/Users/dev/Desktop/Work/vitinn-infra";
const C_WORK: &str = "/Users/dev/Desktop/Work/lyfjastofnun";

fn ev(h: u32, m: u32, source: &str, project: Option<&str>) -> InferEvent {
    InferEvent {
        ts: Utc.with_ymd_and_hms(2026, 9, 23, h, m, 0).unwrap().timestamp_nanos_opt().unwrap() as i128,
        source: source.into(),
        duration_seconds: None,
        jira_issue: None,
        event_id: None,
        project_path: project.map(str::to_string),
    }
}

/// The project folder each event's directory belongs to, as the billing
/// registry would fold it.
fn folder_of(e: &InferEvent) -> Option<String> {
    let p = e.project_path.as_deref()?;
    if p.starts_with(A) {
        Some("vitinn-infra".into())
    } else if p.starts_with(C_WORK) {
        Some("lyfjastofnun".into())
    } else {
        Some(p.rsplit('/').next().unwrap().to_string())
    }
}

fn build(events: Vec<InferEvent>) -> Vec<InferBlock> {
    let folders: Vec<Option<String>> = events.iter().map(folder_of).collect();
    day_blocks(events, &folders)
}

fn dominant(b: &InferBlock) -> Option<String> {
    dominant_project(&b.events.iter().map(|e| e.project_path.clone()).collect())
}

fn total_minutes(blocks: &[InferBlock]) -> i64 {
    blocks.iter().map(|b| b.duration_seconds / 60).sum()
}

fn assert_no_overlap(blocks: &[InferBlock]) {
    for w in blocks.windows(2) {
        assert!(w[0].ended_at <= w[1].started_at, "blocks overlap");
    }
}

#[test]
fn parallel_sessions_never_overlap_or_double_count() {
    let turn = assistant_turn_source();
    let mut events: Vec<InferEvent> = (0..30).map(|i| ev(12, i * 2, &turn, Some(if i % 2 == 0 { A } else { A_WT }))).collect();
    events.extend((0..9).map(|i| ev(12, i * 7, &turn, Some(B))));
    let blocks = build(events);
    assert_no_overlap(&blocks);
    assert!(total_minutes(&blocks) <= 62, "never more than the wall-clock hour, got {}", total_minutes(&blocks));
    let a: i64 = blocks
        .iter()
        .filter(|b| dominant(b).is_some_and(|p| p.starts_with(A)))
        .map(|b| b.duration_seconds / 60)
        .sum();
    assert!(a >= 45, "the busy project owns most of the hour, got {a}");
}

#[test]
fn handover_between_projects_splits_the_time() {
    let turn = assistant_turn_source();
    let mut events: Vec<InferEvent> = (0..15).map(|i| ev(9, i * 2, &turn, Some(A))).collect();
    events.extend((0..15).map(|i| ev(9, 30 + i * 2, &turn, Some(B))));
    let blocks = build(events);
    assert_no_overlap(&blocks);
    assert_eq!(blocks.len(), 2);
    assert_eq!(dominant(&blocks[0]).as_deref(), Some(A));
}

#[test]
fn folderless_event_joins_the_owning_project() {
    let turn = assistant_turn_source();
    let mut events: Vec<InferEvent> = (0..10).map(|i| ev(9, i * 3, &turn, Some(A))).collect();
    events.extend((0..10).map(|i| ev(14, i * 3, &turn, Some(B))));
    events.push(ev(9, 20, "github_pr", None));
    let blocks = build(events);
    assert_eq!(blocks.len(), 2);
    let morning = blocks.iter().find(|b| b.events.iter().any(|e| e.source == "github_pr")).unwrap();
    assert_eq!(dominant(morning).as_deref(), Some(A));
}

#[test]
fn work_outranks_personal_in_the_same_minutes() {
    let mut events: Vec<InferEvent> = (0..10).map(|i| ev(12, i * 6, &assistant_turn_source(), Some(A))).collect();
    events.extend((0..60).map(|i| ev(12, i, &assistant_work_source(), Some(B))));
    let blocks = build(events);
    assert_no_overlap(&blocks);
    let work: i64 = blocks.iter().filter(|b| dominant(b).as_deref() == Some(A)).map(|b| b.duration_seconds / 60).sum();
    assert!(work >= 50, "any work activity claims the minute, got {work}m");
}

#[test]
fn your_typing_outweighs_claude_working_elsewhere() {
    let mut events: Vec<InferEvent> =
        (0..16).map(|i| ev(10 + (i * 8) / 60, (i * 8) % 60, &assistant_turn_source(), Some(A))).collect();
    events.extend((0..120).map(|i| ev(10 + i / 60, i % 60, &assistant_work_source(), Some(C_WORK))));
    let blocks = build(events);
    assert_no_overlap(&blocks);
    let a: i64 = blocks.iter().filter(|b| dominant(b).as_deref() == Some(A)).map(|b| b.duration_seconds / 60).sum();
    assert!(a >= 110, "attention decides, got {a}m of 120");
}

#[test]
fn a_single_project_day_is_unchanged() {
    let events: Vec<InferEvent> = (0..10).map(|i| ev(9, i * 2, "shell", Some(A))).collect();
    assert_eq!(build(events).len(), 1);
}

#[test]
fn owned_minutes_count_even_when_the_owner_has_few_events_there() {
    let mut events = vec![ev(9, 0, "shell", Some(A_WORK)), ev(9, 2, "shell", Some(A_WORK))];
    events.extend((3..13).map(|m| ev(9, m, &assistant_work_source(), Some(C_WORK))));
    let blocks = build(events);
    assert_no_overlap(&blocks);
    assert!(total_minutes(&blocks) >= 12, "got {}", total_minutes(&blocks));
    assert!(blocks.iter().all(|b| dominant(b).as_deref() == Some(A_WORK)));
}

#[test]
fn a_quick_hop_joins_its_neighbour_instead_of_vanishing() {
    let mut events: Vec<InferEvent> = (0..10).map(|i| ev(9, i * 2, "shell", Some(A_WORK))).collect();
    events.push(ev(9, 21, "shell", Some(C_WORK)));
    events.extend((12..20).map(|i| ev(9, i * 2, "shell", Some(A_WORK))));
    let blocks = build(events);
    assert_no_overlap(&blocks);
    assert!(total_minutes(&blocks) >= 38, "got {}", total_minutes(&blocks));
}
