use chrono::{Duration, TimeZone, Timelike, Utc};
use worklog_core::infer::{build_blocks, is_calendar_source, iso_prefix, InferEvent};
use worklog_core::instant::block_iso;

fn nanos(t: chrono::DateTime<Utc>) -> i128 {
    t.timestamp_nanos_opt().unwrap() as i128
}

fn at(h: u32, m: u32) -> i128 {
    nanos(Utc.with_ymd_and_hms(2026, 4, 18, h, m, 0).unwrap())
}

fn ev(h: u32, m: u32, source: &str) -> InferEvent {
    InferEvent {
        ts: at(h, m),
        source: source.into(),
        duration_seconds: None,
        jira_issue: None,
        event_id: None,
        project_path: None,
    }
}

fn calendar(h: u32, m: u32, secs: i64) -> InferEvent {
    InferEvent {
        ts: at(h, m),
        source: "gcal".into(),
        duration_seconds: Some(secs),
        jira_issue: None,
        event_id: None,
        project_path: None,
    }
}

#[test]
fn single_event_blocks_are_dropped_when_shorter_than_min() {
    let blocks = build_blocks(vec![ev(10, 0, "github_commit")]);
    assert!(blocks.is_empty());
}

#[test]
fn close_events_form_one_block() {
    let events: Vec<_> = (0..5).map(|i| ev(10, 5 * i as u32, "github_commit")).collect();
    let blocks = build_blocks(events);
    assert_eq!(blocks.len(), 1);
    assert_eq!(blocks[0].event_count, 5);
}

#[test]
fn gap_over_timeout_starts_new_block() {
    let a = ev(9, 0, "github_commit");
    let b = ev(9, 5, "github_commit");
    let c = ev(9, 35, "github_commit");
    let d = ev(9, 40, "github_commit");
    let blocks = build_blocks(vec![a, b, c, d]);
    assert_eq!(blocks.len(), 2);
}

#[test]
fn calendar_event_is_authoritative_and_isolated() {
    let code_before = ev(9, 0, "github_commit");
    let meeting = calendar(9, 10, 45 * 60);
    let code_after = ev(10, 0, "github_commit");
    let blocks = build_blocks(vec![code_before, meeting, code_after]);
    assert_eq!(blocks.len(), 1);
    assert_eq!(blocks[0].duration_seconds, 45 * 60);
}

#[test]
fn jira_issue_is_kept_when_all_events_agree() {
    let mut a = ev(10, 0, "github_commit");
    a.jira_issue = Some("PROJ-1".into());
    let mut b = ev(10, 5, "github_commit");
    b.jira_issue = Some("PROJ-1".into());
    let blocks = build_blocks(vec![a, b]);
    assert_eq!(blocks.len(), 1);
    assert_eq!(blocks[0].jira_issue.as_deref(), Some("PROJ-1"));
}

#[test]
fn jira_issue_cleared_when_events_disagree() {
    let mut a = ev(10, 0, "github_commit");
    a.jira_issue = Some("PROJ-1".into());
    let mut b = ev(10, 5, "github_commit");
    b.jira_issue = Some("PROJ-2".into());
    let blocks = build_blocks(vec![a, b]);
    assert_eq!(blocks.len(), 1);
    assert!(blocks[0].jira_issue.is_none());
}

#[test]
fn flags_blocks_over_max() {
    let start = Utc.with_ymd_and_hms(2026, 4, 18, 9, 0, 0).unwrap();
    let end = start + Duration::hours(5);
    let mut dense = Vec::new();
    let mut t = start;
    while t < end {
        dense.push(InferEvent {
            ts: nanos(t),
            source: "github_commit".into(),
            duration_seconds: None,
            jira_issue: None,
            event_id: None,
            project_path: None,
        });
        t += Duration::minutes(10);
    }
    let blocks = build_blocks(dense);
    assert_eq!(blocks.len(), 1);
    assert!(blocks[0].flagged, "long block must be flagged");
}

#[test]
fn block_span_counts_the_last_credit_and_keeps_event_ids() {
    let mut a = ev(10, 0, "shell");
    a.event_id = Some(7);
    let mut b = ev(10, 4, "shell");
    b.event_id = Some(9);
    let c = ev(10, 6, "shell");
    // Given out of order: blocks are built in timestamp order.
    let blocks = build_blocks(vec![c, b, a]);
    assert_eq!(blocks.len(), 1);
    assert_eq!(blocks[0].started_at, at(10, 0));
    assert_eq!(blocks[0].ended_at, at(10, 8));
    assert_eq!(blocks[0].duration_seconds, 8 * 60);
    assert_eq!(blocks[0].event_ids, vec![7, 9]);
    assert!(!blocks[0].flagged);
    assert!(!blocks[0].is_calendar);
}

#[test]
fn only_gcal_is_a_calendar_source() {
    assert!(is_calendar_source("gcal"));
    assert!(!is_calendar_source("shell"));
    assert!(!is_calendar_source("Gcal"));
}

#[test]
fn iso_prefix_strips_the_utc_offset() {
    assert_eq!(iso_prefix("2026-04-18T00:00:00+00:00"), "2026-04-18T00:00:00");
    assert_eq!(iso_prefix("2026-04-18T00:00:00"), "2026-04-18T00:00:00");
    assert_eq!(iso_prefix("2026-04-18T00:00:00+00:00+00:00"), "2026-04-18T00:00:00");
    assert_eq!(iso_prefix("2026-04-18T00:00:00+01:00"), "2026-04-18T00:00:00+01:00");
}

#[test]
fn block_iso_matches_python_for_whole_seconds() {
    // Whole seconds carry no `.000000` padding.
    let dt = Utc.with_ymd_and_hms(2026, 4, 18, 9, 0, 0).unwrap();
    assert_eq!(block_iso(nanos(dt)).unwrap(), "2026-04-18T09:00:00+00:00");
}

#[test]
fn block_iso_emits_sub_seconds_when_non_zero() {
    let dt = Utc.with_ymd_and_hms(2026, 4, 18, 9, 0, 0).unwrap().with_nanosecond(123_456_789).unwrap();
    let s = block_iso(nanos(dt)).unwrap();
    assert!(
        s.starts_with("2026-04-18T09:00:00.") && s.ends_with("+00:00"),
        "block_iso should emit sub-seconds for non-zero nanos: {s}"
    );
}

#[test]
fn block_iso_rounds_down_before_the_epoch() {
    let dt = Utc.with_ymd_and_hms(1969, 12, 31, 23, 59, 59).unwrap().with_nanosecond(500_000_000).unwrap();
    assert_eq!(block_iso(nanos(dt)).unwrap(), "1969-12-31T23:59:59.500+00:00");
    assert_eq!(block_iso(-1).unwrap(), "1969-12-31T23:59:59.999999999+00:00");
    assert_eq!(block_iso(i128::MAX), None);
}

fn shape(blocks: &[worklog_core::infer::InferBlock]) -> Vec<(i128, i128, u32, bool)> {
    blocks.iter().map(|b| (b.started_at, b.ended_at, b.event_count, b.is_calendar)).collect()
}

#[test]
fn input_order_does_not_decide_ties_with_a_calendar_event() {
    let mk = |order: &[usize]| {
        let all = [ev(9, 0, "shell"), ev(9, 4, "shell"), ev(9, 8, "shell"), calendar(9, 8, 1800)];
        let picked: Vec<InferEvent> = order.iter().map(|&i| {
            let e = &all[i];
            InferEvent { ts: e.ts, source: e.source.clone(), duration_seconds: e.duration_seconds, jira_issue: None, event_id: None, project_path: None }
        }).collect();
        build_blocks(picked)
    };
    let a = mk(&[0, 1, 2, 3]);
    let b = mk(&[3, 2, 1, 0]);
    let c = mk(&[0, 1, 3, 2]);
    assert_eq!(shape(&a), shape(&b));
    assert_eq!(shape(&a), shape(&c));
    // The shell event at the meeting's start still belongs to the work before it.
    assert_eq!(a.len(), 2);
    assert_eq!(a[0].event_count, 3);
}

#[test]
fn every_order_of_the_same_events_gives_the_same_blocks() {
    let make = |i: usize| match i {
        0 => ev(9, 0, "shell"),
        1 => InferEvent { event_id: Some(2), ..ev(9, 5, "git") },
        2 => InferEvent { event_id: Some(1), ..ev(9, 5, "git") },
        3 => ev(9, 50, "shell"),
        4 => calendar(10, 0, 900),
        5 => ev(10, 0, "shell"),
        _ => InferEvent { jira_issue: Some("PROJ-2".into()), ..ev(11, 0, "git") },
    };
    let blocks_of = |order: &[usize]| -> Vec<_> {
        build_blocks(order.iter().map(|&i| make(i)).collect())
            .iter()
            .map(|b| (b.started_at, b.ended_at, b.event_count, b.is_calendar, b.event_ids.clone(), b.jira_issue.clone()))
            .collect()
    };
    let reference = blocks_of(&[0, 1, 2, 3, 4, 5, 6]);
    assert_eq!(blocks_of(&[6, 5, 4, 3, 2, 1, 0]), reference);
    assert_eq!(blocks_of(&[3, 4, 5, 6, 0, 1, 2]), reference);
    assert_eq!(blocks_of(&[2, 0, 5, 1, 6, 4, 3]), reference);
}
