use worklog_core::carry::{inherit, plan_carry, ranges_overlap, CarryRow};

#[test]
fn ranges_overlap_handles_cross_format_timestamps() {
    assert!(ranges_overlap(
        "2026-04-18T09:00:00.000000+00:00",
        "2026-04-18T09:30:00.000000+00:00",
        "2026-04-18T09:00:00+00:00",
        "2026-04-18T09:30:00+00:00",
    ));
    assert!(ranges_overlap(
        "2026-04-18T09:00:00Z",
        "2026-04-18T09:30:00Z",
        "2026-04-18T09:15:00+00:00",
        "2026-04-18T09:45:00+00:00",
    ));
    assert!(!ranges_overlap(
        "2026-04-18T09:00:00+00:00",
        "2026-04-18T09:30:00+00:00",
        "2026-04-18T09:30:00.000000+00:00",
        "2026-04-18T10:00:00.000000+00:00",
    ));
    assert!(!ranges_overlap("garbage", "garbage", "also", "also"));
}

#[test]
fn ranges_overlap_accepts_naive_timestamps_as_utc() {
    assert!(ranges_overlap(
        "2026-04-18T09:00:00",
        "2026-04-18T09:30:00.5",
        "2026-04-18T09:30:00+00:00",
        "2026-04-18T10:00:00+00:00",
    ));
}

fn row(s: &str, e: &str) -> CarryRow {
    CarryRow {
        started_at: s.into(),
        ended_at: e.into(),
        jira_issue: None,
        description: None,
        estimated_by: None,
        tempo_worklog_id: None,
    }
}

#[test]
fn plan_carry_prefers_exact_start_then_first_unclaimed_overlap() {
    let prior = vec![
        row("2026-04-18T09:00:00+00:00", "2026-04-18T09:30:00+00:00"),
        row("2026-04-18T10:00:00+00:00", "2026-04-18T10:30:00+00:00"),
    ];
    let blocks = vec![
        ("2026-04-18T10:00:00+00:00".to_string(), "2026-04-18T10:20:00+00:00".to_string()),
        ("2026-04-18T09:10:00+00:00".to_string(), "2026-04-18T09:20:00+00:00".to_string()),
        ("2026-04-18T09:15:00+00:00".to_string(), "2026-04-18T09:25:00+00:00".to_string()),
        ("2026-04-18T12:00:00+00:00".to_string(), "2026-04-18T12:20:00+00:00".to_string()),
    ];
    let plan = plan_carry(&prior, &blocks);
    // Exact start; overlap fallback; the same prior row cannot be claimed
    // twice; nothing overlaps.
    assert_eq!(plan, vec![Some(1), Some(0), None, None]);
}

fn synced(s: &str, e: &str, tempo: &str, jira: &str, desc: &str) -> CarryRow {
    CarryRow {
        started_at: s.into(),
        ended_at: e.into(),
        jira_issue: Some(jira.into()),
        description: Some(desc.into()),
        estimated_by: Some("manual".into()),
        tempo_worklog_id: Some(tempo.into()),
    }
}

#[test]
fn reinference_preserves_tempo_id_and_description() {
    // The block 10:00–10:07 was hand-edited; a new event at 10:08 extends
    // it to 10:10 with the same start.
    let prior = vec![synced("2026-04-18T10:00:00+00:00", "2026-04-18T10:07:00+00:00", "98765", "PROJ-7", "custom")];
    let blocks = vec![("2026-04-18T10:00:00+00:00".to_string(), "2026-04-18T10:10:00+00:00".to_string())];
    let picks = plan_carry(&prior, &blocks);
    assert_eq!(picks, vec![Some(0)]);
    let kept = inherit(picks[0].map(|i| &prior[i]), None);
    assert_eq!(kept.tempo_worklog_id.as_deref(), Some("98765"));
    assert_eq!(kept.description.as_deref(), Some("custom"));
    assert_eq!(kept.jira_issue.as_deref(), Some("PROJ-7"));
    assert_eq!(kept.estimated_by.as_deref(), Some("manual"));
}

#[test]
fn reinference_preserves_state_when_start_shifts_backward() {
    // A backfilled 09:55 event moves the start: no exact match, the
    // overlapping prior block is inherited.
    let prior = vec![synced("2026-04-18T10:00:00+00:00", "2026-04-18T10:07:00+00:00", "42424", "PROJ-3", "reviewed")];
    let blocks = vec![("2026-04-18T09:55:00+00:00".to_string(), "2026-04-18T10:07:00+00:00".to_string())];
    let picks = plan_carry(&prior, &blocks);
    assert_eq!(picks, vec![Some(0)]);
    let kept = inherit(picks[0].map(|i| &prior[i]), Some("OTHER-1".into()));
    assert_eq!(kept.tempo_worklog_id.as_deref(), Some("42424"), "tempo_worklog_id MUST be preserved across started_at shift");
    assert_eq!(kept.jira_issue.as_deref(), Some("PROJ-3"));
    assert_eq!(kept.description.as_deref(), Some("reviewed"));
    assert_eq!(kept.estimated_by.as_deref(), Some("manual"));
}

#[test]
fn a_new_block_without_prior_state_keeps_its_inferred_ticket() {
    let kept = inherit(None, Some("GEN-2".into()));
    assert_eq!(kept.jira_issue.as_deref(), Some("GEN-2"));
    assert!(kept.tempo_worklog_id.is_none() && kept.description.is_none() && kept.estimated_by.is_none());
    let mut unticketed = row("2026-04-18T10:00:00+00:00", "2026-04-18T10:30:00+00:00");
    unticketed.jira_issue = None;
    let kept = inherit(Some(&unticketed), Some("GEN-2".into()));
    assert_eq!(kept.jira_issue.as_deref(), Some("GEN-2"));
}

#[test]
fn an_unchanged_day_hands_each_block_its_own_row() {
    let prior = vec![
        row("2026-04-18T09:00:00+00:00", "2026-04-18T10:00:00+00:00"),
        row("2026-04-18T10:30:00+00:00", "2026-04-18T11:00:00+00:00"),
        row("2026-04-18T13:00:00+00:00", "2026-04-18T14:15:00+00:00"),
    ];
    let keys: Vec<(String, String)> = prior.iter().map(|r| (r.started_at.clone(), r.ended_at.clone())).collect();
    assert_eq!(plan_carry(&prior, &keys), vec![Some(0), Some(1), Some(2)]);
}
