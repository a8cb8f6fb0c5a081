use worklog_core::purge::{
    cutoff_for_cycle, cutoff_for_days, cycle_start_on_or_before, days_in_month,
    effective_start_day, purge_plan, purge_report, purge_run, PurgeBlock, PurgeRow, PurgeTicket, Ymd,
    DEFAULT_CLOSE_DAY, DEFAULT_CYCLE_START_DAY,
};

fn date(s: &str) -> Ymd {
    let p: Vec<&str> = s.split('-').collect();
    Ymd { year: p[0].parse().unwrap(), month: p[1].parse().unwrap(), day: p[2].parse().unwrap() }
}

#[test]
fn b1_through_b6_cutoff_for_cycle_table() {
    let cases: &[(&str, &str)] = &[
        ("2026-07-24", "2026-07-20"),
        ("2026-07-23", "2026-06-20"),
        ("2026-07-05", "2026-06-20"),
        ("2026-07-19", "2026-06-20"),
        ("2026-07-20", "2026-06-20"),
        ("2026-08-19", "2026-07-20"),
        ("2026-08-24", "2026-08-20"),
        ("2026-03-05", "2026-02-20"),
        ("2026-01-02", "2025-12-20"),
    ];
    for (today_str, expected_str) in cases {
        let cutoff = cutoff_for_cycle(date(today_str), DEFAULT_CYCLE_START_DAY, DEFAULT_CLOSE_DAY);
        assert_eq!(cutoff, Some(date(expected_str)), "today={today_str}");
    }
}

#[test]
fn b7_cycle_start_day_31_clamps_within_february() {
    assert_eq!(effective_start_day(2026, 2, 31), 28);
    assert_eq!(cycle_start_on_or_before(date("2026-03-05"), 31), date("2026-02-28"));
    assert_eq!(effective_start_day(2028, 2, 31), 29);
    assert_eq!(cycle_start_on_or_before(date("2028-03-05"), 31), date("2028-02-29"));
}

#[test]
fn b11_cutoff_for_cycle_and_cutoff_for_days_differ() {
    let today = date("2026-07-25");
    let cycle_cutoff = cutoff_for_cycle(today, DEFAULT_CYCLE_START_DAY, DEFAULT_CLOSE_DAY).unwrap();
    let days_cutoff = cutoff_for_days(today, 91).unwrap();
    assert_eq!(cycle_cutoff, date("2026-07-20"));
    assert_eq!(days_cutoff, date("2026-04-25"));
    assert_ne!(cycle_cutoff, days_cutoff);
}

#[test]
fn days_in_month_follows_the_gregorian_rules() {
    assert_eq!(days_in_month(2026, 1), 31);
    assert_eq!(days_in_month(2026, 4), 30);
    assert_eq!(days_in_month(2024, 2), 29);
    assert_eq!(days_in_month(1900, 2), 28);
    assert_eq!(days_in_month(2000, 2), 29);
    assert_eq!(days_in_month(2026, 12), 31);
}

fn block(id: i64, day: &str, tempo: Option<&str>, exported: Option<&str>, jira: Option<&str>) -> PurgeBlock {
    PurgeBlock {
        id,
        day: day.into(),
        tempo_worklog_id: tempo.map(Into::into),
        exported_at: exported.map(Into::into),
        jira_issue: jira.map(Into::into),
    }
}

#[test]
fn b8_all_block_classes_deleted_no_exemption() {
    let blocks = vec![
        block(1, "2026-01-01", None, None, None),
        block(2, "2026-01-02", Some("123"), None, None),
        block(3, "2026-01-03", None, Some("2026-01-05T00:00:00Z"), None),
        block(4, "2026-01-04", Some(""), Some(""), None),
    ];
    let plan = purge_plan(&blocks, &vec![], &vec![], &vec![], &vec![], "2026-02-01");
    assert_eq!(plan.blocks, vec![1, 2, 3, 4]);
    // B37: only the never-billed subset is counted as unbilled.
    assert_eq!(plan.unbilled, 2);
}

#[test]
fn b9_recent_block_and_linked_events_survive_true_orphan_deleted() {
    let blocks = vec![block(1, "2026-03-01", None, None, None), block(2, "2026-01-01", None, None, None)];
    let links = vec![(1, 10), (2, 11)];
    let events = vec![
        PurgeRow { id: 10, before_cutoff: true },
        PurgeRow { id: 11, before_cutoff: true },
        PurgeRow { id: 12, before_cutoff: true },
        PurgeRow { id: 13, before_cutoff: false },
    ];
    let plan = purge_plan(&blocks, &links, &events, &vec![], &vec![], "2026-02-01");
    assert_eq!(plan.blocks, vec![2]);
    // Linked to a surviving block: kept; linked only to a deleted block or
    // to nothing: deleted; after the cutoff: kept.
    assert_eq!(plan.events, vec![11, 12]);
}

#[test]
fn b13_to_b16_sessions_and_tickets() {
    let blocks = vec![block(1, "2026-03-01", None, None, Some("KEEP-1")), block(2, "2026-01-01", None, None, Some("GONE-1"))];
    let sessions = vec![PurgeRow { id: 1, before_cutoff: true }, PurgeRow { id: 2, before_cutoff: false }];
    let tickets = vec![
        PurgeTicket { key: "KEEP-1".into(), external: true },
        PurgeTicket { key: "GONE-1".into(), external: true },
        PurgeTicket { key: "CACHED-1".into(), external: false },
    ];
    let plan = purge_plan(&blocks, &vec![], &vec![], &sessions, &tickets, "2026-02-01");
    assert_eq!(plan.sessions, vec![1]);
    assert_eq!(plan.tickets, vec!["GONE-1".to_string()]);
    let report = purge_report(&plan, "2026-02-01", true);
    assert!(report.dry_run);
    assert_eq!(report.cutoff_date, "2026-02-01");
    assert_eq!(report.blocks_deleted, 1);
    assert_eq!(report.sessions_deleted, 1);
    assert_eq!(report.tickets_deleted, 1);
}

fn ymd(s: &str) -> String {
    s.to_string()
}

#[test]
fn b10_dry_run_reports_counts_but_changes_nothing() {
    let blocks = vec![block(1, "2026-02-10", Some("tempo-3"), None, None), block(2, "2026-02-11", None, None, None)];
    let events = vec![PurgeRow { id: 1, before_cutoff: true }, PurgeRow { id: 2, before_cutoff: false }];
    let plan = purge_plan(&blocks, &vec![], &events, &vec![], &vec![], "2026-06-20");
    let report = purge_report(&plan, "2026-06-20", true);
    assert!(report.dry_run);
    assert_eq!(report.blocks_deleted, 2);
    assert_eq!(report.events_deleted, 1);
}

#[test]
fn b12_purge_rows_deletes_manual_block_under_days_style_cutoff() {
    let cutoff = cutoff_for_days(date("2026-07-24"), 30).unwrap();
    assert_eq!(cutoff, date("2026-06-24"));
    let cutoff_text = ymd("2026-06-24");
    let blocks = vec![block(1, "2026-05-01", Some("tempo-9"), None, None)];
    let plan = purge_plan(&blocks, &vec![], &vec![], &vec![], &vec![], &cutoff_text);
    let report = purge_report(&plan, &cutoff_text, false);
    assert_eq!(report.blocks_deleted, 1);
    assert!(!report.dry_run);
}

#[test]
fn b37_blocks_deleted_unbilled_counts_only_the_never_billed_subset() {
    let blocks = vec![
        block(1, "2026-02-10", Some("tempo-1"), None, None),
        block(2, "2026-02-11", None, Some("2026-02-12T09:00:00.000Z"), None),
        block(3, "2026-02-12", None, None, None),
    ];
    let report = purge_report(&purge_plan(&blocks, &vec![], &vec![], &vec![], &vec![], "2026-06-20"), "2026-06-20", false);
    assert_eq!(report.blocks_deleted, 3);
    assert_eq!(report.blocks_deleted_unbilled, 1);
}

#[test]
fn cutoff_date_is_reported_as_iso() {
    let report = purge_report(&purge_plan(&vec![], &vec![], &vec![], &vec![], &vec![], "2026-06-20"), "2026-06-20", true);
    assert_eq!(report.cutoff_date, "2026-06-20");
    assert_eq!(report.cutoff_date.len(), 10);
    assert_eq!(report.blocks_deleted, 0);
    assert_eq!(report.snapshot_path, None);
}

#[test]
fn b13_session_before_cutoff_deleted_session_after_survives() {
    let sessions = vec![PurgeRow { id: 1, before_cutoff: true }, PurgeRow { id: 2, before_cutoff: false }];
    let plan = purge_plan(&vec![], &vec![], &vec![], &sessions, &vec![], "2026-06-20");
    assert_eq!(plan.sessions, vec![1]);
}

#[test]
fn b14_orphaned_external_ticket_deleted() {
    let blocks = vec![block(1, "2026-02-10", None, None, Some("EXT-1"))];
    let tickets = vec![PurgeTicket { key: "EXT-1".into(), external: true }];
    let plan = purge_plan(&blocks, &vec![], &vec![], &vec![], &tickets, "2026-06-20");
    assert_eq!(plan.tickets, vec!["EXT-1".to_string()]);
}

#[test]
fn b15_external_ticket_referenced_by_surviving_block_kept() {
    let blocks = vec![block(1, "2026-06-25", None, None, Some("EXT-2"))];
    let tickets = vec![PurgeTicket { key: "EXT-2".into(), external: true }];
    let plan = purge_plan(&blocks, &vec![], &vec![], &vec![], &tickets, "2026-06-20");
    assert!(plan.tickets.is_empty());
}

#[test]
fn b16_cached_external_zero_ticket_never_touched() {
    let tickets = vec![PurgeTicket { key: "CACHE-1".into(), external: false }];
    let plan = purge_plan(&vec![], &vec![], &vec![], &vec![], &tickets, "2026-06-20");
    assert!(plan.tickets.is_empty());
}

#[test]
fn dry_run_reports_sessions_and_tickets_without_changing_tables() {
    let sessions = vec![PurgeRow { id: 1, before_cutoff: true }, PurgeRow { id: 2, before_cutoff: false }];
    let blocks = vec![block(1, "2026-02-10", None, None, Some("EXT-1"))];
    let tickets = vec![
        PurgeTicket { key: "EXT-1".into(), external: true },
        PurgeTicket { key: "CACHE-1".into(), external: false },
    ];
    let plan = purge_plan(&blocks, &vec![], &vec![], &sessions, &tickets, "2026-06-20");
    let report = purge_report(&plan, "2026-06-20", true);
    assert!(report.dry_run);
    assert_eq!(report.sessions_deleted, 1);
    assert_eq!(report.tickets_deleted, 1);
}

#[test]
fn a_dry_run_reports_what_a_real_run_deletes_and_deletes_nothing() {
    let blocks = vec![
        block(1, "2026-01-10", None, None, Some("EXT-1")),
        block(2, "2026-03-01", Some("tempo-9"), None, None),
    ];
    let links = vec![(2, 20)];
    let events = vec![
        PurgeRow { id: 10, before_cutoff: true },
        PurgeRow { id: 20, before_cutoff: true },
        PurgeRow { id: 30, before_cutoff: false },
    ];
    let sessions = vec![PurgeRow { id: 5, before_cutoff: true }];
    let tickets = vec![PurgeTicket { key: "EXT-1".into(), external: true }];
    let (dry, nothing) = purge_run(&blocks, &links, &events, &sessions, &tickets, "2026-02-01", true);
    let (real, doomed) = purge_run(&blocks, &links, &events, &sessions, &tickets, "2026-02-01", false);
    assert!(dry.dry_run);
    assert!(!real.dry_run);
    for r in [&dry, &real] {
        assert_eq!(r.cutoff_date, "2026-02-01");
        assert_eq!(r.blocks_deleted, 1);
        assert_eq!(r.blocks_deleted_unbilled, 1);
        assert_eq!(r.events_deleted, 1);
        assert_eq!(r.sessions_deleted, 1);
        assert_eq!(r.tickets_deleted, 1);
    }
    assert!(nothing.blocks.is_empty() && nothing.events.is_empty());
    assert!(nothing.sessions.is_empty() && nothing.tickets.is_empty());
    assert_eq!(doomed.blocks, vec![1]);
    assert_eq!(doomed.events, vec![10]);
    assert_eq!(doomed.sessions, vec![5]);
    assert_eq!(doomed.tickets, vec!["EXT-1".to_string()]);
}
