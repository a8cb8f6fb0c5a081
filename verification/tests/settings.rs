use worklog_core::api::ApiError;
use worklog_core::envfile::{read_value, upsert_text};
use worklog_core::purge::{cutoff_for_cycle, is_valid_cycle_day, Ymd, DEFAULT_CLOSE_DAY, DEFAULT_CYCLE_START_DAY};
use worklog_core::settings::{check_cycle_days, parse_cycle_day, plan_env_writes, plan_settings, DaySubmission, EnvUpdate};

fn msg(e: ApiError) -> String {
    match e {
        ApiError::BadRequest(m) => m,
        other => panic!("expected a bad request, got {other:?}"),
    }
}

#[test]
fn b28_close_day_out_of_range_or_non_integer_rejected_without_persisting() {
    for (value, shown) in [(Some(0), "0"), (Some(32), "32"), (None, "\"abc\"")] {
        let e = parse_cycle_day("close_day", value, shown).unwrap_err();
        let m = msg(e);
        assert!(m.contains("1..=31"), "error should name the valid range: {m}");
        assert_eq!(m, format!("`close_day` must be an integer 1..=31 (got {shown})"));
    }
    assert_eq!(parse_cycle_day("close_day", Some(31), "31").unwrap(), 31);
    assert_eq!(parse_cycle_day("cycle_start_day", Some(1), "1").unwrap(), 1);
    assert!(is_valid_cycle_day(1) && is_valid_cycle_day(31));
    assert!(!is_valid_cycle_day(0) && !is_valid_cycle_day(32));
}

#[test]
fn close_day_before_start_day_is_refused() {
    assert_eq!(check_cycle_days(Some(15), None, 20, 23).unwrap(), (15, 23));
    assert_eq!(check_cycle_days(None, None, 20, 23).unwrap(), (20, 23));
    assert_eq!(check_cycle_days(Some(20), Some(20), 1, 1).unwrap(), (20, 20));
    let m = msg(check_cycle_days(Some(25), None, 20, 23).unwrap_err());
    assert_eq!(
        m,
        "`close_day` (23) must not be earlier than `cycle_start_day` (25) — the grace period \
         would collapse and the pruner would delete the just-closed cycle immediately"
    );
}

fn day(n: i64) -> Option<DaySubmission> {
    Some(DaySubmission { value: Some(n), shown: n.to_string() })
}

#[test]
fn b28_one_bad_field_among_several_good_ones_persists_nothing() {
    let r = plan_settings(None, Some(false), day(15), day(32), 20, 23);
    assert_eq!(
        r,
        Err(ApiError::BadRequest("`close_day` must be an integer 1..=31 (got 32)".into()))
    );
    let r = plan_settings(Some("UTC"), None, day(0), day(40), 20, 23);
    assert_eq!(
        r,
        Err(ApiError::BadRequest("`cycle_start_day` must be an integer 1..=31 (got 0)".into()))
    );
    let text = Some(DaySubmission { value: None, shown: "\"abc\"".into() });
    assert!(matches!(plan_settings(None, None, None, text, 20, 23), Err(ApiError::BadRequest(_))));
}

#[test]
fn b29_valid_cycle_start_day_persists_and_changes_the_cutoff() {
    let w = plan_settings(None, None, day(15), None, 20, 23).unwrap();
    assert_eq!(w, vec![("WORKLOG_BILLING_CYCLE_START_DAY".to_string(), "15".to_string())]);
    // Reading the written text back gives the value, and it moves the cutoff.
    let body = upsert_text("", &w[0].0, &w[0].1);
    assert_eq!(read_value(&body, "WORKLOG_BILLING_CYCLE_START_DAY").as_deref(), Some("15"));
    let today = Ymd { year: 2026, month: 7, day: 24 };
    let default_cutoff = cutoff_for_cycle(today, DEFAULT_CYCLE_START_DAY, DEFAULT_CLOSE_DAY);
    let configured_cutoff = cutoff_for_cycle(today, 15, DEFAULT_CLOSE_DAY);
    assert_ne!(default_cutoff, configured_cutoff, "the configured start day must change the computed cutoff");
    // A start day past the configured close day is refused by the order check.
    let r = plan_settings(None, None, day(25), None, 20, 23);
    assert!(matches!(r, Err(ApiError::BadRequest(m)) if m.starts_with("`close_day` (23) must not be earlier")));
    let w = plan_settings(Some(" -05:00 "), Some(true), None, None, 20, 23).unwrap();
    assert_eq!(
        w,
        vec![
            ("WORKLOG_TZ".to_string(), "-05:00".to_string()),
            ("WORKLOG_PRUNE_ENABLED".to_string(), "true".to_string()),
        ]
    );
}

#[test]
fn env_writes_follow_the_submitted_fields_in_order() {
    let u = EnvUpdate {
        timezone: Some("  +01:00 ".into()),
        prune_enabled: Some(false),
        cycle_start_day: Some(15),
        close_day: Some(18),
    };
    let w = plan_env_writes(&u);
    assert_eq!(
        w,
        vec![
            ("WORKLOG_TZ".to_string(), "+01:00".to_string()),
            ("WORKLOG_PRUNE_ENABLED".to_string(), "false".to_string()),
            ("WORKLOG_BILLING_CYCLE_START_DAY".to_string(), "15".to_string()),
            ("WORKLOG_BILLING_CLOSE_DAY".to_string(), "18".to_string()),
        ]
    );
    let none = EnvUpdate { timezone: None, prune_enabled: Some(true), cycle_start_day: None, close_day: None };
    assert_eq!(plan_env_writes(&none), vec![("WORKLOG_PRUNE_ENABLED".to_string(), "true".to_string())]);
}

#[test]
fn settings_post_rejects_invalid_timezone() {
    // A named zone isn't a fixed offset: refused before anything is saved.
    match plan_settings(Some("America/New_York"), Some(true), day(15), day(20), 20, 23) {
        Err(ApiError::BadRequest(m)) => assert!(m.contains("fixed offset"), "{m}"),
        other => panic!("expected a 400, got {other:?}"),
    }
}

#[test]
fn fixed_offsets_are_accepted_and_trimmed() {
    let w = plan_settings(Some(" +01:00 "), None, None, None, 20, 23).unwrap();
    assert_eq!(w, vec![("WORKLOG_TZ".to_string(), "+01:00".to_string())]);
    assert!(plan_settings(Some("UTC"), None, None, None, 20, 23).is_ok());
    assert!(plan_settings(Some("-05:30"), None, None, None, 20, 23).is_ok());
    assert!(plan_settings(Some("+24:00"), None, None, None, 20, 23).is_err());
    assert!(plan_settings(Some("+1:00"), None, None, None, 20, 23).is_err());
}
