use worklog_core::envfile::{read_value, upsert_text};

#[test]
fn upsert_then_read_round_trips() {
    assert_eq!(read_value("", "WORKLOG_TZ"), None);
    let body = upsert_text("", "WORKLOG_TZ", "+01:00");
    assert_eq!(body, "WORKLOG_TZ=+01:00\n");
    assert_eq!(read_value(&body, "WORKLOG_TZ").as_deref(), Some("+01:00"));
}

#[test]
fn upsert_replaces_without_touching_other_keys() {
    let before = "WORKLOG_JIRA_EMAIL=t@p5.is\nWORKLOG_TZ=UTC\n";
    let body = upsert_text(before, "WORKLOG_TZ", "-05:00");
    assert!(body.contains("WORKLOG_JIRA_EMAIL=t@p5.is"), "other key preserved: {body}");
    assert!(body.contains("WORKLOG_TZ=-05:00"), "target replaced: {body}");
    assert_eq!(body.matches("WORKLOG_TZ=").count(), 1, "no duplicate: {body}");
    assert_eq!(read_value(&body, "WORKLOG_JIRA_EMAIL").as_deref(), Some("t@p5.is"));
}

#[test]
fn upsert_empty_value_removes_key() {
    let body = upsert_text("A=1\nWORKLOG_TZ=UTC\nB=2\n", "WORKLOG_TZ", "");
    assert_eq!(body, "A=1\nB=2\n");
    assert_eq!(read_value(&body, "WORKLOG_TZ"), None);
}

#[test]
fn read_skips_comments_and_strips_quotes() {
    let text = "# WORKLOG_TZ=commented\n  WORKLOG_TZ = \"+02:00\"  \nOTHER='x'\n";
    assert_eq!(read_value(text, "WORKLOG_TZ").as_deref(), Some("+02:00"));
    assert_eq!(read_value(text, "OTHER").as_deref(), Some("x"));
    assert_eq!(read_value(text, "MISSING"), None);
}

#[test]
fn first_occurrence_wins_and_comments_survive_an_upsert() {
    let text = "K=first\nK=second\n# note\n";
    assert_eq!(read_value(text, "K").as_deref(), Some("first"));
    let body = upsert_text(text, "K", "new");
    assert_eq!(body, "K=new\nK=new\n# note\n");
    assert_eq!(read_value(&body, "K").as_deref(), Some("new"));
}

#[test]
fn crlf_lines_read_like_plain_ones() {
    let text = "A=1\r\nB=2\r\n";
    assert_eq!(read_value(text, "A").as_deref(), Some("1"));
    assert_eq!(read_value(text, "B").as_deref(), Some("2"));
}
