use worklog_core::models::Event;
use worklog_core::snippets::{join_text_parts, line_snippet, snippet, squeeze_text, turn_key, SNIPPET_CHARS};
use worklog_core::sources::assistant_turn_source;

fn prompt_event(id: i64, session: &str, uuid: &str) -> Event {
    let mut e = Event::minimal(&assistant_turn_source(), &format!("{session}:{uuid}"), "2026-09-23T09:00:00Z", "prompt");
    e.id = Some(id);
    e
}

#[test]
fn reads_the_prompt_from_the_transcript_cut_short() {
    let long = "fix   the login\nbug ".repeat(20);
    let lines = [
        format!(
            r#"{{"type":"user","uuid":"u1","message":{{"role":"user","content":{}}}}}"#,
            serde_json::to_string(&long).unwrap()
        ),
        r#"{"type":"user","uuid":"u2","message":{"role":"user","content":[{"type":"text","text":"deploy to staging"}]}}"#
            .to_string(),
    ];
    let (u1, one) = line_snippet(&lines[0]).unwrap();
    assert_eq!(u1, "u1");
    assert!(one.starts_with("fix the login bug fix"), "{one}");
    assert!(one.ends_with('…') && one.chars().count() == SNIPPET_CHARS + 1, "{one}");
    assert_eq!(line_snippet(&lines[1]), Some(("u2".to_string(), "deploy to staging".to_string())));
    let parts = vec!["deploy to staging".to_string()];
    assert_eq!(snippet(&join_text_parts(&parts)).as_deref(), Some("deploy to staging"));
}

#[test]
fn only_text_parts_of_a_json_line_are_shown() {
    let line = r#"{"uuid":"u3","message":{"content":[{"type":"image","text":"no"},{"type":"text","text":"first"},{"type":"tool_result"},{"type":"text","text":" second  part "}]}}"#;
    assert_eq!(line_snippet(line), Some(("u3".to_string(), "first second part".to_string())));
    assert_eq!(line_snippet("not json"), None);
    assert_eq!(line_snippet(r#"{"uuid":"u4","message":{"content":42}}"#), None);
    assert_eq!(line_snippet(r#"{"uuid":7,"message":{"content":"hi"}}"#), None);
    assert_eq!(line_snippet(r#"{"uuid":"u5","message":{"content":"   "}}"#), None);
    assert_eq!(line_snippet(r#"{"uuid":"u6"}"#), None);
}

#[test]
fn whitespace_is_collapsed_and_blank_prompts_give_nothing() {
    assert_eq!(squeeze_text("  a \t b\n\nc  "), "a b c");
    assert_eq!(snippet("   \n\t "), None);
    assert_eq!(snippet(""), None);
    let exact = "x".repeat(SNIPPET_CHARS);
    assert_eq!(snippet(&exact).as_deref(), Some(exact.as_str()));
    assert_eq!(join_text_parts(&vec!["a".into(), "b c".into()]), "a b c");
    assert_eq!(join_text_parts(&vec![]), "");
}

#[test]
fn prompt_events_name_their_transcript_line() {
    assert_eq!(turn_key(&prompt_event(1, "s1", "u1")), Some(("s1".to_string(), "u1".to_string())));
    assert_eq!(turn_key(&prompt_event(1, "s1", "u:2")), Some(("s1".to_string(), "u:2".to_string())));
    let mut no_id = prompt_event(1, "s1", "u1");
    no_id.id = None;
    assert_eq!(turn_key(&no_id), None);
    let mut other = prompt_event(1, "s1", "u1");
    other.source = "shell".into();
    assert_eq!(turn_key(&other), None);
    let mut plain = prompt_event(1, "s1", "u1");
    plain.source_id = "nocolon".into();
    assert_eq!(turn_key(&plain), None);
}
