use worklog_core::hook::{
    close_reason, default_command, event_names, first_jira_key, hook_event, install_plan, is_worklog_command,
    read_hook_payload, status_of, title_for, uninstall_plan, HookEntry, HookPayload, PlannedEntry, Slot,
};
use worklog_core::sources::assistant_source;

#[test]
fn hook_registers_every_session_event() {
    let names = event_names();
    assert!(names.contains(&"SessionStart".to_string()));
    assert!(names.contains(&"UserPromptSubmit".to_string()));
    assert!(names.contains(&"Stop".to_string()));
    assert!(is_worklog_command("/usr/local/bin/worklog hook-run"));
    assert!(!is_worklog_command("other-tool run"));
}

#[test]
fn default_command_prefers_the_standalone_binary() {
    assert_eq!(default_command(Some("/b/worklog-hook"), Some("/b/worklog-rs"), None), "/b/worklog-hook");
    assert_eq!(default_command(None, Some("/b/worklog-rs"), Some("/b/worklog")), "/b/worklog-rs hook-run");
    assert_eq!(default_command(None, None, Some("/b/worklog")), "/b/worklog hook-run");
    assert_eq!(default_command(None, None, None), "worklog hook-run");
}

#[test]
fn stop_and_session_end_close_the_session() {
    assert_eq!(close_reason("Stop").as_deref(), Some("stop"));
    assert_eq!(close_reason("SessionEnd").as_deref(), Some("session_end"));
    assert_eq!(close_reason("UserPromptSubmit"), None);
}

#[test]
fn first_jira_key_reads_prompt_then_cwd() {
    assert_eq!(first_jira_key(Some("fix PROJ-12 now"), Some("/w/ABC-9")).as_deref(), Some("PROJ-12"));
    assert_eq!(first_jira_key(Some("no key here"), Some("/w/ABC-9-branch")).as_deref(), Some("ABC-9"));
    assert_eq!(first_jira_key(None, None), None);
    assert_eq!(first_jira_key(Some("lowercase abc-1"), None), None);
}

#[test]
fn title_carries_the_first_eighty_prompt_chars() {
    assert_eq!(title_for("Stop", None), "Stop");
    assert_eq!(title_for("Stop", Some("")), "Stop");
    assert_eq!(title_for("UserPromptSubmit", Some("hello")), "UserPromptSubmit — hello");
    let long: String = "x".repeat(100);
    let t = title_for("E", Some(&long));
    assert_eq!(t, format!("E — {}", "x".repeat(80)));
}

#[test]
fn dedupe_is_keyed_on_session_event_timestamp() {
    let payload = HookPayload {
        event: Some("UserPromptSubmit".into()),
        session_id: Some("s1".into()),
        cwd: Some("/w/proj".into()),
        prompt: Some("work on GEN-4".into()),
        transcript_path: Some("/t.jsonl".into()),
    };
    let now = "2026-04-18T09:00:00+00:00";
    let e = hook_event(&payload, now, "{}".into());
    assert_eq!(e.source, assistant_source());
    assert_eq!(e.source_id, format!("s1:UserPromptSubmit:{now}"));
    assert_eq!(e.started_at, now);
    assert_eq!(e.jira_issue.as_deref(), Some("GEN-4"));
    assert_eq!(e.project_path.as_deref(), Some("/w/proj"));
    assert_eq!(e.session_id.as_deref(), Some("s1"));
    assert_eq!(e.details.as_deref(), Some("/t.jsonl"));
    assert_eq!(e.title, "UserPromptSubmit — work on GEN-4");
    assert_eq!(e.raw_json.as_deref(), Some("{}"));
}

#[test]
fn handle_does_not_panic_on_missing_fields() {
    let payload = HookPayload { event: None, session_id: None, cwd: None, prompt: None, transcript_path: None };
    let e = hook_event(&payload, "2026-04-18T09:00:00+00:00", String::new());
    assert_eq!(e.source_id, "no-session:unknown:2026-04-18T09:00:00+00:00");
    assert_eq!(e.title, "unknown");
    assert_eq!(e.jira_issue, None);
}

/// A handler as the plans read it: its command when that names worklog.
fn handler(cmd: &str) -> Option<String> {
    if is_worklog_command(cmd) {
        Some(cmd.to_string())
    } else {
        None
    }
}

fn entry(event: &str, cmds: &[&str]) -> HookEntry {
    HookEntry { event: event.into(), handlers: cmds.iter().map(|c| handler(c)).collect() }
}

/// The plan carried out on the entries: `Ours` becomes `cmd`.
fn apply(before: &[HookEntry], plan: &[PlannedEntry], cmd: &str) -> Vec<HookEntry> {
    plan.iter()
        .map(|p| {
            let old = before.iter().find(|e| e.event == p.event);
            HookEntry {
                event: p.event.clone(),
                handlers: p
                    .slots
                    .iter()
                    .map(|s| match s {
                        Slot::Keep(i) => old.unwrap().handlers[*i].clone(),
                        Slot::Ours => Some(cmd.to_string()),
                    })
                    .collect(),
            }
        })
        .collect()
}

#[test]
fn install_creates_handlers_for_every_event() {
    let cmd = "/usr/bin/worklog hook run";
    let after = apply(&[], &install_plan(&vec![]), cmd);
    for ev in event_names() {
        let e = after.iter().find(|e| e.event == ev).unwrap();
        assert_eq!(e.handlers, vec![Some(cmd.to_string())], "event {ev} must have 1 handler");
    }
}

#[test]
fn install_is_idempotent() {
    let cmd = "worklog hook run";
    let once = apply(&[], &install_plan(&vec![]), cmd);
    let twice = apply(&once, &install_plan(&once), cmd);
    let s = status_of(&twice, "settings.json".into());
    assert!(s.installed);
    assert_eq!(s.events.len(), event_names().len());
    assert_eq!(s.command.as_deref(), Some(cmd));
    for ev in event_names() {
        assert_eq!(twice.iter().find(|e| e.event == ev).unwrap().handlers.len(), 1);
    }
}

#[test]
fn install_replaces_an_earlier_python_handler() {
    let before = vec![entry("Stop", &["/old/worklog hook run"])];
    let after = apply(&before, &install_plan(&before), "/new/worklog hook run");
    let stop = after.iter().find(|e| e.event == "Stop").unwrap();
    assert_eq!(stop.handlers, vec![Some("/new/worklog hook run".to_string())]);
}

#[test]
fn install_keeps_other_tools_and_sweeps_unlistened_keys() {
    let before = vec![
        entry("Notification", &["worklog hook-run", "other-tool"]),
        entry("Legacy", &["/x/worklog hook-run"]),
        entry("Stop", &["other-tool", "worklog hook-run"]),
    ];
    let plan = install_plan(&before);
    assert!(plan.iter().all(|p| p.event != "Legacy"));
    let notification = plan.iter().find(|p| p.event == "Notification").unwrap();
    assert_eq!(notification.slots, vec![Slot::Keep(1)]);
    let stop = plan.iter().find(|p| p.event == "Stop").unwrap();
    assert_eq!(stop.slots, vec![Slot::Keep(0), Slot::Ours]);
}

#[test]
fn uninstall_removes_only_worklog_handlers() {
    let before = vec![entry("Stop", &["worklog hook run", "/opt/other-tool/notify"]), entry("SessionEnd", &["worklog hook run"])];
    let plan = uninstall_plan(&before);
    assert_eq!(plan.len(), 1);
    assert_eq!(plan[0].event, "Stop");
    assert_eq!(plan[0].slots, vec![Slot::Keep(1)]);
    let after = apply(&before, &plan, "unused");
    assert!(!status_of(&after, "s".into()).installed);
}

#[test]
fn status_on_missing_file_reports_uninstalled() {
    let s = status_of(&vec![], "settings.json".into());
    assert!(!s.installed);
    assert!(s.events.is_empty());
    assert_eq!(s.command, None);
}

#[test]
fn uninstall_on_missing_file_is_a_noop() {
    assert!(uninstall_plan(&vec![]).is_empty());
}

#[test]
fn a_second_install_leaves_every_handler_in_place() {
    let cmd = "worklog hook-run";
    let before = vec![
        entry("Stop", &["notify-send done", "/old/worklog hook run"]),
        entry("Notification", &["say hi", "worklog-hook"]),
        entry("PreCompact", &["worklog hook-run"]),
    ];
    let once = apply(&before, &install_plan(&before), cmd);
    let again = install_plan(&once);
    assert_eq!(again.len(), once.len());
    for (p, e) in again.iter().zip(once.iter()) {
        assert_eq!(p.event, e.event);
        let unchanged: Vec<Slot> = e
            .handlers
            .iter()
            .enumerate()
            .map(|(j, h)| if h.is_none() { Slot::Keep(j) } else { Slot::Ours })
            .collect();
        assert_eq!(p.slots, unchanged, "event {}", p.event);
    }
    assert_eq!(apply(&once, &again, cmd).len(), once.len());
    let st = status_of(&once, "settings.json".into());
    assert!(st.installed);
    assert_eq!(st.events, event_names());
    assert_eq!(st.command.as_deref(), Some(cmd));
}

#[test]
fn hook_payload_members_fall_back_in_order() {
    let (p, raw) = read_hook_payload(
        r#"{ "hook_event_name": "Stop", "event": "old", "session_id": "s9", "project_path": "/w/p", "user_prompt": "fix GEN-7", "transcript_path": 3 }"#,
    )
    .unwrap();
    assert_eq!(p.event.as_deref(), Some("Stop"));
    assert_eq!(p.session_id.as_deref(), Some("s9"));
    assert_eq!(p.cwd.as_deref(), Some("/w/p"));
    assert_eq!(p.prompt.as_deref(), Some("fix GEN-7"));
    assert_eq!(p.transcript_path, None);
    assert!(!raw.contains(": ") && !raw.contains(", ") && raw.starts_with("{\""), "written back compactly: {raw}");
    let (q, _) = read_hook_payload(r#"{"event":"SessionStart","cwd":"/a","project_path":"/b","prompt":"x","user_prompt":"y"}"#).unwrap();
    assert_eq!(q.event.as_deref(), Some("SessionStart"));
    assert_eq!(q.cwd.as_deref(), Some("/a"));
    assert_eq!(q.prompt.as_deref(), Some("x"));
    assert!(read_hook_payload("not json").is_none());
    let (empty, raw) = read_hook_payload("[]").unwrap();
    assert_eq!(empty.event, None);
    assert_eq!(raw, "[]");
}
