use worklog_core::estimate::{count_block, EstimateStats};
use worklog_core::estimate::{body_too_large, bounded_body_preview, build_user_message, MAX_RESPONSE_BYTES, prompt_event, ClaudeSubprocess, EventRow, LiteLLMInvoker, PollStep, ProviderChoice, default_litellm_model_name, parse_response, resolve_provider};
use worklog_core::sources::{assistant_estimate_marker, assistant_source};
use worklog_core::estimate::{
    collect_literal_matches, dominant_project, fallback_block_minutes, is_unsynced, merge_plan,
    merged_span, outcome_of, project_name, should_estimate, EstimateBlock, EstimateOutcome, MergeRow,
    Reply,
    event_details_cap, extract_xml_tag, redact_code, round_up_minutes, strip_code_fences, trunc,
    validate_ticket, Candidate,
};

fn candidate(key: &str) -> Candidate {
    Candidate {
        key: key.into(),
        summary: "x".into(),
        status: None,
    }
}

#[test]
fn round_up_minutes_rounds_to_nearest_15() {
    assert_eq!(round_up_minutes(1), 15);
    assert_eq!(round_up_minutes(15), 15);
    assert_eq!(round_up_minutes(16), 30);
    assert_eq!(round_up_minutes(30), 30);
    assert_eq!(round_up_minutes(31), 45);
}

#[test]
fn round_up_minutes_treats_nonpositive_as_one() {
    assert_eq!(round_up_minutes(0), 15);
    assert_eq!(round_up_minutes(-40), 15);
}

#[test]
fn validate_ticket_accepts_candidates_only() {
    let candidates = vec![candidate("PROJ-1")];
    let literals = vec!["PROJ-2".to_string()];
    assert_eq!(
        validate_ticket(Some("PROJ-1"), &candidates, &literals).as_deref(),
        Some("PROJ-1")
    );
    assert_eq!(
        validate_ticket(Some("PROJ-2"), &candidates, &literals).as_deref(),
        Some("PROJ-2")
    );
    assert_eq!(validate_ticket(Some("FAKE-99"), &candidates, &literals), None);
    assert_eq!(validate_ticket(None, &candidates, &literals), None);
}

#[test]
fn validate_ticket_rejects_noise_literals_with_unknown_prefixes() {
    let candidates = vec![Candidate {
        key: "GOJ-1310".into(),
        summary: "real work".into(),
        status: None,
    }];
    for noise in ["CRIT-1", "UTF-8", "GPT-4", "SHA-256", "HIGH-2"] {
        let literals = vec![noise.to_string()];
        assert_eq!(
            validate_ticket(Some(noise), &candidates, &literals),
            None,
            "{noise} has no real project prefix — must be rejected"
        );
    }
    let literals = vec!["GOJ-9001".to_string()];
    assert_eq!(
        validate_ticket(Some("GOJ-9001"), &candidates, &literals).as_deref(),
        Some("GOJ-9001"),
    );
}

#[test]
fn validate_ticket_needs_the_literal_as_well_as_the_prefix() {
    let candidates = vec![candidate("GOJ-1")];
    assert_eq!(validate_ticket(Some("GOJ-2"), &candidates, &[]), None);
}

#[test]
fn redact_code_leaves_plain_prose_untouched() {
    let prose = "Fix the OAuth token refresh in the auth module";
    assert_eq!(redact_code(prose), prose);
}

#[test]
fn redact_code_collapses_task_notifications_to_their_summary() {
    let notif = "<task-notification><task-id>abc</task-id>\
         <summary>Agent \"PR #39 security review\" completed</summary>\
         <result>{\"file\": \"handler.py\", \"line\": 50, \
         \"code\": \"def handler(event): return secret\"}</result>\
         </task-notification>";
    let got = redact_code(notif);
    assert_eq!(
        got,
        "background task: Agent \"PR #39 security review\" completed"
    );
    assert!(!got.contains("def handler"), "result code must be gone");
    assert!(!got.contains("handler.py"), "result paths must be gone");
}

#[test]
fn redact_code_without_summary_reports_completion() {
    assert_eq!(
        redact_code("<task-notification><result>x</result></task-notification>"),
        "background task completed"
    );
}

#[test]
fn redact_code_strips_fenced_code_blocks() {
    let pasted = "look at this bug:\n```rust\nfn leak() { dbg!(secret); }\n```\nwhy?";
    let got = redact_code(pasted);
    assert!(got.contains("look at this bug"));
    assert!(got.contains("why?"));
    assert!(got.contains("[code omitted]"));
    assert!(!got.contains("secret"), "fenced code must not survive");
}

#[test]
fn redact_code_drops_an_unterminated_fence_entirely() {
    let got = redact_code("debugging:\n```python\nAPI_KEY = 'sk-live-xyz'");
    assert!(got.contains("debugging"));
    assert!(
        !got.contains("sk-live-xyz"),
        "unterminated fence must be dropped"
    );
}

#[test]
fn redact_code_drops_bare_transcript_paths() {
    let path = format!(
        "/Users/x/.{}/projects/-Users-x-proj/abc-123.jsonl",
        assistant_source()
    );
    let path = path.as_str();
    assert_eq!(redact_code(path), "");
    let prose = "wrote results to output.jsonl for the report";
    assert_eq!(redact_code(prose), prose);
}

#[test]
fn strip_code_fences_handles_two_blocks() {
    assert_eq!(
        strip_code_fences("a```x```b```y```c"),
        "a[code omitted]b[code omitted]c"
    );
    assert_eq!(strip_code_fences("no fences"), "no fences");
}

#[test]
fn extract_xml_tag_reads_the_first_tag() {
    assert_eq!(
        extract_xml_tag("x<summary>one</summary><summary>two</summary>", "summary").as_deref(),
        Some("one")
    );
    assert_eq!(extract_xml_tag("<summary>open", "summary"), None);
}

#[test]
fn details_cap_depends_on_source() {
    assert_eq!(event_details_cap(&assistant_source()), 800);
    assert_eq!(event_details_cap("gcal"), 200);
    assert_eq!(trunc(&"g".repeat(500), 200).chars().count(), 200);
    assert_eq!(trunc("héllo", 2), "hé");
    assert_eq!(trunc("ab", 10), "ab");
}

fn row(jira: Option<&str>, estimated_by: Option<&str>, tempo: Option<&str>) -> MergeRow {
    MergeRow {
        jira_issue: jira.map(str::to_string),
        manual: estimated_by == Some("manual"),
        unsynced: is_unsynced(tempo),
    }
}

#[test]
fn merge_combines_adjacent_blocks_with_same_ticket() {
    let rows = vec![
        row(Some("GENAI-1"), Some("claude_p"), None),
        row(Some("GENAI-1"), Some("claude_p"), None),
    ];
    let plan = merge_plan(&rows);
    assert_eq!(plan, vec![(0, 1)]);
    let span = merged_span(
        "2026-05-12T09:00:00+00:00",
        "2026-05-12T09:30:00+00:00",
        "2026-05-12T09:31:00+00:00",
        "2026-05-12T10:00:00+00:00",
    );
    assert_eq!(span.0, "2026-05-12T09:00:00+00:00");
    assert_eq!(span.1, "2026-05-12T10:00:00+00:00");
}

#[test]
fn merge_leaves_different_tickets_alone() {
    let rows = vec![
        row(Some("GENAI-1"), Some("claude_p"), None),
        row(Some("GOJ-2"), Some("claude_p"), None),
    ];
    assert!(merge_plan(&rows).is_empty());
}

#[test]
fn merge_skips_manual_blocks() {
    let rows = vec![
        row(Some("GENAI-1"), Some("manual"), None),
        row(Some("GENAI-1"), Some("claude_p"), None),
    ];
    assert!(merge_plan(&rows).is_empty(), "manual blocks must not be merged");
}

#[test]
fn merge_skips_synced_blocks() {
    let rows = vec![
        row(Some("GENAI-1"), Some("claude_p"), Some("12345")),
        row(Some("GENAI-1"), Some("claude_p"), None),
    ];
    assert!(merge_plan(&rows).is_empty(), "synced blocks must not be merged");
}

#[test]
fn merge_chains_three_same_ticket_blocks() {
    let rows = vec![
        row(Some("GENAI-1"), Some("claude_p"), None),
        row(Some("GENAI-1"), Some("claude_p"), None),
        row(Some("GENAI-1"), Some("claude_p"), None),
    ];
    let plan = merge_plan(&rows);
    assert_eq!(plan.len(), 2, "three same-ticket blocks collapse to one");
    assert_eq!(plan, vec![(0, 1), (0, 2)]);
}

#[test]
fn merge_restarts_after_a_block_it_cannot_take() {
    let rows = vec![
        row(Some("A-1"), None, None),
        row(Some("B-2"), None, None),
        row(Some("B-2"), None, None),
        row(None, None, None),
    ];
    assert_eq!(merge_plan(&rows), vec![(1, 2)]);
    assert!(is_unsynced(Some("   ")));
    assert!(!is_unsynced(Some("77")));
}

#[test]
fn collect_literal_matches_dedupes_keys_across_events() {
    // Each event contributes its title, then its details.
    let blobs = vec![
        Some("PROJ-1 fix".to_string()),
        None,
        None,
        Some("see PROJ-1 and PROJ-2".to_string()),
    ];
    let got = collect_literal_matches(&blobs);
    assert_eq!(got, vec!["PROJ-1".to_string(), "PROJ-2".to_string()]);
}

#[test]
fn dominant_project_and_its_name() {
    let paths = vec![
        Some("/w/a".to_string()),
        None,
        Some("/w/b".to_string()),
        Some("/w/b".to_string()),
    ];
    assert_eq!(dominant_project(&paths).as_deref(), Some("/w/b"));
    assert_eq!(dominant_project(&vec![None, None]), None);
    assert_eq!(project_name("/Users/x/Desktop/Work/sjukra"), "sjukra");
}

#[test]
fn fallback_minutes_round_the_span_up() {
    assert_eq!(fallback_block_minutes(0), 1);
    assert_eq!(fallback_block_minutes(16 * 60), 16);
    assert_eq!(fallback_block_minutes(-120), 1);
}

fn block(jira: Option<&str>, estimated_by: Option<&str>, is_personal: bool) -> EstimateBlock {
    EstimateBlock {
        id: 1,
        started_at: "2026-04-18T09:00:00+00:00".into(),
        ended_at: "2026-04-18T09:30:00+00:00".into(),
        jira_issue: jira.map(str::to_string),
        estimated_by: estimated_by.map(str::to_string),
        is_personal,
    }
}

fn reply(jira: Option<&str>, minutes: i64, description: &str) -> Option<Reply> {
    Some(Reply {
        jira_issue: jira.map(str::to_string),
        description: Some(description.to_string()),
        minutes: Some(minutes),
    })
}

fn cached(key: &str) -> Candidate {
    Candidate { key: key.into(), summary: "Real ticket".into(), status: Some("In Progress".into()) }
}

#[test]
fn estimate_updates_block_on_success() {
    assert!(should_estimate(&block(None, None, false)));
    let o = outcome_of(reply(Some("PROJ-1"), 30, "Implement auth refresh"), None, 30, &[cached("PROJ-1")], &[]);
    assert_eq!(
        o,
        EstimateOutcome::Update {
            description: "Implement auth refresh".into(),
            minutes: 30,
            ticket: Some("PROJ-1".into()),
        }
    );
}

#[test]
fn estimate_skips_manual_blocks() {
    assert!(!should_estimate(&block(Some("PROJ-7"), Some("manual"), false)), "manual block must be skipped");
}

#[test]
fn estimate_marks_gap_on_no_description() {
    assert_eq!(outcome_of(reply(None, 15, ""), None, 30, &[], &[]), EstimateOutcome::Gap);
    assert_eq!(outcome_of(reply(None, 15, "   "), None, 30, &[], &[]), EstimateOutcome::Gap);
    assert_eq!(outcome_of(None, None, 30, &[], &[]), EstimateOutcome::Gap);
}

#[test]
fn estimate_rejects_hallucinated_ticket() {
    let o = outcome_of(reply(Some("MADEUP-1"), 15, "work"), None, 30, &[], &[]);
    assert_eq!(o, EstimateOutcome::Update { description: "work".into(), minutes: 15, ticket: None });
}

#[test]
fn estimate_skips_personal_blocks() {
    assert!(!should_estimate(&block(None, None, true)));
}

#[test]
fn estimate_drops_inferred_ticket_when_not_in_candidates() {
    let o = outcome_of(reply(None, 30, "Work"), Some("FINDING-01"), 30, &[], &[]);
    assert_eq!(o, EstimateOutcome::Update { description: "Work".into(), minutes: 30, ticket: None });
}

#[test]
fn estimate_keeps_inferred_ticket_when_it_is_a_real_candidate() {
    let o = outcome_of(reply(None, 30, "Work"), Some("GENAI-1"), 30, &[cached("GENAI-1")], &[]);
    assert_eq!(
        o,
        EstimateOutcome::Update { description: "Work".into(), minutes: 30, ticket: Some("GENAI-1".into()) }
    );
}

#[test]
fn estimate_skips_already_estimated_blocks() {
    assert!(!should_estimate(&block(None, Some(&assistant_estimate_marker()), false)));
    assert!(should_estimate(&block(None, Some("gap"), false)));
}

#[test]
fn estimate_minutes_fall_back_to_the_span_and_round_up() {
    let r = Some(Reply { jira_issue: None, description: Some("x".into()), minutes: None });
    assert_eq!(outcome_of(r, None, 31, &[], &[]), EstimateOutcome::Update { description: "x".into(), minutes: 45, ticket: None });
}

#[test]
fn litellm_invoker_new_strips_trailing_v1_from_base_url() {
    let a = LiteLLMInvoker::new("http://localhost:4000", "k", "m").ok().unwrap();
    let b = LiteLLMInvoker::new("http://localhost:4000/v1", "k", "m").ok().unwrap();
    let c = LiteLLMInvoker::new("http://localhost:4000/v1/", "k", "m").ok().unwrap();
    assert_eq!(a.endpoint(), "http://localhost:4000/v1/chat/completions");
    assert_eq!(b.endpoint(), "http://localhost:4000/v1/chat/completions");
    assert_eq!(c.endpoint(), "http://localhost:4000/v1/chat/completions");
}

#[test]
fn litellm_invoker_new_rejects_non_http_scheme() {
    let err = LiteLLMInvoker::new("file:///etc/passwd", "k", "m").err().expect("non-http scheme must error");
    assert!(err.contains("http://") && err.contains("https://"), "error must name the valid schemes: {err}");
    assert!(err.contains("`file:///etc/passwd`"));
}

#[test]
fn litellm_invoker_resolve_model_treats_whitespace_as_empty() {
    let inv = LiteLLMInvoker::new("http://localhost:4000", "k", "anthropic/x").ok().unwrap();
    assert_eq!(inv.resolve_model(""), "anthropic/x");
    assert_eq!(inv.resolve_model("   "), "anthropic/x");
    assert_eq!(inv.resolve_model("\t\n "), "anthropic/x");
    assert_eq!(inv.resolve_model("openai/gpt-4o"), "openai/gpt-4o");
    assert_eq!(inv.configured_model(), "anthropic/x");
}

#[test]
fn resolve_provider_defaults_to_claude_subprocess_when_nothing_set() {
    assert!(matches!(resolve_provider(None, None, None, None, None), Ok(ProviderChoice::ClaudeSubprocess)));
    assert!(matches!(resolve_provider(Some("  "), Some(""), None, None, None), Ok(ProviderChoice::ClaudeSubprocess)));
    assert!(matches!(resolve_provider(Some(" Subprocess "), None, None, None, None), Ok(ProviderChoice::ClaudeSubprocess)));
}

#[test]
fn resolve_provider_picks_litellm_when_env_says_so_and_url_present() {
    match resolve_provider(Some("LiteLLM"), None, Some("http://localhost:4000"), None, None) {
        Ok(ProviderChoice::LiteLLM(inv)) => {
            assert!(inv.endpoint().starts_with("http://localhost:4000"));
            assert!(inv.endpoint().ends_with("/v1/chat/completions"));
            assert_eq!(inv.configured_model(), default_litellm_model_name());
            assert_eq!(inv.api_key, "");
        }
        _ => panic!("expected LiteLLM"),
    }
}

#[test]
fn resolve_provider_errors_when_litellm_selected_but_url_missing() {
    let err = resolve_provider(Some("litellm"), None, Some("   "), None, None).err().unwrap();
    assert!(err.contains("litellm_base_url"), "err should name the missing key: {err}");
    assert!(err.contains("worklog setup") || err.contains("worklog secret set"));
}

#[test]
fn resolve_provider_reads_secret_when_env_unset() {
    let choice = resolve_provider(None, Some("litellm"), Some("http://localhost:4000"), Some("key"), Some("m"));
    match choice {
        Ok(ProviderChoice::LiteLLM(inv)) => {
            assert_eq!(inv.api_key, "key");
            assert_eq!(inv.configured_model(), "m");
        }
        _ => panic!("expected LiteLLM"),
    }
    // The environment wins over the stored choice.
    assert!(matches!(
        resolve_provider(Some("subprocess"), Some("litellm"), Some("http://x"), None, None),
        Ok(ProviderChoice::ClaudeSubprocess)
    ));
}

#[test]
fn resolve_provider_errors_on_unknown_provider_string() {
    let err = resolve_provider(Some("openai_direct"), None, None, None, None).err().unwrap();
    assert!(err.contains("openai_direct") && err.contains("unknown"), "{err}");
}

#[test]
fn subprocess_is_run_with_the_schema_and_system_prompt() {
    assert_eq!(ClaudeSubprocess::program(), assistant_source());
    let args = ClaudeSubprocess::args("haiku", "{}", "sys");
    assert_eq!(
        args,
        vec!["-p", "--model", "haiku", "--output-format", "json", "--json-schema", "{}", "--system-prompt", "sys"]
    );
}

#[test]
fn subprocess_polls_wait_fail_or_time_out() {
    let a = assistant_source();
    assert_eq!(ClaudeSubprocess::poll(None, "", 60), PollStep::Wait);
    assert_eq!(ClaudeSubprocess::poll(None, "", 61), PollStep::TimedOut(format!("{a} -p timed out after 60s")));
    assert_eq!(ClaudeSubprocess::poll(Some((true, Some(0))), "noise", 5), PollStep::Done);
    assert_eq!(
        ClaudeSubprocess::poll(Some((false, Some(2))), "bad flag", 5),
        PollStep::Failed(format!("{a} -p exited 2 — bad flag"))
    );
    assert_eq!(
        ClaudeSubprocess::poll(Some((false, None)), "", 5),
        PollStep::Failed(format!("{a} -p exited -1 — "))
    );
    let long = "e".repeat(600);
    match ClaudeSubprocess::poll(Some((false, Some(1))), &long, 5) {
        PollStep::Failed(m) => assert!(m.ends_with(&"e".repeat(500)) && !m.ends_with(&"e".repeat(501))),
        other => panic!("{other:?}"),
    }
}

fn reply_value(raw: &str) -> serde_json::Value {
    let text = parse_response(raw).unwrap();
    serde_json::from_str(&text).unwrap()
}

#[test]
fn parse_response_handles_raw_object() {
    let v = reply_value(r#"{"jira_issue":"PROJ-1","minutes":30,"description":"x"}"#);
    assert_eq!(v["jira_issue"], "PROJ-1");
}

#[test]
fn parse_response_prefers_structured_output_over_prose_result() {
    let v = reply_value(
        r#"{
          "type": "result",
          "result": "Done. Worklog entry created for PROJ-1.",
          "structured_output": {
            "jira_issue": "PROJ-1",
            "minutes": 30,
            "description": "x"
          }
        }"#,
    );
    assert_eq!(v["jira_issue"], "PROJ-1");
    assert_eq!(v["minutes"], 30);
}

#[test]
fn parse_response_handles_envelope_with_string() {
    let v = reply_value(r#"{"result":"{\"jira_issue\":\"X-1\",\"minutes\":5,\"description\":\"x\"}"}"#);
    assert_eq!(v["jira_issue"], "X-1");
}

#[test]
fn parse_response_handles_envelope_with_object() {
    let v = reply_value(r#"{"result": {"jira_issue": "Z-9", "minutes": 15, "description": "x"}}"#);
    assert_eq!(v["jira_issue"], "Z-9");
}

#[test]
fn parse_response_handles_prose_wrapped_json() {
    let v = reply_value("Here you go: {\"jira_issue\": \"P-1\", \"minutes\": 5, \"description\": \"hi\"}");
    assert_eq!(v["jira_issue"], "P-1");
}

#[test]
fn parse_response_reports_missing_or_broken_json() {
    assert_eq!(parse_response("no json here"), Err("no JSON object in response".to_string()));
    assert_eq!(parse_response("} backwards {"), Err("no JSON object in response".to_string()));
    assert_eq!(parse_response("see {not json}"), Err("embedded JSON invalid".to_string()));
    // A prose `result` falls through to the embedded object.
    let v = reply_value(r#"{"result": "prose"}"#);
    assert_eq!(v["result"], "prose");
}

fn event_row(source: &str, title: &str, details: Option<String>, path: Option<&str>) -> EventRow {
    EventRow {
        source: source.into(),
        started_at: "2026-04-18T09:05:00+00:00".into(),
        title: Some(title.into()),
        details,
        jira_issue: None,
        project_path: path.map(str::to_string),
    }
}

#[test]
fn build_user_message_preserves_long_claude_details_but_trims_others() {
    let assistant_event = event_row(&assistant_source(), "UserPromptSubmit — fix auth", Some("c".repeat(500)), None);
    let github_event = event_row("github_commit", "Initial commit", Some("g".repeat(500)), None);
    let msg = build_user_message(30, None, &vec![assistant_event, github_event], vec![], vec![]);
    let d0 = msg.events[0].details.as_deref().unwrap();
    assert_eq!(d0.chars().count(), 500, "the assistant's event keeps all 500 chars (cap 800)");
    let d1 = msg.events[1].details.as_deref().unwrap();
    assert_eq!(d1.chars().count(), 200, "other events stay at the 200-char cap");
    assert_eq!(msg.block_duration_minutes, 30);
    assert_eq!(msg.project_path, None);
}

#[test]
fn the_estimator_never_sees_code_and_learns_the_dominant_project() {
    let code = "look:\n```rust\nfn leak() {}\n```\nwhy?".to_string();
    let e = event_row("github_commit", "PROJ-1 fix", Some(code), Some("/w/Work/api"));
    let p = prompt_event(&e);
    assert_eq!(p.summary, "PROJ-1 fix");
    assert!(!p.details.as_deref().unwrap().contains("leak"));
    assert_eq!(p.project.as_deref(), Some("api"));
    let blank = event_row("shell", "", Some("   ".into()), None);
    assert_eq!(prompt_event(&blank).details, None);
    let msg = build_user_message(
        12,
        Some("PROJ-1".into()),
        &vec![e.clone(), event_row("shell", "x", None, Some("/w/Work/web")), e],
        vec![],
        vec!["PROJ-1".into()],
    );
    assert_eq!(msg.project_path.as_deref(), Some("/w/Work/api"));
    assert_eq!(msg.project_name.as_deref(), Some("api"));
    assert_eq!(msg.inferred_jira_issue.as_deref(), Some("PROJ-1"));
    assert_eq!(msg.literal_matches, vec!["PROJ-1".to_string()]);
}

#[test]
fn litellm_system_message_carries_the_schema() {
    assert_eq!(
        LiteLLMInvoker::system_with_schema("Be brief.", "{\"type\":\"object\"}"),
        "Be brief.\n\nRespond ONLY with JSON matching this schema:\n{\"type\":\"object\"}"
    );
}

#[test]
fn litellm_reply_bodies_are_capped() {
    assert_eq!(MAX_RESPONSE_BYTES, 1024 * 1024);
    assert!(!body_too_large(1024 * 1024));
    assert!(body_too_large(1024 * 1024 + 1));
    let long = "é".repeat(600);
    assert_eq!(bounded_body_preview(&long).chars().count(), 500);
    assert_eq!(bounded_body_preview("short"), "short");
}

#[test]
fn stripping_fences_twice_changes_nothing() {
    for raw in ["a```x```b```y```c", "keep ``` this", "``` ``` ```", "``````", "plain", "a````b````c"] {
        let once = strip_code_fences(raw);
        assert!(!once.contains("```"), "{raw:?} -> {once:?}");
        assert_eq!(strip_code_fences(&once), once);
    }
}

#[test]
fn a_task_summary_that_quotes_code_is_redacted_once_and_for_all() {
    let once = redact_code("<task-notification><summary>```x```</summary></task-notification>");
    assert_eq!(once, "background task: [code omitted]");
    assert_eq!(redact_code(&once), once);
}

#[test]
fn block_span_reads_stored_timestamps() {
    let now = (1_800_000_000i64, 0u32);
    assert_eq!(worklog_core::estimate::span_seconds("2026-04-18T09:00:00+00:00", "2026-04-18T09:45:30+00:00", now), 2730);
    assert_eq!(worklog_core::estimate::span_seconds("2026-04-18T09:00:00.900Z", "2026-04-18T09:00:02.100Z", now), 1);
    assert_eq!(worklog_core::estimate::span_seconds("2026-04-18T09:00:02.100Z", "2026-04-18T09:00:00.900Z", now), -1);
    // An unreadable end counts as now.
    assert_eq!(worklog_core::estimate::span_seconds("1970-01-01T00:00:00Z", "garbage", (60, 0)), 60);
}

#[test]
fn estimate_block_endpoint_returns_404_for_missing_block() {
    let r = worklog_core::estimate::estimate_precheck(9999, None);
    match r {
        Err(e) => {
            assert_eq!(e.status(), 404);
            assert_eq!(e.message(), "block 9999 not found");
        }
        Ok(_) => panic!("a missing block must be refused"),
    }
}

#[test]
fn estimate_block_endpoint_returns_400_for_personal_block() {
    let r = worklog_core::estimate::estimate_precheck(7, Some((7, true)));
    match r {
        Err(e) => {
            assert_eq!(e.status(), 400);
            assert!(e.message().contains("personal"), "error body must mention personal: {}", e.message());
            assert_eq!(
                e.message(),
                "block 7 is personal — toggle it back to work before re-describing it"
            );
        }
        Ok(_) => panic!("a personal block must be refused"),
    }
    assert_eq!(worklog_core::estimate::estimate_precheck(-3, Some((-3, false))).ok(), Some(-3));
}

#[test]
fn every_block_of_a_run_is_counted_once() {
    let mut stats = EstimateStats::default();
    count_block(&mut stats, &None);
    count_block(&mut stats, &Some(EstimateOutcome::Gap));
    count_block(
        &mut stats,
        &Some(EstimateOutcome::Update { description: "Review PR".into(), minutes: 30, ticket: None }),
    );
    count_block(&mut stats, &None);
    assert_eq!(stats, EstimateStats { estimated: 1, skipped: 2, failed: 1 });
}

#[test]
fn a_second_redaction_pass_changes_nothing() {
    let inputs = [
        "plain prose, nothing to hide",
        "before ```let x = 1;``` after ```y``` end",
        "open fence ```never closed",
        "  /tmp/session.jsonl  ",
        "<task-notification><summary>  built ```code``` ok </summary></task-notification>",
        "<task-notification>no summary here</task-notification>",
        "   ",
    ];
    for raw in inputs {
        let once = worklog_core::estimate::redact_code(raw);
        assert_eq!(worklog_core::estimate::redact_code(&once), once, "input: {raw}");
    }
}
