use worklog_core::api::{
    check_external_ticket, check_search, clean_globs, deild_bad_request, default_dry_run, estimate_model,
    invalid_day, is_sensitive_secret, plan_new_issue, setting_field, tempo_id_to_delete, tenant_bad_request,
    ApiError, CreateTicketBody, EstimateBody, SearchQuery,
};
use worklog_core::models::{Block, JiraTicket};

const KNOWN_KEYS: [&str; 8] = [
    "jira_email",
    "jira_api_token",
    "tempo_api_token",
    "github_token",
    "litellm_base_url",
    "litellm_api_key",
    "litellm_model",
    "slack_user_token",
];

#[test]
fn settings_view_masks_sensitive_secrets_and_lists_all_keys() {
    let view: Vec<_> = KNOWN_KEYS.iter().map(|k| setting_field(k, Some(format!("value-of-{k}")))).collect();
    assert_eq!(view.len(), KNOWN_KEYS.len());
    for f in &view {
        assert!(f.present);
        if f.sensitive {
            assert!(f.value.is_none(), "sensitive key {} must not echo its value", f.key);
        }
    }
    let token = view.iter().find(|f| f.key == "jira_api_token").unwrap();
    assert!(token.sensitive, "api token must be sensitive");
    let email = view.iter().find(|f| f.key == "jira_email").unwrap();
    assert!(!email.sensitive, "email is not a secret value");
    assert_eq!(email.value.as_deref(), Some("value-of-jira_email"));
    let slack_token = view.iter().find(|f| f.key == "slack_user_token").unwrap();
    assert!(slack_token.sensitive, "slack user token must be sensitive");
    assert!(slack_token.value.is_none(), "slack user token must not echo its value");
    let empty = setting_field("jira_email", Some(String::new()));
    assert!(!empty.present && empty.value.is_none());
    assert!(!is_sensitive_secret("litellm_model"));
}

#[test]
fn api_errors_map_to_statuses() {
    assert_eq!(ApiError::bad_request("x").status(), 400);
    assert_eq!(ApiError::NotFound("x".into()).status(), 404);
    assert_eq!(ApiError::Forbidden("x".into()).status(), 403);
    assert_eq!(ApiError::Internal("boom".into()).status(), 500);
    assert_eq!(ApiError::bad_request("why").message(), "why");
}

#[test]
fn tenant_and_department_errors_split_client_mistakes_from_failures() {
    assert_eq!(tenant_bad_request("Share must be above 0".into()), ApiError::BadRequest("Share must be above 0".into()));
    assert_eq!(tenant_bad_request("disk full".into()), ApiError::Internal("disk full".into()));
    assert_eq!(
        deild_bad_request("deild name must not be empty".into()),
        ApiError::BadRequest("deild name must not be empty".into())
    );
    assert_eq!(
        deild_bad_request("X already exists for customer 3".into()),
        ApiError::BadRequest("X already exists for customer 3".into())
    );
    assert_eq!(deild_bad_request("locked".into()), ApiError::Internal("locked".into()));
    assert!(default_dry_run());
}

#[test]
fn request_checks() {
    assert_eq!(clean_globs(vec![" ~/a/** ".into(), "".into(), "   ".into(), "/b".into()]), vec!["~/a/**", "/b"]);
    assert_eq!(check_search(&SearchQuery { q: "  auth ".into(), limit: None }).unwrap(), "auth");
    assert_eq!(
        check_search(&SearchQuery { q: " ".into(), limit: Some(5) }).unwrap_err(),
        ApiError::BadRequest("query parameter `q` is required".into())
    );
    let t = JiraTicket {
        key: " ".into(),
        summary: "s".into(),
        status: None,
        project_key: None,
        updated: None,
        issue_id: None,
    };
    assert_eq!(check_external_ticket(&t), Err(ApiError::BadRequest("ticket `key` is required".into())));
    assert_eq!(invalid_day("2026-13-01", "bad month"), ApiError::BadRequest("invalid day `2026-13-01`: bad month".into()));
    let b = EstimateBody { day: "2026-04-18".into(), model: None };
    assert_eq!(estimate_model(&b, "m0"), "m0");
    let b = EstimateBody { day: "2026-04-18".into(), model: Some("m1".into()) };
    assert_eq!(estimate_model(&b, "m0"), "m1");
}

fn body(project: &str, summary: &str, account: Option<&str>, kind: Option<&str>) -> CreateTicketBody {
    CreateTicketBody {
        project_key: project.into(),
        summary: summary.into(),
        account_id: account.map(str::to_string),
        description: Some("d".into()),
        issue_type: kind.map(str::to_string),
    }
}

#[test]
fn create_ticket_requires_a_place_for_the_account() {
    let ok = plan_new_issue(&body(" GEN ", " Fix it ", None, None), None).unwrap();
    assert_eq!(ok.project_key, "GEN");
    assert_eq!(ok.summary, "Fix it");
    assert_eq!(ok.issue_type, "Task");
    assert_eq!(ok.account_value, None);
    let ok = plan_new_issue(&body("GEN", "x", Some(" 42 "), Some("Bug")), Some("customfield_10100".into())).unwrap();
    assert_eq!(ok.account_field_id.as_deref(), Some("customfield_10100"));
    assert_eq!(ok.account_value.as_deref(), Some("42"));
    assert_eq!(ok.issue_type, "Bug");
    let e = plan_new_issue(&body("GEN", "x", Some("42"), None), None).unwrap_err();
    assert!(e.message().contains("jira_account_field_id"));
    assert_eq!(
        plan_new_issue(&body(" ", "x", None, None), None).unwrap_err(),
        ApiError::BadRequest("`project_key` is required".into())
    );
    assert_eq!(
        plan_new_issue(&body("GEN", "", None, None), None).unwrap_err(),
        ApiError::BadRequest("`summary` is required".into())
    );
}

#[test]
fn deleting_a_synced_block_removes_its_worklog() {
    let mut b = Block {
        id: 1,
        day: "2026-04-18".into(),
        jira_issue: None,
        started_at: "2026-04-18T09:00:00+00:00".into(),
        ended_at: "2026-04-18T09:30:00+00:00".into(),
        duration_seconds: 1800,
        description: None,
        estimated_by: None,
        flagged: false,
        tempo_worklog_id: Some(" 991 ".into()),
        is_personal: false,
        dirty: false,
        exported_at: None,
    };
    assert_eq!(tempo_id_to_delete(&b).as_deref(), Some("991"));
    b.tempo_worklog_id = Some("  ".into());
    assert_eq!(tempo_id_to_delete(&b), None);
}
