use worklog_core::routing::{
    absorb_target, brackets, check_label_folder, domain_of, folder_path, kind_matches, matching_rule,
    narrowed_options, route_stats, rule_pattern, rule_targets, split_pending, FolderPin, RouteRow, Rule, RuleKind,
};

fn row(source: &str, title: &str, details: Option<&str>, container: Option<&str>) -> RouteRow {
    RouteRow {
        id: 1,
        source: source.into(),
        title: title.into(),
        details: details.map(str::to_string),
        container: container.map(str::to_string),
    }
}

const MIN: i128 = 60_000_000_000;

#[test]
fn domain_is_the_lowercased_host() {
    assert_eq!(domain_of("https://GitHub.com/org/repo?x=1").as_deref(), Some("github.com"));
    assert_eq!(domain_of("http://user@host.example:8080/path").as_deref(), Some("host.example"));
    assert_eq!(domain_of("example.org/page").as_deref(), Some("example.org"));
    assert_eq!(domain_of("https:///nothing"), None);
}

#[test]
fn rules_match_by_kind() {
    let ff = row("firefox", "page", Some("https://jira.example.com/browse/X-1"), Some("work"));
    assert!(kind_matches(RuleKind::Domain, "jira.example.com", &ff));
    assert!(!kind_matches(RuleKind::Domain, "example.com", &ff));
    assert!(kind_matches(RuleKind::Container, "work", &ff));
    let sl = row("slack", "#deploys", None, None);
    assert!(kind_matches(RuleKind::SlackChannel, "#deploys", &sl));
    assert!(!kind_matches(RuleKind::SlackChannel, "#deploys", &ff));
    assert!(!kind_matches(RuleKind::Container, "work", &sl));
}

#[test]
fn the_first_matching_rule_wins() {
    let rules = vec![
        Rule { id: 1, kind: RuleKind::SlackChannel, pattern: "#x".into(), folder: "a".into() },
        Rule { id: 2, kind: RuleKind::Container, pattern: "work".into(), folder: "b".into() },
        Rule { id: 3, kind: RuleKind::Domain, pattern: "jira.example.com".into(), folder: "c".into() },
    ];
    let ff = row("firefox", "page", Some("https://jira.example.com/"), Some("work"));
    assert_eq!(matching_rule(&rules, &ff).as_deref(), Some("b"));
    let other = row("firefox", "page", Some("https://news.example/"), None);
    assert_eq!(matching_rule(&rules, &other), None);
}

#[test]
fn label_event_relabels_a_noise_event() {
    let keys = vec!["sjukra".to_string(), "lyf".to_string()];
    assert_eq!(check_label_folder("  sjukra ", &keys).as_deref(), Ok("sjukra"));
    assert_eq!(check_label_folder("gone", &keys), Err("Project no longer exists".to_string()));
    assert_eq!(check_label_folder("   ", &keys), Err("Project no longer exists".to_string()));
}

#[test]
fn always_rule_patterns_are_read_off_the_event() {
    let ff = row("firefox", "page", Some("https://Docs.Example.com/a"), None);
    assert_eq!(rule_pattern(&ff, RuleKind::Domain).as_deref(), Ok("docs.example.com"));
    assert_eq!(
        rule_pattern(&ff, RuleKind::Container),
        Err("event has no container to key a rule on".to_string())
    );
    let sl = row("slack", "#chan", None, Some("acme"));
    assert_eq!(rule_pattern(&sl, RuleKind::SlackChannel).as_deref(), Ok("#chan"));
    assert_eq!(rule_pattern(&sl, RuleKind::Container).as_deref(), Ok("acme"));
    assert_eq!(
        rule_pattern(&sl, RuleKind::Domain),
        Err("event has no URL to key a domain rule on".to_string())
    );
    let s = route_stats(3, 4);
    assert_eq!((s.rules_applied, s.guesses_applied), (3, 4));
}

#[test]
fn edge_activity_on_one_side_only_is_not_absorbed() {
    let t = 1_000 * MIN;
    // 8:57 and 9:03 around a 9:00 event: inside a stretch.
    assert!(brackets(t, &vec![t - 3 * MIN, t + 3 * MIN]));
    // Work only before: at the edge.
    assert!(!brackets(t, &vec![t - 3 * MIN, t - 1 * MIN]));
    // Work only after.
    assert!(!brackets(t, &vec![t + 2 * MIN]));
    // Too far on one side.
    assert!(!brackets(t, &vec![t - 6 * MIN, t + 2 * MIN]));
    // Work at the very instant brackets it from both sides.
    assert!(brackets(t, &vec![t]));
}

fn pin(folder: &str, customer: Option<&str>) -> FolderPin {
    FolderPin { folder: folder.into(), customer: customer.map(str::to_string) }
}

#[test]
fn a_named_customer_narrows_options_to_its_pinned_folders() {
    let pins = vec![pin("acme-web", Some("Acme")), pin("globex", Some("Globex")), pin("acme-api", Some("Acme")), pin("misc", None)];
    let all: Vec<String> = vec!["acme-web".into(), "globex".into(), "acme-api".into(), "misc".into()];
    assert_eq!(narrowed_options(&pins, Some("Acme"), &all), vec!["acme-web".to_string(), "acme-api".to_string()]);
    assert_eq!(narrowed_options(&pins, Some("Initech"), &all), Vec::<String>::new());
    assert_eq!(narrowed_options(&pins, None, &all), all);
}

#[test]
fn folder_path_joins_the_work_prefix() {
    assert_eq!(folder_path(Some("/home/me/work"), "acme"), "/home/me/work/acme");
    assert_eq!(folder_path(None, "acme"), "acme");
}

#[test]
fn an_event_inside_a_stretch_joins_the_dominant_project_else_noise() {
    let options: Vec<String> = vec!["acme".into(), "globex".into()];
    let activity = vec![10 * MIN, 14 * MIN];
    assert_eq!(absorb_target(12 * MIN, &activity, Some("acme".into()), &options), Some("acme".to_string()));
    // dominant project not among the options
    assert_eq!(absorb_target(12 * MIN, &activity, Some("initech".into()), &options), None);
    // activity only on one side: the edge of a stretch, not inside it
    assert_eq!(absorb_target(20 * MIN, &activity, Some("acme".into()), &options), None);
    assert_eq!(absorb_target(12 * MIN, &activity, None, &options), None);
}

fn row_id(id: i64, source: &str, title: &str, details: Option<&str>) -> RouteRow {
    RouteRow { id, ..row(source, title, details, None) }
}

#[test]
fn rules_settle_what_they_match_and_the_rest_waits_for_a_guess() {
    let rules = vec![
        Rule { id: 1, kind: RuleKind::Domain, pattern: "github.com".into(), folder: "acme".into() },
        Rule { id: 2, kind: RuleKind::SlackChannel, pattern: "ops".into(), folder: "globex".into() },
        Rule { id: 3, kind: RuleKind::Domain, pattern: "github.com".into(), folder: "later".into() },
    ];
    let rows = vec![
        row_id(10, "firefox", "PR", Some("https://GitHub.com/a/b")),
        row_id(11, "firefox", "news", Some("https://news.example")),
        row_id(12, "slack", "ops", None),
        row_id(13, "slack", "random", None),
    ];
    let (hits, waiting) = split_pending(&rules, &rows);
    assert_eq!(hits, vec![(10, "acme".to_string()), (12, "globex".to_string())]);
    assert_eq!(waiting, vec![1, 3]);
}

#[test]
fn a_fresh_rule_targets_every_matching_event() {
    let rows = vec![
        row_id(1, "slack", "ops", None),
        row_id(2, "firefox", "ops", Some("https://ops.example")),
        row_id(3, "slack", "ops", None),
        row_id(4, "slack", "dev", None),
    ];
    assert_eq!(rule_targets(RuleKind::SlackChannel, "ops", &rows), vec![1, 3]);
    assert_eq!(rule_targets(RuleKind::Domain, "ops.example", &rows), vec![2]);
    assert!(rule_targets(RuleKind::Container, "x", &rows).is_empty());
}
