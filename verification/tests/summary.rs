use worklog_core::sources::assistant_source;
use worklog_core::summary::{folder_vote, total_seconds, VoteRow};

/// A worktree path under the assistant's worktree directory.
fn wt(project: &str, branch: &str) -> String {
    format!("/home/u/Desktop/Work/{project}/.{}/worktrees/{branch}", assistant_source())
}

/// One `(project_path, repo)` group with `n` events; `folder` is what the
/// path folds to.
fn row(path: Option<&str>, repo: Option<&str>, n: i64, folder: Option<&str>) -> VoteRow {
    VoteRow {
        project_path: path.map(str::to_string),
        repo: repo.map(str::to_string),
        n,
        folder: folder.map(str::to_string),
    }
}

#[test]
fn day_summary_reports_dominant_project_path_per_block() {
    let rows = vec![
        row(Some("/home/u/work/api"), None, 2, Some("api")),
        row(Some("/home/u/work/web"), None, 1, Some("web")),
    ];
    let (_, path) = folder_vote(&rows);
    assert_eq!(path.as_deref(), Some("/home/u/work/api"));
}

#[test]
fn day_summary_project_path_agrees_with_billing_folder_vote() {
    let (a, b, c) = (wt("lyf", "a"), wt("lyf", "b"), wt("genai", "c"));
    let rows = vec![
        row(Some(&a), None, 3, Some("lyf")),
        row(Some(&b), None, 2, Some("lyf")),
        row(Some(&c), None, 4, Some("genai")),
    ];
    let (folder, path) = folder_vote(&rows);
    assert_eq!(folder.as_deref(), Some("lyf"));
    assert_eq!(path.as_deref(), Some(a.as_str()));
}

#[test]
fn day_summary_project_path_agrees_when_repo_folder_wins() {
    let rows = vec![
        row(None, Some("org/AcmeBackend"), 6, None),
        row(Some("/home/u/Desktop/Work/acme/backend"), None, 5, Some("backend")),
    ];
    let (folder, path) = folder_vote(&rows);
    assert_eq!(folder.as_deref(), Some("AcmeBackend"));
    assert_eq!(path, None);
}

#[test]
fn day_summary_project_path_agrees_when_claude_folder_wins() {
    let rows = vec![
        row(None, Some("org/AcmeBackend"), 5, None),
        row(Some("/home/u/Desktop/Work/acme/backend"), None, 6, Some("backend")),
    ];
    let (folder, path) = folder_vote(&rows);
    assert_eq!(folder.as_deref(), Some("backend"));
    assert_eq!(path.as_deref(), Some("/home/u/Desktop/Work/acme/backend"));
}

#[test]
fn day_summary_project_path_is_none_without_cwd() {
    let rows: Vec<VoteRow> = vec![];
    assert_eq!(folder_vote(&rows), (None, None));
    // A row that resolves to no folder does not vote either.
    let rows = vec![row(None, Some("org/"), 3, None)];
    assert_eq!(folder_vote(&rows), (None, None));
}

#[test]
fn day_summary_project_reports_the_folded_billing_folder() {
    let path = wt("lyfjastofnun", "ci-on-codebuild");
    let rows = vec![row(Some(&path), None, 1, Some("lyfjastofnun"))];
    let (folder, p) = folder_vote(&rows);
    assert_eq!(p.as_deref(), Some(path.as_str()));
    assert_eq!(folder.as_deref(), Some("lyfjastofnun"));
}

#[test]
fn folder_ties_go_to_the_smaller_name_and_path_ties_to_the_smaller_path() {
    let rows = vec![
        row(Some("/w/zeta/x"), None, 2, Some("zeta")),
        row(Some("/w/alpha/b"), None, 1, Some("alpha")),
        row(Some("/w/alpha/a"), None, 1, Some("alpha")),
    ];
    let (folder, path) = folder_vote(&rows);
    assert_eq!(folder.as_deref(), Some("alpha"));
    assert_eq!(path.as_deref(), Some("/w/alpha/a"));
}

#[test]
fn total_seconds_sums_durations() {
    assert_eq!(total_seconds(&vec![]), 0);
    assert_eq!(total_seconds(&vec![1800, 900, 60]), 2760);
}
