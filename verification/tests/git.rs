use worklog_core::git::{derive_github_url, parse_log_output, FS, RS};

#[test]
fn derive_github_url_handles_ssh_form() {
    let url = derive_github_url("git@github.com:TomasPalsson/worklog.git", "abc123").unwrap();
    assert_eq!(url, "https://github.com/TomasPalsson/worklog/commit/abc123");
}

#[test]
fn derive_github_url_handles_https_form() {
    let url = derive_github_url("https://github.com/TomasPalsson/worklog", "deadbeef").unwrap();
    assert_eq!(
        url,
        "https://github.com/TomasPalsson/worklog/commit/deadbeef"
    );
}

#[test]
fn derive_github_url_strips_trailing_dot_git() {
    let url = derive_github_url("https://github.com/foo/bar.git", "f00").unwrap();
    assert_eq!(url, "https://github.com/foo/bar/commit/f00");
}

#[test]
fn derive_github_url_handles_ssh_protocol_form() {
    let url = derive_github_url("ssh://git@github.com/foo/bar.git", "abc").unwrap();
    assert_eq!(url, "https://github.com/foo/bar/commit/abc");
}

#[test]
fn derive_github_url_returns_none_for_other_hosts() {
    assert!(derive_github_url("git@gitlab.com:foo/bar.git", "abc").is_none());
    assert!(derive_github_url("https://gitlab.com/foo/bar", "abc").is_none());
    assert!(derive_github_url("file:///tmp/some/repo", "abc").is_none());
}

#[test]
fn derive_github_url_returns_none_for_malformed_input() {
    assert!(derive_github_url("git@github.com:no-repo", "abc").is_none());
    assert!(derive_github_url("", "abc").is_none());
}

#[test]
fn derive_github_url_keeps_only_owner_and_repo() {
    // Surrounding whitespace, trailing slashes and a deeper path.
    let url = derive_github_url("  https://github.com/foo/bar/tree/main/  ", "9").unwrap();
    assert_eq!(url, "https://github.com/foo/bar/commit/9");
    let url = derive_github_url("http://github.com/foo/bar.git.git/", "1").unwrap();
    assert_eq!(url, "https://github.com/foo/bar/commit/1");
}

#[test]
fn parse_log_output_handles_single_commit() {
    let raw = format!(
        "{RS}aaaa1111{FS}aaaa{FS}fix: tighten validation{FS}me@example.com{FS}2026-05-12T10:00:00+00:00\n \
         3 files changed, 12 insertions(+), 4 deletions(-)\n"
    );
    let entries = parse_log_output(&raw);
    assert_eq!(entries.len(), 1);
    let e = &entries[0];
    assert_eq!(e.sha, "aaaa1111");
    assert_eq!(e.short_sha, "aaaa");
    assert_eq!(e.subject, "fix: tighten validation");
    assert_eq!(e.author_email, "me@example.com");
    assert_eq!(e.committed_at, "2026-05-12T10:00:00+00:00");
    assert_eq!(e.files_changed, 3);
    assert_eq!(e.insertions, 12);
    assert_eq!(e.deletions, 4);
    assert_eq!(e.github_url, None);
}

#[test]
fn parse_log_output_handles_multiple_commits() {
    let raw = format!(
        "{RS}sha1{FS}s1{FS}first{FS}a@x{FS}2026-05-12T10:00:00+00:00\n \
         1 file changed, 1 insertion(+)\n\
         {RS}sha2{FS}s2{FS}second{FS}b@x{FS}2026-05-12T11:00:00+00:00\n \
         2 files changed, 4 deletions(-)\n"
    );
    let entries = parse_log_output(&raw);
    assert_eq!(entries.len(), 2);
    assert_eq!(entries[0].insertions, 1);
    assert_eq!(entries[0].deletions, 0);
    assert_eq!(entries[1].files_changed, 2);
    assert_eq!(entries[1].insertions, 0);
    assert_eq!(entries[1].deletions, 4);
}

#[test]
fn parse_log_output_handles_missing_shortstat() {
    let raw = format!("{RS}sha1{FS}s1{FS}merge nothing{FS}a@x{FS}2026-05-12T10:00:00+00:00\n");
    let entries = parse_log_output(&raw);
    assert_eq!(entries.len(), 1);
    assert_eq!(entries[0].files_changed, 0);
    assert_eq!(entries[0].insertions, 0);
    assert_eq!(entries[0].deletions, 0);
}

#[test]
fn parse_log_output_returns_empty_for_blank_input() {
    assert!(parse_log_output("").is_empty());
    assert!(parse_log_output("\n\n").is_empty());
}

#[test]
fn parse_log_output_skips_chunks_without_five_fields() {
    let raw = format!("{RS}only{FS}three{FS}fields\n{RS}a{FS}b{FS}c{FS}d{FS}e{FS}f\r\n 7 files changed\r\n");
    let entries = parse_log_output(&raw);
    assert_eq!(entries.len(), 1);
    assert_eq!(entries[0].sha, "a");
    // The fifth field keeps the unsplit remainder of the first line,
    // carriage return included.
    assert_eq!(entries[0].committed_at, format!("e{FS}f\r"));
    assert_eq!(entries[0].files_changed, 7);
}

#[test]
fn parse_log_output_reads_an_oversized_count_as_zero() {
    let raw = format!("{RS}a{FS}b{FS}c{FS}d{FS}e\n 99999999999 files changed, 5 insertions(+)\n");
    let entries = parse_log_output(&raw);
    assert_eq!(entries[0].files_changed, 0);
    assert_eq!(entries[0].insertions, 5);
}
