use worklog_core::paths::{join_path, socket_path, Paths};

#[test]
fn from_root_assigns_expected_subpaths() {
    let p = Paths::from_root("/tmp/fake");
    assert_eq!(p.db, "/tmp/fake/worklog.db");
    assert_eq!(p.socket, "/tmp/fake/api.sock");
    assert_eq!(p.config, "/tmp/fake/config.toml");
    assert_eq!(p.bin_dir, "/tmp/fake/bin");
}

#[test]
fn resolve_honors_env_override() {
    let p = Paths::resolve(Some("/tmp/wl-home")).unwrap();
    assert_eq!(p.root, "/tmp/wl-home");
    // An empty override falls back to the home directory.
    let q = Paths::resolve_in(Some(""), Some("/home/u")).unwrap();
    assert_eq!(q.root, "/home/u/.worklog");
    assert_eq!(q.releases, "/home/u/.worklog/releases");
    assert_eq!(q.log_dir, "/home/u/.worklog/logs");
    let e = Paths::resolve_in(None, None).unwrap_err();
    assert_eq!(e, "no home directory available");
}

#[test]
fn join_follows_path_rules() {
    assert_eq!(join_path("/a", "b"), "/a/b");
    assert_eq!(join_path("/a/", "b"), "/a/b");
    assert_eq!(join_path("", "b"), "b");
    assert_eq!(join_path("/a", "/b"), "/b");
}

#[test]
fn socket_path_is_under_the_root() {
    assert_eq!(socket_path(Some("/r")).unwrap(), "/r/api.sock");
}
