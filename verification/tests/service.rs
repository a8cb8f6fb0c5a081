use worklog_core::daemon_service::{default_command, install, status, uninstall, unsupported_status, Platform};
use worklog_core::hook;

#[test]
fn default_command_is_stable_string() {
    // Regardless of whether `worklog` is on PATH, the command must end in
    // " daemon" so the service unit gets the right target.
    let cmd = default_command(None);
    assert!(cmd.ends_with(" daemon"), "got: {cmd}");
    assert_eq!(cmd, "worklog daemon");
    let cmd = default_command(Some("/usr/local/bin/worklog"));
    assert!(cmd.ends_with(" daemon"), "got: {cmd}");
    assert_eq!(cmd, "/usr/local/bin/worklog daemon");
}

#[test]
fn macos_install_writes_plist_with_keepalive() {
    let (status, unit) = install(Platform::MacOs, "/tmp/home", "/usr/local/bin/worklog daemon");
    assert!(status.installed);
    let unit = unit.unwrap();
    assert_eq!(status.unit_path.as_deref(), Some(unit.path.as_str()));
    assert_eq!(unit.path, "/tmp/home/Library/LaunchAgents/is.p5.worklog.daemon.plist");
    assert!(unit.body.contains("<key>KeepAlive</key>"), "missing KeepAlive");
    assert!(unit.body.contains("<true/>"));
    assert!(unit.body.contains("<key>RunAtLoad</key>"), "missing RunAtLoad");
    assert!(unit.body.contains("/usr/local/bin/worklog daemon"));
}

#[test]
fn linux_install_writes_service_unit_with_restart() {
    let (status, unit) = install(Platform::Linux, "/tmp/home", "/usr/local/bin/worklog daemon");
    assert!(status.installed);
    let unit = unit.unwrap();
    assert_eq!(unit.path, "/tmp/home/.config/systemd/user/is.p5.worklog.daemon.service");
    assert!(unit.body.contains("Restart=on-failure"), "missing Restart line");
    assert!(unit.body.contains("WantedBy=default.target"), "wrong target");
    assert!(unit.body.contains("ExecStart=/usr/local/bin/worklog daemon"));
    assert!(!unit.body.contains("Timer"));
}

#[test]
fn daemon_service_install_is_idempotent() {
    let (first, u1) = install(Platform::Linux, "/h", "worklog daemon");
    let (second, u2) = install(Platform::Linux, "/h", "worklog daemon");
    assert!(first.installed && second.installed);
    assert_eq!(first.unit_path, second.unit_path);
    let (u1, u2) = (u1.unwrap(), u2.unwrap());
    assert_eq!((u1.path, u1.body), (u2.path, u2.body));
}

#[test]
fn uninstall_removes_unit_file() {
    let (installed, _) = install(Platform::MacOs, "/h", "worklog daemon");
    let s = uninstall(Platform::MacOs, "/h");
    assert!(!s.installed);
    assert_eq!(s.unit_path, installed.unit_path, "the file removed is the one written");
}

#[test]
fn status_reports_installed_when_unit_exists() {
    let st = status(Platform::Linux, "/h", true);
    assert!(st.installed);
    assert_eq!(st.unit_path.as_deref(), Some("/h/.config/systemd/user/is.p5.worklog.daemon.service"));
}

#[test]
fn status_reports_not_installed_on_fresh_home() {
    assert!(!status(Platform::Linux, "/h", false).installed);
    assert!(!status(Platform::Other, "/h", true).installed);
    let (s, unit) = install(Platform::Other, "/h", "worklog daemon");
    assert!(!s.installed && unit.is_none());
    let s = unsupported_status("unsupported");
    assert_eq!(s.notes.len(), 1);
}

#[test]
fn hook_default_command_prefers_older_binaries() {
    assert_eq!(hook::default_command(Some("/b/worklog-hook"), Some("/b/worklog-rs"), None), "/b/worklog-hook");
    assert_eq!(hook::default_command(None, Some("/b/worklog-rs"), Some("/b/worklog")), "/b/worklog-rs hook-run");
    assert_eq!(hook::default_command(None, None, Some("/b/worklog")), "/b/worklog hook-run");
    assert_eq!(hook::default_command(None, None, None), "worklog hook-run");
    assert!(hook::is_worklog_command("/usr/bin/worklog-hook"));
    assert!(!hook::is_worklog_command("/usr/bin/other"));
    assert_eq!(hook::event_names().len(), 7);
}
