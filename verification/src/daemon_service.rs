//! Service installation for the worklog daemon.
//!
//! The long-lived `worklog daemon` process backs every write path of the
//! web UI; the happy path is that the OS supervisor (launchd on macOS,
//! systemd's user instance on Linux) owns it and restarts it when it
//! crashes. The unit file (where it goes and what it says) and what each
//! operation reports are decided here; writing and removing the file is
//! the caller's.
use vstd::prelude::*;

use crate::text::concat;

verus! {

/// launchd label and systemd unit stem; stable across versions so a
/// reinstall never leaves an orphaned unit behind.
pub open spec fn label() -> Seq<char> {
    "is.p5.worklog.daemon"@
}

/// [`label`] as text.
pub const LABEL: &'static str = "is.p5.worklog.daemon";

/// Snapshot returned by install / uninstall / status for rendering.
#[derive(Debug, Clone)]
pub struct DaemonServiceStatus {
    pub platform: String,
    pub installed: bool,
    pub command: Option<String>,
    pub unit_path: Option<String>,
    pub extra_paths: Vec<String>,
    pub notes: Vec<String>,
}

/// The supervisors a unit can be written for.
#[derive(Debug, Clone, Copy, PartialEq, Eq, Structural)]
pub enum Platform {
    /// launchd, with a property list under `~/Library/LaunchAgents`.
    MacOs,
    /// systemd's user instance, with a unit under `~/.config/systemd/user`.
    Linux,
    /// Anything else: no supervisor is wired up.
    Other,
}

pub open spec fn platform_name(p: Platform) -> Seq<char> {
    match p {
        Platform::MacOs => "macos"@,
        Platform::Linux => "linux"@,
        Platform::Other => "unsupported"@,
    }
}

/// The platform's name as a status reports it.
pub fn platform_label(p: Platform) -> (r: String)
    ensures
        r@ == platform_name(p),
{
    match p {
        Platform::MacOs => "macos".to_owned(),
        Platform::Linux => "linux".to_owned(),
        Platform::Other => "unsupported".to_owned(),
    }
}

/// Where the platform's unit lives under the service home `home`.
pub open spec fn unit_path_spec(p: Platform, home: Seq<char>) -> Option<Seq<char>> {
    match p {
        Platform::MacOs => Some(home + "/Library/LaunchAgents/"@ + label() + ".plist"@),
        Platform::Linux => Some(home + "/.config/systemd/user/"@ + label() + ".service"@),
        Platform::Other => None,
    }
}

/// The launchd property list: run `command` through the shell, start it at
/// load and keep it alive (a crash restarts it).
pub open spec fn plist_body(command: Seq<char>) -> Seq<char> {
    "<?xml version=\"1.0\" encoding=\"UTF-8\"?>\n<!DOCTYPE plist PUBLIC \"-//Apple//DTD PLIST 1.0//EN\" \"http://www.apple.com/DTDs/PropertyList-1.0.dtd\">\n<plist version=\"1.0\">\n<dict>\n  <key>Label</key>\n  <string>"@
        + label()
        + "</string>\n  <key>ProgramArguments</key>\n  <array>\n    <string>/bin/sh</string>\n    <string>-c</string>\n    <string>"@
        + command
        + "</string>\n  </array>\n  <key>RunAtLoad</key>\n  <true/>\n  <key>KeepAlive</key>\n  <true/>\n</dict>\n</plist>\n"@
}

/// The systemd user unit: a long-lived service restarted on failure,
/// started with the user's default target (no timer).
pub open spec fn service_body(command: Seq<char>) -> Seq<char> {
    "[Unit]\nDescription=worklog daemon\n\n[Service]\nExecStart="@ + command
        + "\nRestart=on-failure\n\n[Install]\nWantedBy=default.target\n"@
}

pub open spec fn unit_body_spec(p: Platform, command: Seq<char>) -> Option<Seq<char>> {
    match p {
        Platform::MacOs => Some(plist_body(command)),
        Platform::Linux => Some(service_body(command)),
        Platform::Other => None,
    }
}

/// A unit file to write: where, and what.
#[derive(Debug, Clone)]
pub struct UnitPlan {
    pub path: String,
    pub body: String,
}

/// Where the platform's unit lives under the service home `home`.
pub fn unit_path(p: Platform, home: &str) -> (r: Option<String>)
    ensures
        match r {
            Some(x) => unit_path_spec(p, home@) == Some(x@),
            None => unit_path_spec(p, home@) is None,
        },
{
    match p {
        Platform::MacOs => {
            let a = concat(home, "/Library/LaunchAgents/is.p5.worklog.daemon.plist");
            proof {
                reveal_strlit("/Library/LaunchAgents/is.p5.worklog.daemon.plist");
                reveal_strlit("/Library/LaunchAgents/");
                reveal_strlit("is.p5.worklog.daemon");
                reveal_strlit(".plist");
                assert("/Library/LaunchAgents/is.p5.worklog.daemon.plist"@ =~= "/Library/LaunchAgents/"@ + label() + ".plist"@);
                assert(a@ =~= home@ + "/Library/LaunchAgents/"@ + label() + ".plist"@);
            }
            Some(a)
        },
        Platform::Linux => {
            let a = concat(home, "/.config/systemd/user/is.p5.worklog.daemon.service");
            proof {
                reveal_strlit("/.config/systemd/user/is.p5.worklog.daemon.service");
                reveal_strlit("/.config/systemd/user/");
                reveal_strlit("is.p5.worklog.daemon");
                reveal_strlit(".service");
                assert("/.config/systemd/user/is.p5.worklog.daemon.service"@ =~= "/.config/systemd/user/"@ + label() + ".service"@);
                assert(a@ =~= home@ + "/.config/systemd/user/"@ + label() + ".service"@);
            }
            Some(a)
        },
        Platform::Other => None,
    }
}

/// The unit to write for `command`: its path under `home` and its body;
/// `None` where no supervisor is wired up.
pub fn unit_plan(p: Platform, home: &str, command: &str) -> (r: Option<UnitPlan>)
    ensures
        match r {
            Some(u) => unit_path_spec(p, home@) == Some(u.path@) && unit_body_spec(p, command@) == Some(u.body@),
            None => unit_path_spec(p, home@) is None && unit_body_spec(p, command@) is None,
        },
{
    let path = match unit_path(p, home) {
        Some(x) => x,
        None => {
            return None;
        },
    };
    let body = match p {
        Platform::MacOs => {
            let a = concat(
                "<?xml version=\"1.0\" encoding=\"UTF-8\"?>\n<!DOCTYPE plist PUBLIC \"-//Apple//DTD PLIST 1.0//EN\" \"http://www.apple.com/DTDs/PropertyList-1.0.dtd\">\n<plist version=\"1.0\">\n<dict>\n  <key>Label</key>\n  <string>",
                "is.p5.worklog.daemon",
            );
            let b = concat(
                a.as_str(),
                "</string>\n  <key>ProgramArguments</key>\n  <array>\n    <string>/bin/sh</string>\n    <string>-c</string>\n    <string>",
            );
            let c = concat(b.as_str(), command);
            concat(
                c.as_str(),
                "</string>\n  </array>\n  <key>RunAtLoad</key>\n  <true/>\n  <key>KeepAlive</key>\n  <true/>\n</dict>\n</plist>\n",
            )
        },
        _ => {
            let a = concat("[Unit]\nDescription=worklog daemon\n\n[Service]\nExecStart=", command);
            concat(a.as_str(), "\nRestart=on-failure\n\n[Install]\nWantedBy=default.target\n")
        },
    };
    Some(UnitPlan { path, body })
}

/// What an install reports and the unit it writes: on a platform with a
/// supervisor, installed, running `command`, with the unit's path; else
/// the unsupported report and nothing to write. Installing again writes
/// the same unit to the same path.
pub fn install(p: Platform, home: &str, command: &str) -> (r: (DaemonServiceStatus, Option<UnitPlan>))
    ensures
        match unit_path_spec(p, home@) {
            Some(path) => {
                &&& r.1 matches Some(u) && u.path@ == path && unit_body_spec(p, command@) == Some(u.body@)
                &&& r.0.installed
                &&& r.0.platform@ == platform_name(p)
                &&& r.0.command matches Some(c) && c@ == command@
                &&& r.0.unit_path matches Some(x) && x@ == path
            },
            None => r.1 is None && !r.0.installed && r.0.platform@ == platform_name(p) && r.0.unit_path is None,
        },
{
    match unit_plan(p, home, command) {
        Some(u) => {
            let st = DaemonServiceStatus {
                platform: platform_label(p),
                installed: true,
                command: Some(command.to_owned()),
                unit_path: Some(u.path.clone()),
                extra_paths: Vec::new(),
                notes: Vec::new(),
            };
            (st, Some(u))
        },
        None => (unsupported_status(platform_label(p).as_str()), None),
    }
}

/// What an uninstall reports: not installed, naming the unit path whose
/// file is removed.
pub fn uninstall(p: Platform, home: &str) -> (r: DaemonServiceStatus)
    ensures
        !r.installed,
        r.platform@ == platform_name(p),
        match unit_path_spec(p, home@) {
            Some(path) => r.unit_path matches Some(x) && x@ == path,
            None => r.unit_path is None,
        },
{
    match unit_path(p, home) {
        Some(path) => DaemonServiceStatus {
            platform: platform_label(p),
            installed: false,
            command: None,
            unit_path: Some(path),
            extra_paths: Vec::new(),
            notes: Vec::new(),
        },
        None => unsupported_status(platform_label(p).as_str()),
    }
}

/// What a status query reports: installed exactly when the unit file
/// exists (`unit_exists`) on a platform with a supervisor.
pub fn status(p: Platform, home: &str, unit_exists: bool) -> (r: DaemonServiceStatus)
    ensures
        r.installed == (unit_exists && unit_path_spec(p, home@) is Some),
        r.platform@ == platform_name(p),
        match unit_path_spec(p, home@) {
            Some(path) => r.unit_path matches Some(x) && x@ == path,
            None => r.unit_path is None,
        },
{
    match unit_path(p, home) {
        Some(path) => DaemonServiceStatus {
            platform: platform_label(p),
            installed: unit_exists,
            command: None,
            unit_path: Some(path),
            extra_paths: Vec::new(),
            notes: Vec::new(),
        },
        None => unsupported_status(platform_label(p).as_str()),
    }
}

/// The command baked into the service unit: the `worklog` binary found
/// on `$PATH` (which the caller looks up) followed by ` daemon`, or the
/// bare `worklog daemon` when it was not found.
pub fn default_command(found: Option<&str>) -> (r: String)
    ensures
        r@ == match found {
            Some(p) => p@ + " daemon"@,
            None => "worklog daemon"@,
        },
{
    match found {
        Some(p) => concat(p, " daemon"),
        None => "worklog daemon".to_owned(),
    }
}

/// Every default command ends in ` daemon`, so the unit runs the right
/// subcommand whether or not the binary was found.
pub proof fn law_default_command_targets_daemon(found: Option<Seq<char>>)
    ensures
        crate::text::ends_with(
            match found {
                Some(p) => p + " daemon"@,
                None => "worklog daemon"@,
            },
            " daemon"@,
        ),
{
    reveal_strlit(" daemon");
    reveal_strlit("worklog daemon");
    let s = match found {
        Some(p) => p + " daemon"@,
        None => "worklog daemon"@,
    };
    assert(s.subrange(s.len() - 7, s.len() as int) =~= " daemon"@);
}

/// What a platform without a supervisor reports.
pub fn unsupported_status(platform: &str) -> (s: DaemonServiceStatus)
    ensures
        s.platform@ == platform@,
        !s.installed,
        s.command is None,
        s.unit_path is None,
        s.extra_paths@.len() == 0,
        s.notes@.len() == 1,
        s.notes@[0]@
            == "daemon supervisor not implemented for this platform — run `worklog daemon` in a tmux session"@,
{
    let mut notes: Vec<String> = Vec::new();
    notes.push(
        "daemon supervisor not implemented for this platform — run `worklog daemon` in a tmux session".to_owned(),
    );
    DaemonServiceStatus {
        platform: platform.to_owned(),
        installed: false,
        command: None,
        unit_path: None,
        extra_paths: Vec::new(),
        notes,
    }
}

} // verus!
