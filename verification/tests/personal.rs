use worklog_core::personal::{
    config_path, matches_in, path_starts_with, tally, ConfigFile, PersonalConfig, ReclassifyStats,
};

fn home() -> String {
    dirs::home_dir().unwrap().to_string_lossy().into_owned()
}

fn default_work_prefix() -> Option<String> {
    PersonalConfig::default_only().default_work_prefix
}

#[test]
fn classify_default_treats_work_subdir_as_work() {
    let cfg = PersonalConfig::default_only();
    let path = format!("{}/Desktop/Work/sjukra", home());
    assert!(!cfg.classify(Some(&path)));
}

#[test]
fn classify_default_treats_other_paths_as_personal() {
    let cfg = PersonalConfig::default_only();
    let path = format!("{}/Desktop/Projects/worklog", home());
    assert!(cfg.classify(Some(&path)));
}

#[test]
fn classify_no_project_path_is_work() {
    let cfg = PersonalConfig::default_only();
    assert!(!cfg.classify(None));
}

#[test]
fn classify_work_pattern_overrides_personal_default() {
    let cfg = PersonalConfig {
        work_patterns: vec!["~/Desktop/Projects/clientX/**".into()],
        personal_patterns: vec![],
        default_work_prefix: default_work_prefix(),
    };
    let path = format!("{}/Desktop/Projects/clientX/frontend", home());
    assert!(!cfg.classify(Some(&path)));
}

#[test]
fn classify_personal_pattern_overrides_work_default() {
    let cfg = PersonalConfig {
        work_patterns: vec![],
        personal_patterns: vec!["~/Desktop/Work/playground/**".into()],
        default_work_prefix: default_work_prefix(),
    };
    let path = format!("{}/Desktop/Work/playground/sketch", home());
    assert!(cfg.classify(Some(&path)));
}

#[test]
fn classify_missing_config_uses_default() {
    // A missing file reaches the library as "nothing parsed".
    let cfg = PersonalConfig::load(None);
    let path = format!("{}/Desktop/Projects/foo", home());
    assert!(cfg.classify(Some(&path)));
    let work = format!("{}/Desktop/Work/foo", home());
    assert!(!cfg.classify(Some(&work)));
}

#[test]
fn classify_loads_from_toml_round_trip() {
    // work = ["~/contract/**"], personal = ["~/Desktop/Work/scratch"]
    let file = ConfigFile {
        work: vec!["~/contract/**".to_string()],
        personal: vec!["~/Desktop/Work/scratch".to_string()],
    };
    let cfg = PersonalConfig::load(Some(file));
    let contract = format!("{}/contract/repo", home());
    assert!(!cfg.classify(Some(&contract)), "explicit work wins");
    let scratch = format!("{}/Desktop/Work/scratch", home());
    assert!(cfg.classify(Some(&scratch)), "explicit personal overrides default-work");
}

#[test]
fn matches_handles_glob_suffixes() {
    assert!(worklog_core::personal::matches("/foo/bar/**", "/foo/bar/baz/qux"));
    assert!(worklog_core::personal::matches("/foo/bar/**", "/foo/bar"));
    assert!(worklog_core::personal::matches("/foo/bar/*", "/foo/bar/baz"));
    assert!(!worklog_core::personal::matches("/foo/bar/*", "/foo/bar/baz/qux"));
    assert!(!worklog_core::personal::matches("/foo/bar/**", "/foo/baz"));
}

#[test]
fn path_starts_with_respects_segment_boundaries() {
    assert!(path_starts_with("/foo/bar", "/foo"));
    assert!(path_starts_with("/foo", "/foo"));
    assert!(!path_starts_with("/foobar", "/foo"));
}

#[test]
fn matches_with_explicit_home_expands_tilde() {
    assert!(matches_in("~/w/**", "/h/w/x", Some("/h")));
    assert!(!matches_in("~/w/**", "/h/wx", Some("/h")));
    // Without a home the pattern stays literal.
    assert!(!matches_in("~/w/**", "/h/w/x", None));
    // One segment under `/*`, trailing slashes skipped.
    assert!(matches_in("/a/*", "/a//b", None));
    assert!(!matches_in("/a/*", "/a", None));
    // A prefix written with a trailing slash still matches at a boundary.
    assert!(path_starts_with("/a/b", "/a/"));
}

#[test]
fn classify_in_follows_the_resolution_order() {
    let cfg = PersonalConfig {
        work_patterns: vec!["/x/**".into()],
        personal_patterns: vec!["/x/y/**".into(), "/w/p".into()],
        default_work_prefix: Some("/w".into()),
    };
    assert!(!cfg.classify_in(Some("/x/y/z"), None), "work beats personal");
    assert!(cfg.classify_in(Some("/w/p/q"), None), "personal beats default");
    assert!(!cfg.classify_in(Some("/w/q"), None), "default work prefix");
    assert!(cfg.classify_in(Some("/v"), None), "outside the default is personal");
    let none = PersonalConfig::default_only_in(None);
    assert!(!none.classify_in(Some("/v"), None), "no default prefix means work");
    assert_eq!(
        PersonalConfig::default_only_in(Some("/h")).default_work_prefix.as_deref(),
        Some("/h/Desktop/Work")
    );
}

#[test]
fn config_path_sits_in_the_root() {
    assert_eq!(config_path(Some("/tmp/wl")).as_deref(), Some("/tmp/wl/personal.toml"));
}

#[test]
fn tally_counts_each_transition() {
    let mut s = ReclassifyStats::default();
    tally(&mut s, false, true);
    tally(&mut s, true, false);
    tally(&mut s, true, true);
    tally(&mut s, false, false);
    assert_eq!(s.changed_to_personal, 1);
    assert_eq!(s.changed_to_work, 1);
    assert_eq!(s.unchanged, 2);
}

#[test]
fn classify_malformed_config_falls_back_to_default() {
    // A file that does not parse reaches the library as "nothing parsed".
    let parsed = "this is not toml = [[[".parse::<toml::Table>();
    assert!(parsed.is_err());
    let cfg = PersonalConfig::load(None);
    let path = format!("{}/Desktop/Projects/foo", home());
    assert!(cfg.classify(Some(&path)));
}
