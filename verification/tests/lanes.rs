use worklog_core::lanes::{
    fold_short_runs, has_two_lanes, is_human, is_work, lane_key, latest_human, owner_runs, place,
    Keyed, Placement,
};
use worklog_core::sources::{assistant_turn_source, assistant_work_source};

fn k(minute: i64, key: &str, human: bool) -> Keyed {
    Keyed { minute, key: key.to_string(), human }
}

const A: &str = "vitinn-infra";
const C: &str = "lyfjastofnun";
const P: &str = "personal:worklog";

fn total(runs: &[(String, i64, i64)]) -> i64 {
    runs.iter().map(|r| r.2 - r.1 + 1).sum()
}

fn assert_no_overlap(runs: &[(String, i64, i64)]) {
    for w in runs.windows(2) {
        assert!(w[0].2 < w[1].1, "runs overlap: {:?}", runs);
    }
}

#[test]
fn human_sources_and_work_keys() {
    assert!(is_human(&assistant_turn_source()));
    assert!(is_human("shell"));
    assert!(is_human("firefox"));
    assert!(!is_human(&assistant_work_source()));
    assert!(!is_human("gcal"));
    assert!(is_work(A));
    assert!(!is_work(P));
}

#[test]
fn lane_keys_mark_personal_folders() {
    assert_eq!(lane_key("/Users/dev/Desktop/Work/vitinn-infra/x", Some("vitinn-infra")), "vitinn-infra");
    assert_eq!(lane_key("/Users/dev/Desktop/Projects/worklog", Some("worklog")), "personal:worklog");
    assert_eq!(lane_key("/Users/dev/Desktop/Projects/worklog", None), "personal:/Users/dev/Desktop/Projects/worklog");
}

#[test]
fn handover_between_projects_splits_the_time_by_runs() {
    // A acts every 2 min for half an hour, then C does.
    let mut keyed: Vec<Keyed> = (0..15).map(|i| k(i * 2, A, true)).collect();
    keyed.extend((0..15).map(|i| k(30 + i * 2, C, true)));
    let runs = fold_short_runs(owner_runs(&keyed));
    assert_no_overlap(&runs);
    assert_eq!(runs.len(), 2);
    assert_eq!(runs[0].0, A);
    assert_eq!(runs[1].0, C);
    assert_eq!(total(&runs), 59);
}

#[test]
fn focus_follows_the_latest_human_action() {
    let keyed = vec![k(0, A, true), k(2, C, false), k(3, C, false), k(4, C, false)];
    assert_eq!(latest_human(&keyed, 4).as_deref(), Some(A));
    // Outside the fifteen-minute human window nobody has focus.
    assert_eq!(latest_human(&keyed, 16), None);
    // The window is (m - 15, m]: an action fifteen minutes back is out.
    assert_eq!(latest_human(&keyed, 15), None);
    assert_eq!(latest_human(&keyed, 14).as_deref(), Some(A));
    // A later personal action does not steal focus from work.
    let keyed = vec![k(0, A, true), k(1, P, true)];
    assert_eq!(latest_human(&keyed, 1).as_deref(), Some(A));
}

#[test]
fn work_outranks_personal_in_the_same_minutes_by_runs() {
    // Light background work every 6 minutes beside a busy personal side
    // project every minute: every minute with work nearby is work.
    let mut keyed: Vec<Keyed> = (0..10).map(|i| k(i * 6, A, false)).collect();
    keyed.extend((0..60).map(|i| k(i, P, false)));
    let runs = fold_short_runs(owner_runs(&keyed));
    assert_no_overlap(&runs);
    let work: i64 = runs.iter().filter(|r| r.0 == A).map(|r| r.2 - r.1 + 1).sum();
    assert!(work >= 50, "got {work}");
}

#[test]
fn silent_gaps_between_the_same_owner_are_bridged() {
    // Background work in A at 0..=3 and 12..=15: the silent minutes 9..=11
    // (three of them) lie between two stretches of A and are filled.
    let keyed: Vec<Keyed> = (0..4).chain(12..16).map(|m| k(m, A, false)).collect();
    let runs = owner_runs(&keyed);
    assert_eq!(runs, vec![(A.to_string(), 0, 15)]);
}

#[test]
fn a_quick_hop_joins_its_neighbour() {
    let runs = vec![
        (A.to_string(), 0, 19),
        (C.to_string(), 20, 22),
        (A.to_string(), 23, 40),
    ];
    let folded = fold_short_runs(runs);
    assert_eq!(folded, vec![(A.to_string(), 0, 40)]);
    // Never across work and personal.
    let runs = vec![(A.to_string(), 0, 19), (P.to_string(), 20, 22)];
    assert_eq!(fold_short_runs(runs.clone()), runs);
    // A short run with nothing before it hands its minutes forward.
    let runs = vec![(C.to_string(), 0, 2), (A.to_string(), 3, 20)];
    assert_eq!(fold_short_runs(runs), vec![(A.to_string(), 0, 20)]);
}

#[test]
fn events_are_placed_by_minute_owner() {
    let runs = vec![(A.to_string(), 0, 9), (C.to_string(), 10, 19)];
    assert_eq!(place(&runs, 5, Some(A), false), Placement::Run(0));
    assert_eq!(place(&runs, 5, None, false), Placement::Run(0));
    assert_eq!(place(&runs, 5, Some(C), false), Placement::Claimed);
    assert_eq!(place(&runs, 25, Some(C), false), Placement::Leftover);
    assert_eq!(place(&runs, 5, Some(A), true), Placement::Calendar);
    assert!(has_two_lanes(&vec![k(0, A, true), k(1, C, true)]));
    assert!(!has_two_lanes(&vec![k(0, A, true), k(1, A, false)]));
}

#[test]
fn ties_keep_the_current_owner() {
    // Background only, equal activity: C takes the first minutes (smaller
    // key) and keeps them while the tie lasts.
    let keyed = vec![k(0, A, false), k(0, C, false), k(10, A, false), k(10, C, false)];
    let runs = owner_runs(&keyed);
    assert_eq!(runs.len(), 1);
    assert_eq!(runs[0].0, C);
}

fn minutes_of(runs: &[(String, i64, i64)], key: &str) -> i64 {
    runs.iter().filter(|r| r.0 == key).map(|r| r.2 - r.1 + 1).sum()
}

#[test]
fn parallel_sessions_never_overlap_or_double_count_by_runs() {
    // A busy (every 2 min, worktree and main fold to one lane) while a
    // personal project pings every 7 min for the same hour.
    let mut keyed: Vec<Keyed> = (0..30).map(|i| k(i * 2, A, true)).collect();
    keyed.extend((0..9).map(|i| k(i * 7, P, true)));
    let runs = fold_short_runs(owner_runs(&keyed));
    assert_no_overlap(&runs);
    assert!(total(&runs) <= 62, "never more than the wall-clock hour, got {}", total(&runs));
    assert!(minutes_of(&runs, A) >= 45, "the busy project owns most of the hour");
}

#[test]
fn folderless_event_joins_the_owning_project_by_runs() {
    // A works 9:00–9:27, the personal project 14:00–14:27 (minutes from 9:00).
    let mut keyed: Vec<Keyed> = (0..10).map(|i| k(i * 3, A, true)).collect();
    keyed.extend((0..10).map(|i| k(300 + i * 3, P, true)));
    let runs = fold_short_runs(owner_runs(&keyed));
    let at_920 = place(&runs, 20, None, false);
    match at_920 {
        Placement::Run(i) => assert_eq!(runs[i].0, A),
        other => panic!("folderless event not placed in a run: {other:?}"),
    }
}

#[test]
fn your_typing_outweighs_claude_working_elsewhere_by_runs() {
    // The owner types into A every 8 min for two hours while background
    // work runs in another work project every minute.
    let mut keyed: Vec<Keyed> = (0..16).map(|i| k(i * 8, A, true)).collect();
    keyed.extend((0..120).map(|i| k(i, C, false)));
    let runs = fold_short_runs(owner_runs(&keyed));
    assert_no_overlap(&runs);
    assert!(minutes_of(&runs, A) >= 110, "attention decides, got {}", minutes_of(&runs, A));
}

#[test]
fn a_single_project_day_is_unchanged_by_runs() {
    let keyed: Vec<Keyed> = (0..10).map(|i| k(i * 2, A, true)).collect();
    assert!(!has_two_lanes(&keyed));
}

#[test]
fn owned_minutes_count_even_when_the_owner_has_few_events_there_by_runs() {
    let mut keyed = vec![k(0, A, true), k(2, A, true)];
    keyed.extend((3..13).map(|m| k(m, C, false)));
    let runs = fold_short_runs(owner_runs(&keyed));
    assert_no_overlap(&runs);
    assert!(total(&runs) >= 12, "got {}", total(&runs));
    assert!(runs.iter().all(|r| r.0 == A));
}

#[test]
fn a_quick_hop_joins_its_neighbour_instead_of_vanishing_by_runs() {
    let mut keyed: Vec<Keyed> = (0..10).map(|i| k(i * 2, A, true)).collect();
    keyed.push(k(21, C, true));
    keyed.extend((12..20).map(|i| k(i * 2, A, true)));
    let runs = fold_short_runs(owner_runs(&keyed));
    assert_no_overlap(&runs);
    assert!(total(&runs) >= 38, "got {}", total(&runs));
}

#[test]
fn neighbouring_runs_never_continue_one_another() {
    // A, then C, then A again: three runs, and no two neighbours share an
    // owner across a touching edge.
    let keyed: Vec<Keyed> = (0..10)
        .map(|m| k(m, A, true))
        .chain((20..30).map(|m| k(m, C, true)))
        .chain((40..50).map(|m| k(m, A, true)))
        .collect();
    let runs = owner_runs(&keyed);
    assert!(runs.len() >= 2);
    for w in runs.windows(2) {
        assert!(w[0].2 < w[1].1);
        assert!(!(w[0].0 == w[1].0 && w[0].2 + 1 == w[1].1));
    }
}
