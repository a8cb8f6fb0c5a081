use chrono::{TimeZone, Utc};
use worklog_core::infer::InferEvent;
use worklog_core::overlaps::{compute_overlaps, day_activity, project_intervals, work_activities, Activity};
use worklog_core::sources::{assistant_turn_source, assistant_work_source};

fn at(h: u32, m: u32) -> i128 {
    Utc.with_ymd_and_hms(2026, 9, 23, h, m, 0).unwrap().timestamp_nanos_opt().unwrap() as i128
}

const A_KEY: &str = "vitinn-infra";
const B_KEY: &str = "lyfjastofnun";
const PERSONAL_KEY: &str = "personal:worklog";

fn ev(h: u32, m: u32, source: &str) -> InferEvent {
    InferEvent {
        ts: at(h, m),
        source: source.into(),
        duration_seconds: None,
        jira_issue: None,
        event_id: None,
        project_path: None,
    }
}

/// Events with their lane keys, reduced to work activities.
fn acts(evs: Vec<(InferEvent, &str)>) -> Vec<Activity> {
    let keys: Vec<Option<String>> = evs.iter().map(|(_, k)| Some(k.to_string())).collect();
    let events: Vec<InferEvent> = evs.into_iter().map(|(e, _)| e).collect();
    work_activities(&events, &keys)
}

fn turn() -> String {
    assistant_turn_source()
}

fn work() -> String {
    assistant_work_source()
}

fn check_two_work_projects_overlapping_for_an_hour_is_one_overlap() {
    let mut evs: Vec<(InferEvent, &str)> = (0..20).map(|i| (ev(10, i * 3, &turn()), A_KEY)).collect();
    evs.extend((0..20).map(|i| (ev(10, i * 3, &work()), B_KEY)));
    let overlaps = compute_overlaps(&acts(evs));
    assert_eq!(overlaps.len(), 1, "got {overlaps:?}");
    let o = &overlaps[0];
    assert!(o.minutes >= 10);
    let mut projects: Vec<&str> = o.projects.iter().map(|p| p.project.as_str()).collect();
    projects.sort();
    assert_eq!(projects, vec![B_KEY, A_KEY]);
}

fn check_a_single_project_day_has_no_overlap() {
    let evs: Vec<(InferEvent, &str)> = (0..20).map(|i| (ev(10, i * 3, &turn()), A_KEY)).collect();
    assert!(compute_overlaps(&acts(evs)).is_empty());
}

fn check_personal_activity_never_counts_toward_an_overlap() {
    let mut evs: Vec<(InferEvent, &str)> = (0..20).map(|i| (ev(10, i * 3, &turn()), A_KEY)).collect();
    evs.extend((0..20).map(|i| (ev(10, i * 3, &work()), PERSONAL_KEY)));
    assert!(compute_overlaps(&acts(evs)).is_empty());
}

fn check_overlap_shorter_than_ten_minutes_is_dropped() {
    let evs = vec![
        (ev(10, 0, &turn()), A_KEY),
        (ev(10, 5, &turn()), A_KEY),
        (ev(10, 0, &work()), B_KEY),
        (ev(10, 5, &work()), B_KEY),
    ];
    assert!(compute_overlaps(&acts(evs)).is_empty());
}

fn check_human_and_background_events_are_split_per_project() {
    let mut evs: Vec<(InferEvent, &str)> = (0..20).map(|i| (ev(10, i * 3, &turn()), A_KEY)).collect();
    evs.extend((0..20).map(|i| (ev(10, i * 3, &work()), B_KEY)));
    let overlaps = compute_overlaps(&acts(evs));
    let a = overlaps[0].projects.iter().find(|p| p.project == A_KEY).unwrap();
    assert_eq!(a.human_events, 20);
    assert_eq!(a.background_events, 0);
    let b = overlaps[0].projects.iter().find(|p| p.project == B_KEY).unwrap();
    assert_eq!(b.human_events, 0);
    assert_eq!(b.background_events, 20);
}

#[test]
fn overlap_window_spans_the_shared_stretch_exactly() {
    // A 10:00–10:57 every 3 min, B 10:30–10:57: shared 10:30 .. 10:59 (the
    // last event's two-minute credit).
    let mut evs: Vec<(InferEvent, &str)> = (0..20).map(|i| (ev(10, i * 3, &turn()), A_KEY)).collect();
    evs.extend((10..20).map(|i| (ev(10, i * 3, &work()), B_KEY)));
    let overlaps = compute_overlaps(&acts(evs));
    assert_eq!(overlaps.len(), 1);
    assert_eq!(overlaps[0].started_at, at(10, 30));
    assert_eq!(overlaps[0].ended_at, at(10, 59));
    assert_eq!(overlaps[0].minutes, 29);
    // Projects come out in name order.
    assert_eq!(overlaps[0].projects[0].project, B_KEY);
    assert_eq!(overlaps[0].projects[1].project, A_KEY);
}

#[test]
fn spans_bridge_gaps_up_to_five_minutes() {
    let evs = vec![
        (ev(9, 0, &turn()), A_KEY),
        (ev(9, 7, &turn()), A_KEY),  // 5 min after the 9:02 credit end: bridged
        (ev(9, 20, &turn()), A_KEY), // 11 min after 9:09: a new span
    ];
    let spans = project_intervals(&acts(evs));
    assert_eq!(spans.len(), 2);
    assert_eq!((spans[0].1, spans[0].2), (at(9, 0), at(9, 9)));
    assert_eq!((spans[1].1, spans[1].2), (at(9, 20), at(9, 22)));
    let act = day_activity(&acts(vec![(ev(9, 0, &turn()), A_KEY)]));
    assert_eq!(act.len(), 1);
    assert_eq!(act[0].project, A_KEY);
}

#[test]
fn calendar_and_unkeyed_events_are_not_activity() {
    let mut cal = ev(9, 0, "gcal");
    cal.duration_seconds = Some(1800);
    let events = vec![cal, ev(9, 1, "shell"), ev(9, 2, "shell")];
    let keys = vec![Some(A_KEY.to_string()), None, Some(A_KEY.to_string())];
    let a = work_activities(&events, &keys);
    assert_eq!(a.len(), 1);
    assert_eq!(a[0].ts, at(9, 2));
    assert!(a[0].human);
}

#[test]
fn overlaps_two_work_projects_overlapping_for_an_hour_is_one_overlap() {
    check_two_work_projects_overlapping_for_an_hour_is_one_overlap();
}

#[test]
fn overlaps_test_two_work_projects_overlapping_for_an_hour_is_one_overlap() {
    check_two_work_projects_overlapping_for_an_hour_is_one_overlap();
}

#[test]
fn overlaps_a_single_project_day_has_no_overlap() {
    check_a_single_project_day_has_no_overlap();
}

#[test]
fn overlaps_test_a_single_project_day_has_no_overlap() {
    check_a_single_project_day_has_no_overlap();
}

#[test]
fn overlaps_personal_activity_never_counts_toward_an_overlap() {
    check_personal_activity_never_counts_toward_an_overlap();
}

#[test]
fn overlaps_test_personal_activity_never_counts_toward_an_overlap() {
    check_personal_activity_never_counts_toward_an_overlap();
}

#[test]
fn overlaps_overlap_shorter_than_ten_minutes_is_dropped() {
    check_overlap_shorter_than_ten_minutes_is_dropped();
}

#[test]
fn overlaps_test_overlap_shorter_than_ten_minutes_is_dropped() {
    check_overlap_shorter_than_ten_minutes_is_dropped();
}

#[test]
fn overlaps_human_and_background_events_are_split_per_project() {
    check_human_and_background_events_are_split_per_project();
}

#[test]
fn overlaps_test_human_and_background_events_are_split_per_project() {
    check_human_and_background_events_are_split_per_project();
}

fn span_of(acts: &[worklog_core::overlaps::ProjectActivity], key: &str) -> Vec<(i128, i128)> {
    acts.iter().filter(|p| p.project == key).map(|p| (p.started_at, p.ended_at)).collect()
}

#[test]
fn two_interleaved_projects_each_get_their_own_activity_spans() {
    let mut evs: Vec<(InferEvent, &str)> = (0..20).map(|i| (ev(10, i * 3, &turn()), A_KEY)).collect();
    evs.extend((0..20).map(|i| (ev(10 + (30 + i * 3) / 60, (30 + i * 3) % 60, &work()), B_KEY)));
    let activity = day_activity(&acts(evs));
    assert_eq!(activity.len(), 2, "{activity:?}");
    assert_eq!(span_of(&activity, A_KEY), vec![(at(10, 0), at(10, 59))]);
    assert_eq!(span_of(&activity, B_KEY), vec![(at(10, 30), at(11, 29))]);
}

#[test]
fn activity_spans_bridge_gaps_up_to_five_minutes_but_not_beyond() {
    let evs = vec![
        (ev(9, 0, &turn()), A_KEY),
        (ev(9, 7, &turn()), A_KEY),
        (ev(9, 20, &turn()), A_KEY),
    ];
    let activity = day_activity(&acts(evs));
    assert_eq!(activity.len(), 2, "{activity:?}");
    assert_eq!(span_of(&activity, A_KEY), vec![(at(9, 0), at(9, 9)), (at(9, 20), at(9, 22))]);
}

#[test]
fn personal_activity_is_excluded_from_day_activity() {
    let mut evs: Vec<(InferEvent, &str)> = (0..20).map(|i| (ev(10, i * 3, &turn()), A_KEY)).collect();
    evs.extend((0..20).map(|i| (ev(10, i * 3, &work()), PERSONAL_KEY)));
    let activity = day_activity(&acts(evs));
    assert_eq!(activity.len(), 1, "{activity:?}");
    assert_eq!(activity[0].project, A_KEY);
}
