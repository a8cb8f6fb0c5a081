use worklog_core::allocations::{assign_chunks, worked_minutes};

/// Cumulative chunk targets for `shares` (in project order) of `total`
/// worked minutes: each rounded, clamped to the total, the last taking
/// the remainder.
fn targets(shares: &[(&str, f64)], total: usize) -> Vec<(String, usize)> {
    let mut cum = 0.0;
    let n = shares.len();
    shares
        .iter()
        .enumerate()
        .map(|(i, (p, f))| {
            cum += f;
            let t = if i + 1 == n { total } else { ((cum * total as f64).round() as usize).min(total) };
            (p.to_string(), t)
        })
        .collect()
}

fn allocate(owners: &mut Vec<Option<String>>, start: i64, end: i64, shares: &[(&str, f64)]) {
    let worked = worked_minutes(owners, start, end);
    if worked.is_empty() || shares.is_empty() {
        return;
    }
    let chunks = targets(shares, worked.len());
    assign_chunks(owners, &worked, &chunks);
}

fn all_owned(n: usize) -> Vec<Option<String>> {
    vec![Some("orig".to_string()); n]
}

fn count(owners: &[Option<String>], p: &str) -> usize {
    owners.iter().filter(|o| o.as_deref() == Some(p)).count()
}

#[test]
fn hundred_percent_to_one_project_fills_the_whole_window() {
    let mut owners = all_owned(60);
    allocate(&mut owners, 0, 60, &[("A", 1.0)]);
    assert!(owners.iter().all(|o| o.as_deref() == Some("A")));
}

#[test]
fn seventy_thirty_split_gives_forty_two_eighteen() {
    let mut owners = all_owned(60);
    allocate(&mut owners, 0, 60, &[("A", 0.7), ("B", 0.3)]);
    assert_eq!(count(&owners, "A"), 42, "70% of 60 minutes");
    assert_eq!(count(&owners, "B"), 18, "30% of 60 minutes");
    let last_a = owners.iter().rposition(|o| o.as_deref() == Some("A"));
    let first_b = owners.iter().position(|o| o.as_deref() == Some("B"));
    assert!(last_a < first_b, "each project's minutes must be one contiguous chunk");
}

#[test]
fn shares_split_the_worked_minutes_not_the_idle_ones() {
    let mut owners: Vec<Option<String>> =
        (0..40).map(|i| if (10..20).contains(&i) { None } else { Some("orig".to_string()) }).collect();
    allocate(&mut owners, 0, 40, &[("A", 0.5), ("B", 0.5)]);
    assert_eq!(count(&owners, "A"), 15);
    assert_eq!(count(&owners, "B"), 15);
    assert_eq!(owners.iter().filter(|o| o.is_none()).count(), 10);
}

#[test]
fn idle_minutes_are_never_invented_into_activity() {
    let mut owners: Vec<Option<String>> =
        (0..30).map(|i| if (10..20).contains(&i) { None } else { Some("orig".to_string()) }).collect();
    allocate(&mut owners, 0, 30, &[("A", 1.0)]);
    for (i, o) in owners.iter().enumerate() {
        if (10..20).contains(&i) {
            assert_eq!(*o, None, "idle minute {i} must stay idle");
        } else {
            assert_eq!(o.as_deref(), Some("A"), "active minute {i} must be reassigned");
        }
    }
}

#[test]
fn worked_minutes_are_clipped_to_the_day() {
    let owners: Vec<Option<String>> = vec![Some("a".into()), None, Some("b".into()), Some("c".into())];
    assert_eq!(worked_minutes(&owners, -5, 3), vec![0, 2]);
    assert_eq!(worked_minutes(&owners, 2, 100), vec![2, 3]);
    assert_eq!(worked_minutes(&owners, 3, 2), Vec::<usize>::new());
    // Minutes outside the window keep their owner.
    let mut o = owners.clone();
    assign_chunks(&mut o, &vec![2], &vec![("X".to_string(), 1)]);
    assert_eq!(o, vec![Some("a".into()), None, Some("X".into()), Some("c".into())]);
}
