use chrono::{TimeZone, Utc};
use worklog_core::ticket_cuts::{cut_edges_of, Ticketed};

fn at(h: u32, m: u32) -> i128 {
    Utc.with_ymd_and_hms(2026, 9, 23, h, m, 0).unwrap().timestamp_nanos_opt().unwrap() as i128
}

fn t(s: i128, e: i128, ticket: &str) -> Ticketed {
    Ticketed { started_at: s, ended_at: e, ticket: ticket.into() }
}

#[test]
fn fused_blocks_keep_both_tickets() {
    // 9:00–9:12 carried T-1, 10:00–10:12 carried T-2; the gap filled in
    // and one block now runs 9:00–10:12: it is cut where T-2 began.
    let prior = vec![t(at(10, 0), at(10, 12), "T-2"), t(at(9, 0), at(9, 12), "T-1")];
    let edges = cut_edges_of(at(9, 0), at(10, 12), &prior).unwrap();
    assert_eq!(edges, vec![at(9, 0), at(10, 0), at(10, 12)]);
}

#[test]
fn one_ticket_or_none_leaves_the_block_whole() {
    assert_eq!(cut_edges_of(at(9, 0), at(10, 0), &vec![]), None);
    let same = vec![t(at(9, 0), at(9, 20), "T-1"), t(at(9, 30), at(9, 50), "T-1")];
    assert_eq!(cut_edges_of(at(9, 0), at(10, 0), &same), None);
    // Prior blocks outside the span do not count.
    let outside = vec![t(at(9, 0), at(9, 20), "T-1"), t(at(11, 0), at(11, 20), "T-2")];
    assert_eq!(cut_edges_of(at(9, 0), at(10, 0), &outside), None);
}

#[test]
fn a_prior_block_starting_before_the_block_adds_no_cut() {
    let prior = vec![t(at(8, 30), at(9, 10), "A-1"), t(at(9, 20), at(9, 40), "B-2"), t(at(9, 45), at(9, 50), "A-1")];
    let edges = cut_edges_of(at(9, 0), at(10, 0), &prior).unwrap();
    assert_eq!(edges, vec![at(9, 0), at(9, 20), at(9, 45), at(10, 0)]);
}
