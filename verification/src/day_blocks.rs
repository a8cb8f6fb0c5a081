//! A day's blocks when parallel projects share it.
//!
//! With events of two or more lanes, every minute gets one owner
//! ([`crate::lanes`]); each owner run becomes one block spanning exactly
//! the minutes it owns, holding the events placed in it. Calendar events
//! and events in minutes nobody owns are clustered on their own; an event
//! in a minute another lane owns builds nothing, as that time is already
//! counted there. With a single lane the day is clustered by gaps alone.
use vstd::prelude::*;

use crate::infer::{
    kept_meeting, build_blocks, build_blocks_spec, finalize, finalize_acc, ids_of, BlockSpec, InferBlock,
    InferEvent, MIN_BLOCK,
};
use crate::instant::{in_range, minute_of, minute_spec, NANOS_PER_MIN};
use crate::lanes::{
    first_minute, fold_runs, fold_short_runs, has_two_lanes, human_source, is_human, kv, lane_key,
    lane_key_of, last_minute, minute_span, minutes_ok, owner_runs, owner_runs_spec, place,
    placement, rv, sorted_disjoint, Keyed, KeyedView, Placement, Run,
};
use crate::text::str_eq;

verus! {

pub open spec fn fv(o: Option<String>) -> Option<Seq<char>> {
    match o {
        Some(s) => Some(s@),
        None => None,
    }
}

/// The lane of an event whose project folder is `folder`: `None` for an
/// event without a working directory.
pub open spec fn lane_of(e: InferEvent, folder: Option<String>) -> Option<Seq<char>> {
    match e.project_path {
        Some(p) => Some(lane_key_of(p@, fv(folder))),
        None => None,
    }
}

/// The events ownership reads, in order: every non-calendar event with a
/// lane, as (minute, lane, whether the owner was acting).
pub open spec fn keyed_of(evs: Seq<InferEvent>, fs: Seq<Option<String>>) -> Seq<KeyedView>
    decreases evs.len(),
{
    if evs.len() == 0 {
        Seq::empty()
    } else {
        let r = keyed_of(evs.drop_last(), fs);
        let i = evs.len() - 1;
        let e = evs[i];
        if !e.spec_is_calendar() && lane_of(e, fs[i]) is Some {
            r.push((minute_spec(e.ts as int), lane_of(e, fs[i])->0, human_source(e.source@)))
        } else {
            r
        }
    }
}

pub open spec fn two_lanes(ks: Seq<KeyedView>) -> bool {
    exists|i: int, j: int| 0 <= i < ks.len() && 0 <= j < ks.len() && #[trigger] ks[i].1 != #[trigger] ks[j].1
}

/// Where event `i` goes among the runs `rs`.
pub open spec fn placed(evs: Seq<InferEvent>, fs: Seq<Option<String>>, rs: Seq<Run>, i: int) -> Placement {
    placement(rs, minute_spec(evs[i].ts as int), lane_of(evs[i], fs[i]), evs[i].spec_is_calendar())
}

/// The first `n` events placed `p`, in order.
pub open spec fn placed_as(evs: Seq<InferEvent>, fs: Seq<Option<String>>, rs: Seq<Run>, p: Placement, n: int) -> Seq<InferEvent>
    decreases n,
{
    if n <= 0 {
        Seq::empty()
    } else {
        let r = placed_as(evs, fs, rs, p, n - 1);
        if placed(evs, fs, rs, n - 1) == p {
            r.push(evs[n - 1])
        } else {
            r
        }
    }
}

/// How far minute `m` lies from the run `[s, e]`.
pub open spec fn dist(m: int, s: int, e: int) -> int {
    if m < s {
        s - m
    } else if m > e {
        m - e
    } else {
        0
    }
}

/// Among the first `n` events, the one of lane `k` nearest the run
/// `[s, e]`, the earliest in order on ties.
pub open spec fn nearest(evs: Seq<InferEvent>, fs: Seq<Option<String>>, k: Seq<char>, s: int, e: int, n: int) -> Option<int>
    decreases n,
{
    if n <= 0 {
        None
    } else {
        let r = nearest(evs, fs, k, s, e, n - 1);
        let i = n - 1;
        if !evs[i].spec_is_calendar() && lane_of(evs[i], fs[i]) == Some(k) && match r {
            None => true,
            Some(j) => dist(minute_spec(evs[i].ts as int), s, e) < dist(minute_spec(evs[j].ts as int), s, e),
        } {
            Some(i)
        } else {
            r
        }
    }
}

/// The events of run `j`'s block: those placed in it, and, when none of
/// them is of the owner's lane, the owner's event nearest the run.
pub open spec fn run_events(evs: Seq<InferEvent>, fs: Seq<Option<String>>, rs: Seq<Run>, j: int) -> Seq<InferEvent> {
    let b = placed_as(evs, fs, rs, Placement::Run(j as usize), evs.len() as int);
    let own = nearest(evs, fs, rs[j].0, rs[j].1, rs[j].2, evs.len() as int);
    if own_in(evs, fs, rs, j, evs.len() as int) {
        b
    } else {
        match own {
            Some(i) => b.push(evs[i]),
            None => b,
        }
    }
}

/// Whether among the first `n` events one of run `j`'s owner's lane is
/// placed in run `j`.
pub open spec fn own_in(evs: Seq<InferEvent>, fs: Seq<Option<String>>, rs: Seq<Run>, j: int, n: int) -> bool {
    exists|i: int| 0 <= i < n && placed(evs, fs, rs, i) == Placement::Run(j as usize) && lane_of(evs[i], fs[i]) == Some(rs[j].0)
}

pub open spec fn all_ids(evs: Seq<InferEvent>) -> Seq<i64>
    decreases evs.len(),
{
    if evs.len() == 0 {
        Seq::empty()
    } else {
        all_ids(evs.drop_last()) + ids_of(evs.last())
    }
}

/// The block of a run over minutes `s..=e` holding `evs`: it spans exactly the
/// minutes `s..=e`; none when it holds no event, is too short or lies
/// outside the representable instants.
pub open spec fn span_block(s: int, e: int, evs: Seq<InferEvent>) -> Option<BlockSpec> {
    let start = s * (NANOS_PER_MIN as int);
    let end = (e + 1) * (NANOS_PER_MIN as int);
    if evs.len() == 0 || !in_range(start) || !in_range(end) {
        None
    } else {
        finalize_acc(
            BlockSpec {
                start,
                end,
                duration_seconds: (e + 1 - s) * 60,
                event_count: evs.len(),
                event_ids: all_ids(evs),
                jira: None,
                flagged: false,
                is_calendar: false,
                events: evs,
            },
        )
    }
}

pub open spec fn push_some(s: Seq<BlockSpec>, o: Option<BlockSpec>) -> Seq<BlockSpec> {
    match o {
        Some(b) => s.push(b),
        None => s,
    }
}

/// The blocks of the first `n` runs, in run order.
pub open spec fn run_blocks(evs: Seq<InferEvent>, fs: Seq<Option<String>>, rs: Seq<Run>, n: int) -> Seq<BlockSpec>
    decreases n,
{
    if n <= 0 {
        Seq::empty()
    } else {
        push_some(run_blocks(evs, fs, rs, n - 1), span_block(rs[n - 1].1, rs[n - 1].2, run_events(evs, fs, rs, n - 1)))
    }
}

/// Where a stable insertion by start puts block `b`.
pub open spec fn block_pos(s: Seq<BlockSpec>, b: BlockSpec) -> int
    decreases s.len(),
{
    if s.len() == 0 {
        0
    } else if b.start < s[0].start {
        0
    } else {
        1 + block_pos(s.drop_first(), b)
    }
}

/// `bs` stably sorted by start.
pub open spec fn by_start(bs: Seq<BlockSpec>) -> Seq<BlockSpec>
    decreases bs.len(),
{
    if bs.len() == 0 {
        bs
    } else {
        let s = by_start(bs.drop_last());
        s.insert(block_pos(s, bs.last()), bs.last())
    }
}

/// The blocks of a day's owner runs, one per run that holds an event.
pub open spec fn project_blocks(evs: Seq<InferEvent>, fs: Seq<Option<String>>) -> Seq<BlockSpec> {
    let rs = fold_runs(owner_runs_spec(keyed_of(evs, fs)));
    run_blocks(evs, fs, rs, rs.len() as int)
}

proof fn lemma_run_blocks_ordered(evs: Seq<InferEvent>, fs: Seq<Option<String>>, rs: Seq<Run>, n: int)
    requires
        sorted_disjoint(rs),
        0 <= n <= rs.len(),
    ensures
        forall|i: int, j: int| 0 <= i < j < run_blocks(evs, fs, rs, n).len() ==>
            (#[trigger] run_blocks(evs, fs, rs, n)[i]).end <= (#[trigger] run_blocks(evs, fs, rs, n)[j]).start,
        n > 0 ==> forall|i: int| 0 <= i < run_blocks(evs, fs, rs, n).len() ==>
            (#[trigger] run_blocks(evs, fs, rs, n)[i]).end <= (rs[n - 1].2 + 1) * (NANOS_PER_MIN as int),
    decreases n,
{
    if n > 0 {
        lemma_run_blocks_ordered(evs, fs, rs, n - 1);
        let prev = run_blocks(evs, fs, rs, n - 1);
        let cur = run_blocks(evs, fs, rs, n);
        let r = rs[n - 1];
        assert(r.1 <= r.2);
        if n > 1 {
            assert(rs[n - 2].2 < rs[n - 1].1);
            assert((rs[n - 2].2 + 1) * (NANOS_PER_MIN as int) <= r.1 * (NANOS_PER_MIN as int)) by (nonlinear_arith)
                requires
                    rs[n - 2].2 + 1 <= r.1,
            ;
            assert((rs[n - 2].2 + 1) * (NANOS_PER_MIN as int) <= (r.2 + 1) * (NANOS_PER_MIN as int)) by (nonlinear_arith)
                requires
                    rs[n - 2].2 + 1 <= r.2 + 1,
            ;
        }
        match span_block(r.1, r.2, run_events(evs, fs, rs, n - 1)) {
            Some(b) => {
                assert(cur == prev.push(b));
                assert(b.start == r.1 * (NANOS_PER_MIN as int));
                assert(b.end == (r.2 + 1) * (NANOS_PER_MIN as int));
                assert forall|i: int, j: int| 0 <= i < j < cur.len() implies (#[trigger] cur[i]).end <= (#[trigger] cur[j]).start by {
                    if j < prev.len() {
                        assert(cur[i] == prev[i] && cur[j] == prev[j]);
                    } else {
                        assert(cur[i] == prev[i]);
                    }
                }
                assert forall|i: int| 0 <= i < cur.len() implies (#[trigger] cur[i]).end <= (r.2 + 1) * (NANOS_PER_MIN as int) by {
                    if i < prev.len() {
                        assert(cur[i] == prev[i]);
                    }
                }
            },
            None => {
                assert(cur == prev);
            },
        }
    }
}

/// Parallel projects never count the same time twice: the blocks of the
/// day's owner runs are in time order and never overlap, each ending no
/// later than the next one starts.
pub proof fn law_project_blocks_never_overlap(evs: Seq<InferEvent>, fs: Seq<Option<String>>)
    ensures
        forall|i: int, j: int| 0 <= i < j < project_blocks(evs, fs).len() ==>
            (#[trigger] project_blocks(evs, fs)[i]).end <= (#[trigger] project_blocks(evs, fs)[j]).start,
{
    let ks = keyed_of(evs, fs);
    let first = first_minute(ks);
    let n = (last_minute(ks) - first + 1) as nat;
    crate::lanes::law_runs_partition_owned_minutes(crate::lanes::bridged(crate::lanes::scan(ks, first, n).0), first);
    crate::lanes::law_fold_keeps_minutes(owner_runs_spec(ks));
    let rs = fold_runs(owner_runs_spec(ks));
    lemma_run_blocks_ordered(evs, fs, rs, rs.len() as int);
}

proof fn lemma_placed_as_has(evs: Seq<InferEvent>, fs: Seq<Option<String>>, rs: Seq<Run>, p: Placement, n: int, i: int)
    requires
        0 <= i < n <= evs.len(),
        placed(evs, fs, rs, i) == p,
    ensures
        placed_as(evs, fs, rs, p, n).contains(evs[i]),
    decreases n,
{
    let r = placed_as(evs, fs, rs, p, n - 1);
    if i < n - 1 {
        lemma_placed_as_has(evs, fs, rs, p, n - 1, i);
        let w = choose|w: int| 0 <= w < r.len() && r[w] == evs[i];
        if placed(evs, fs, rs, n - 1) == p {
            assert(placed_as(evs, fs, rs, p, n)[w] == evs[i]);
        }
    } else {
        assert(placed_as(evs, fs, rs, p, n) == r.push(evs[i]));
        assert(placed_as(evs, fs, rs, p, n)[r.len() as int] == evs[i]);
    }
}

proof fn lemma_by_start_multiset(bs: Seq<BlockSpec>)
    ensures
        by_start(bs).to_multiset() == bs.to_multiset(),
    decreases bs.len(),
{
    broadcast use vstd::seq_lib::group_to_multiset_ensures;

    if bs.len() > 0 {
        lemma_by_start_multiset(bs.drop_last());
        let s = by_start(bs.drop_last());
        lemma_block_pos_range(s, bs.last());
        vstd::seq_lib::to_multiset_insert(s, block_pos(s, bs.last()), bs.last());
        assert(bs =~= bs.drop_last().push(bs.last()));
    }
}

/// A meeting is never lost from a day, however many projects share it:
/// every calendar event at least `MIN_BLOCK` long is a calendar block of
/// its own among the day's blocks.
pub proof fn law_day_keeps_its_meetings(evs: Seq<InferEvent>, fs: Seq<Option<String>>)
    ensures
        forall|i: int| 0 <= i < evs.len() && kept_meeting(#[trigger] evs[i]) ==> exists|k: int|
            0 <= k < day_blocks_spec(evs, fs).len() && (#[trigger] day_blocks_spec(evs, fs)[k]).events
                == seq![evs[i]] && day_blocks_spec(evs, fs)[k].is_calendar,
{
    let ks = keyed_of(evs, fs);
    crate::infer::law_meetings_are_kept(evs);
    if !two_lanes(ks) || last_minute(ks) - first_minute(ks) >= usize::MAX {
        assert(day_blocks_spec(evs, fs) == build_blocks_spec(evs));
    } else {
        let rs = fold_runs(owner_runs_spec(ks));
        let n = evs.len() as int;
        let cal = placed_as(evs, fs, rs, Placement::Calendar, n);
        let rb = run_blocks(evs, fs, rs, rs.len() as int);
        let cb = build_blocks_spec(cal);
        let lb = build_blocks_spec(placed_as(evs, fs, rs, Placement::Leftover, n));
        let all = rb + cb + lb;
        crate::infer::law_meetings_are_kept(cal);
        lemma_by_start_multiset(all);
        assert forall|i: int| 0 <= i < evs.len() && kept_meeting(#[trigger] evs[i]) implies exists|k: int|
            0 <= k < day_blocks_spec(evs, fs).len() && (#[trigger] day_blocks_spec(evs, fs)[k]).events
                == seq![evs[i]] && day_blocks_spec(evs, fs)[k].is_calendar by {
            broadcast use vstd::seq_lib::group_to_multiset_ensures;

            assert(placed(evs, fs, rs, i) == Placement::Calendar);
            lemma_placed_as_has(evs, fs, rs, Placement::Calendar, n, i);
            let t = choose|t: int| 0 <= t < cal.len() && cal[t] == evs[i];
            assert(kept_meeting(cal[t]));
            let c = choose|c: int| 0 <= c < cb.len() && (#[trigger] cb[c]).events == seq![cal[t]] && cb[c].is_calendar;
            let blk = cb[c];
            assert(all[rb.len() + c] == blk);
            assert(all.contains(blk));
            assert(all.to_multiset().count(blk) > 0);
            let d = day_blocks_spec(evs, fs);
            assert(d == by_start(all));
            assert(d.contains(blk));
            let k = choose|k: int| 0 <= k < d.len() && d[k] == blk;
            assert(d[k].events == seq![evs[i]]);
        }
    }
}

/// A day's blocks, `fs[i]` being the project folder of event `i`'s
/// working directory where it has one.
pub open spec fn day_blocks_spec(evs: Seq<InferEvent>, fs: Seq<Option<String>>) -> Seq<BlockSpec> {
    let ks = keyed_of(evs, fs);
    if !two_lanes(ks) || last_minute(ks) - first_minute(ks) >= usize::MAX {
        build_blocks_spec(evs)
    } else {
        let rs = fold_runs(owner_runs_spec(ks));
        let n = evs.len() as int;
        by_start(
            run_blocks(evs, fs, rs, rs.len() as int)
                + build_blocks_spec(placed_as(evs, fs, rs, Placement::Calendar, n))
                + build_blocks_spec(placed_as(evs, fs, rs, Placement::Leftover, n)),
        )
    }
}


proof fn lemma_placed_as_len(evs: Seq<InferEvent>, fs: Seq<Option<String>>, rs: Seq<Run>, p: Placement, n: int)
    ensures
        placed_as(evs, fs, rs, p, n).len() <= if n < 0 { 0 } else { n },
    decreases n,
{
    if n > 0 {
        lemma_placed_as_len(evs, fs, rs, p, n - 1);
    }
}

proof fn lemma_placed_wf(evs: Seq<InferEvent>, fs: Seq<Option<String>>, rs: Seq<Run>, p: Placement, n: int)
    requires
        n <= evs.len(),
        forall|i: int| 0 <= i < evs.len() ==> (#[trigger] evs[i]).well_formed(),
    ensures
        forall|i: int| 0 <= i < placed_as(evs, fs, rs, p, n).len() ==> (#[trigger] placed_as(evs, fs, rs, p, n)[i]).well_formed(),
    decreases n,
{
    if n > 0 {
        lemma_placed_wf(evs, fs, rs, p, n - 1);
        assert(evs[n - 1].well_formed());
        let r = placed_as(evs, fs, rs, p, n - 1);
        let q = placed_as(evs, fs, rs, p, n);
        assert forall|i: int| 0 <= i < q.len() implies (#[trigger] q[i]).well_formed() by {
            if i < r.len() {
                assert(q[i] == r[i]);
            }
        }
    }
}

fn same_placement(a: Placement, b: Placement) -> (r: bool)
    ensures
        r == (a == b),
{
    match (a, b) {
        (Placement::Calendar, Placement::Calendar) => true,
        (Placement::Claimed, Placement::Claimed) => true,
        (Placement::Leftover, Placement::Leftover) => true,
        (Placement::Run(x), Placement::Run(y)) => x == y,
        _ => false,
    }
}

/// The lane of `e`, given its project folder.
fn lane(e: &InferEvent, folder: &Option<String>) -> (r: Option<String>)
    ensures
        fv(r) == lane_of(*e, *folder),
{
    match &e.project_path {
        Some(p) => Some(
            lane_key(
                p.as_str(),
                match folder {
                    Some(f) => Some(f.as_str()),
                    None => None,
                },
            ),
        ),
        None => None,
    }
}

fn keyed_events(evs: &Vec<InferEvent>, fs: &Vec<Option<String>>) -> (r: Vec<Keyed>)
    requires
        evs@.len() == fs@.len(),
        forall|i: int| 0 <= i < evs@.len() ==> (#[trigger] evs@[i]).well_formed(),
    ensures
        kv(r@) == keyed_of(evs@, fs@),
        minutes_ok(kv(r@)),
{
    let mut out: Vec<Keyed> = Vec::new();
    let mut i: usize = 0;
    while i < evs.len()
        invariant
            i <= evs@.len() == fs@.len(),
            forall|x: int| 0 <= x < evs@.len() ==> (#[trigger] evs@[x]).well_formed(),
            kv(out@) == keyed_of(evs@.take(i as int), fs@),
            minutes_ok(kv(out@)),
        decreases evs@.len() - i,
    {
        assert(evs@.take(i + 1).drop_last() =~= evs@.take(i as int));
        assert(evs@.take(i + 1)[i as int] == evs@[i as int]);
        let e = &evs[i];
        assert(e.well_formed());
        if !e.is_calendar() {
            match lane(e, &fs[i]) {
                Some(k) => {
                    let ghost before = out@;
                    let m = minute_of(e.ts);
                    assert(crate::lanes::minute_ok(m as int)) by (nonlinear_arith)
                        requires
                            m == (e.ts as int) / 60_000_000_000,
                            -1_180_591_620_717_411_303_424 <= e.ts <= 1_180_591_620_717_411_303_424,
                    ;
                    let h = is_human(e.source.as_str());
                    out.push(Keyed { minute: m, key: k, human: h });
                    assert(kv(out@) =~= kv(before).push((minute_spec(e.ts as int), lane_of(*e, fs@[i as int])->0, human_source(e.source@))));
                },
                None => {},
            }
        }
        i = i + 1;
    }
    assert(evs@.take(evs@.len() as int) =~= evs@);
    out
}

fn placement_of(evs: &Vec<InferEvent>, fs: &Vec<Option<String>>, runs: &Vec<(String, i64, i64)>, i: usize) -> (p: Placement)
    requires
        i < evs@.len() == fs@.len(),
        evs@[i as int].well_formed(),
    ensures
        p == placed(evs@, fs@, rv(runs@), i as int),
{
    let e = &evs[i];
    let k = lane(e, &fs[i]);
    let m = minute_of(e.ts);
    place(
        runs,
        m,
        match &k {
            Some(x) => Some(x.as_str()),
            None => None,
        },
        e.is_calendar(),
    )
}

fn placed_list(evs: &Vec<InferEvent>, fs: &Vec<Option<String>>, runs: &Vec<(String, i64, i64)>, p: Placement) -> (r: Vec<InferEvent>)
    requires
        evs@.len() == fs@.len(),
        forall|i: int| 0 <= i < evs@.len() ==> (#[trigger] evs@[i]).well_formed(),
    ensures
        r@ == placed_as(evs@, fs@, rv(runs@), p, evs@.len() as int),
{
    let mut out: Vec<InferEvent> = Vec::new();
    let mut i: usize = 0;
    while i < evs.len()
        invariant
            i <= evs@.len() == fs@.len(),
            forall|x: int| 0 <= x < evs@.len() ==> (#[trigger] evs@[x]).well_formed(),
            out@ == placed_as(evs@, fs@, rv(runs@), p, i as int),
        decreases evs@.len() - i,
    {
        let q = placement_of(evs, fs, runs, i);
        if same_placement(q, p) {
            out.push(evs[i].copy());
        }
        i = i + 1;
    }
    out
}

fn own_placed(evs: &Vec<InferEvent>, fs: &Vec<Option<String>>, runs: &Vec<(String, i64, i64)>, j: usize) -> (r: bool)
    requires
        evs@.len() == fs@.len(),
        j < runs@.len(),
        forall|i: int| 0 <= i < evs@.len() ==> (#[trigger] evs@[i]).well_formed(),
    ensures
        r == own_in(evs@, fs@, rv(runs@), j as int, evs@.len() as int),
{
    let ghost rs = rv(runs@);
    let mut i: usize = 0;
    while i < evs.len()
        invariant
            i <= evs@.len() == fs@.len(),
            j < runs@.len(),
            rs == rv(runs@),
            forall|x: int| 0 <= x < evs@.len() ==> (#[trigger] evs@[x]).well_formed(),
            !own_in(evs@, fs@, rs, j as int, i as int),
        decreases evs@.len() - i,
    {
        let q = placement_of(evs, fs, runs, i);
        if same_placement(q, Placement::Run(j)) {
            match lane(&evs[i], &fs[i]) {
                Some(k) => {
                    if str_eq(k.as_str(), runs[j].0.as_str()) {
                        assert(rs[j as int].0 == runs@[j as int].0@);
                        assert(placed(evs@, fs@, rs, i as int) == Placement::Run(j) && lane_of(evs@[i as int], fs@[i as int]) == Some(rs[j as int].0));
                        return true;
                    }
                },
                None => {},
            }
        }
        assert(!own_in(evs@, fs@, rs, j as int, i + 1)) by {
            if own_in(evs@, fs@, rs, j as int, i + 1) {
                let x = choose|x: int| 0 <= x < i + 1 && placed(evs@, fs@, rs, x) == Placement::Run(j) && lane_of(evs@[x], fs@[x]) == Some(rs[j as int].0);
                assert(x == i);
                assert(rs[j as int].0 == runs@[j as int].0@);
            }
        }
        i = i + 1;
    }
    false
}

fn dist_of(m: i64, s: i64, e: i64) -> (d: i128)
    ensures
        d == dist(m as int, s as int, e as int),
{
    if m < s {
        s as i128 - m as i128
    } else if m > e {
        m as i128 - e as i128
    } else {
        0
    }
}

fn nearest_own(evs: &Vec<InferEvent>, fs: &Vec<Option<String>>, k: &String, s: i64, e: i64) -> (r: Option<usize>)
    requires
        evs@.len() == fs@.len(),
        forall|i: int| 0 <= i < evs@.len() ==> (#[trigger] evs@[i]).well_formed(),
    ensures
        match r {
            Some(i) => nearest(evs@, fs@, k@, s as int, e as int, evs@.len() as int) == Some(i as int) && i < evs@.len(),
            None => nearest(evs@, fs@, k@, s as int, e as int, evs@.len() as int) is None,
        },
{
    let mut best: Option<usize> = None;
    let mut best_d: i128 = 0;
    let mut i: usize = 0;
    while i < evs.len()
        invariant
            i <= evs@.len() == fs@.len(),
            forall|x: int| 0 <= x < evs@.len() ==> (#[trigger] evs@[x]).well_formed(),
            match best {
                Some(b) => nearest(evs@, fs@, k@, s as int, e as int, i as int) == Some(b as int) && b < i
                    && best_d == dist(minute_spec(evs@[b as int].ts as int), s as int, e as int),
                None => nearest(evs@, fs@, k@, s as int, e as int, i as int) is None,
            },
        decreases evs@.len() - i,
    {
        let ev = &evs[i];
        assert(ev.well_formed());
        if !ev.is_calendar() {
            match lane(ev, &fs[i]) {
                Some(l) => {
                    if str_eq(l.as_str(), k.as_str()) {
                        let d = dist_of(minute_of(ev.ts), s, e);
                        let better = match best {
                            None => true,
                            Some(_) => d < best_d,
                        };
                        if better {
                            best = Some(i);
                            best_d = d;
                        }
                    }
                },
                None => {},
            }
        }
        i = i + 1;
    }
    best
}

proof fn lemma_all_ids_push(evs: Seq<InferEvent>, e: InferEvent)
    ensures
        all_ids(evs.push(e)) == all_ids(evs) + ids_of(e),
{
    assert(evs.push(e).drop_last() =~= evs);
}

/// The block of a run over minutes `s..=e` holding `evs`.
fn span(s: i64, e: i64, evs: Vec<InferEvent>) -> (r: Option<InferBlock>)
    requires
        evs@.len() < u32::MAX,
    ensures
        match r {
            Some(b) => span_block(s as int, e as int, evs@) == Some(b@),
            None => span_block(s as int, e as int, evs@) is None,
        },
{
    let start = s as i128 * 60_000_000_000i128;
    let end = (e as i128 + 1) * 60_000_000_000i128;
    if evs.len() == 0 || start < -crate::instant::INSTANT_BOUND || start > crate::instant::INSTANT_BOUND
        || end < -crate::instant::INSTANT_BOUND || end > crate::instant::INSTANT_BOUND {
        return None;
    }
    let mut ids: Vec<i64> = Vec::new();
    let mut i: usize = 0;
    while i < evs.len()
        invariant
            i <= evs@.len(),
            ids@ == all_ids(evs@.take(i as int)),
        decreases evs@.len() - i,
    {
        proof {
            assert(evs@.take(i + 1) =~= evs@.take(i as int).push(evs@[i as int]));
            lemma_all_ids_push(evs@.take(i as int), evs@[i as int]);
        }
        match evs[i].event_id {
            Some(id) => {
                ids.push(id);
            },
            None => {},
        }
        i = i + 1;
    }
    assert(evs@.take(evs@.len() as int) =~= evs@);
    let secs: i128 = (e as i128 + 1 - s as i128) * 60;
    assert(secs == (end - start) / 1_000_000_000) by (nonlinear_arith)
        requires
            start == s * 60_000_000_000,
            end == (e + 1) * 60_000_000_000,
            secs == (e + 1 - s) * 60,
    ;
    assert(-2_400_000_000_000 < secs < 2_400_000_000_000) by (nonlinear_arith)
        requires
            secs == (end - start) / 1_000_000_000,
            -1_180_591_620_717_411_303_424 <= start <= 1_180_591_620_717_411_303_424,
            -1_180_591_620_717_411_303_424 <= end <= 1_180_591_620_717_411_303_424,
    ;
    let n = evs.len() as u32;
    let block = InferBlock {
        started_at: start,
        ended_at: end,
        duration_seconds: secs as i64,
        event_count: n,
        event_ids: ids,
        jira_issue: None,
        flagged: false,
        is_calendar: false,
        events: evs,
    };
    finalize(block)
}


proof fn lemma_block_pos_range(s: Seq<BlockSpec>, b: BlockSpec)
    ensures
        0 <= block_pos(s, b) <= s.len(),
    decreases s.len(),
{
    if s.len() > 0 {
        lemma_block_pos_range(s.drop_first(), b);
    }
}

proof fn lemma_block_pos_is(s: Seq<BlockSpec>, b: BlockSpec, i: int)
    requires
        0 <= i <= s.len(),
        forall|j: int| 0 <= j < i ==> (#[trigger] s[j]).start <= b.start,
        i < s.len() ==> b.start < s[i].start,
    ensures
        block_pos(s, b) == i,
    decreases s.len(),
{
    if s.len() > 0 && i > 0 {
        assert forall|j: int| 0 <= j < i - 1 implies (#[trigger] s.drop_first()[j]).start <= b.start by {
            assert(s.drop_first()[j] == s[j + 1]);
        }
        lemma_block_pos_is(s.drop_first(), b, i - 1);
    }
}

pub open spec fn views(v: Seq<InferBlock>) -> Seq<BlockSpec> {
    v.map_values(|b: InferBlock| b@)
}

/// Stable insertion sort of blocks by start.
fn sort_blocks(blocks: Vec<InferBlock>) -> (r: Vec<InferBlock>)
    ensures
        views(r@) == by_start(views(blocks@)),
{
    let ghost bv = views(blocks@);
    let mut rest = blocks;
    let mut sorted: Vec<InferBlock> = Vec::new();
    let mut k: usize = 0;
    let n = rest.len();
    while rest.len() > 0
        invariant
            rest@.len() + k == n,
            n == bv.len(),
            views(rest@) == bv.skip(k as int),
            views(sorted@) == by_start(bv.take(k as int)),
        decreases rest@.len(),
    {
        let ghost rv_before = rest@;
        let b = rest.remove(0);
        proof {
            assert(b@ == views(rv_before)[0]);
            assert(views(rv_before)[0] == bv[k as int]);
            assert(rest@ =~= rv_before.subrange(1, rv_before.len() as int));
            assert forall|x: int| 0 <= x < views(rest@).len() implies views(rest@)[x] == bv.skip(k + 1)[x] by {
                assert(rest@[x] == rv_before[x + 1]);
                assert(views(rv_before)[x + 1] == bv.skip(k as int)[x + 1]);
            }
            assert(views(rest@) =~= bv.skip(k + 1));
            assert(bv.take(k + 1).drop_last() =~= bv.take(k as int));
            assert(bv.take(k + 1).last() == bv[k as int]);
        }
        let mut i: usize = 0;
        while i < sorted.len() && sorted[i].started_at <= b.started_at
            invariant
                i <= sorted@.len(),
                forall|j: int| 0 <= j < i ==> (#[trigger] sorted@[j]).started_at <= b.started_at,
            decreases sorted@.len() - i,
        {
            i = i + 1;
        }
        proof {
            let sv = views(sorted@);
            assert forall|j: int| 0 <= j < i implies (#[trigger] sv[j]).start <= b@.start by {
                assert(sv[j] == sorted@[j]@);
            }
            if i < sorted@.len() {
                assert(sv[i as int] == sorted@[i as int]@);
            }
            lemma_block_pos_is(sv, b@, i as int);
        }
        let ghost before = views(sorted@);
        sorted.insert(i, b);
        assert(views(sorted@) =~= before.insert(i as int, bv[k as int]));
        k = k + 1;
    }
    assert(bv.take(n as int) =~= bv);
    sorted
}

/// A day's blocks, split by project where parallel projects share it:
/// `folders[i]` is the project folder of event `i`'s working directory
/// (`None` when it has none or none is known). See [`day_blocks_spec`].
pub fn day_blocks(events: Vec<InferEvent>, folders: &Vec<Option<String>>) -> (blocks: Vec<InferBlock>)
    requires
        events@.len() == folders@.len(),
        forall|i: int| 0 <= i < events@.len() ==> (#[trigger] events@[i]).well_formed(),
        events@.len() < u32::MAX - 1,
    ensures
        views(blocks@) == day_blocks_spec(events@, folders@),
{
    let keyed = keyed_events(&events, folders);
    proof {
        assert(kv(keyed@) == keyed_of(events@, folders@));
    }
    let ghost ks = keyed_of(events@, folders@);
    if !has_two_lanes(&keyed) {
        proof {
            assert(!two_lanes(ks)) by {
                if two_lanes(ks) {
                    let (i, j) = choose|i: int, j: int| 0 <= i < ks.len() && 0 <= j < ks.len() && #[trigger] ks[i].1 != #[trigger] ks[j].1;
                    assert(ks[i].1 == keyed@[i].key@ && ks[j].1 == keyed@[j].key@);
                }
            }
        }
        return build_blocks(events);
    }
    let (first, last) = minute_span(&keyed);
    if last as i128 - first as i128 >= usize::MAX as i128 {
        return build_blocks(events);
    }
    proof {
        let (i, j) = choose|i: int, j: int| 0 <= i < keyed@.len() && 0 <= j < keyed@.len() && (#[trigger] keyed@[i]).key@ != (#[trigger] keyed@[j]).key@;
        assert(ks[i].1 == keyed@[i].key@ && ks[j].1 == keyed@[j].key@);
        assert(two_lanes(ks));
    }
    let runs = fold_short_runs(owner_runs(&keyed));
    let ghost rs = rv(runs@);
    let n = events.len();
    let mut blocks: Vec<InferBlock> = Vec::new();
    let mut j: usize = 0;
    while j < runs.len()
        invariant
            j <= runs@.len(),
            rs == rv(runs@),
            n == events@.len() == folders@.len(),
            n < u32::MAX - 1,
            forall|i: int| 0 <= i < events@.len() ==> (#[trigger] events@[i]).well_formed(),
            views(blocks@) == run_blocks(events@, folders@, rs, j as int),
        decreases runs@.len() - j,
    {
        let mut evs = placed_list(&events, folders, &runs, Placement::Run(j));
        proof {
            lemma_placed_as_len(events@, folders@, rs, Placement::Run(j), n as int);
        }
        if !own_placed(&events, folders, &runs, j) {
            match nearest_own(&events, folders, &runs[j].0, runs[j].1, runs[j].2) {
                Some(i) => {
                    evs.push(events[i].copy());
                },
                None => {},
            }
        }
        proof {
            assert(rs[j as int] == (runs@[j as int].0@, runs@[j as int].1 as int, runs@[j as int].2 as int));
        }
        assert(evs@ == run_events(events@, folders@, rs, j as int));
        let ghost before = views(blocks@);
        match span(runs[j].1, runs[j].2, evs) {
            Some(b) => {
                blocks.push(b);
                assert(views(blocks@) =~= before.push(b@));
            },
            None => {},
        }
        j = j + 1;
    }
    let cal = placed_list(&events, folders, &runs, Placement::Calendar);
    let left = placed_list(&events, folders, &runs, Placement::Leftover);
    proof {
        lemma_placed_as_len(events@, folders@, rs, Placement::Calendar, n as int);
        lemma_placed_as_len(events@, folders@, rs, Placement::Leftover, n as int);
    }
    proof {
        lemma_placed_wf(events@, folders@, rs, Placement::Calendar, n as int);
        lemma_placed_wf(events@, folders@, rs, Placement::Leftover, n as int);
    }
    let ghost rb = views(blocks@);
    let mut cb = build_blocks(cal);
    let ghost cv = views(cb@);
    let mut lb = build_blocks(left);
    let ghost lv = views(lb@);
    blocks.append(&mut cb);
    blocks.append(&mut lb);
    assert(views(blocks@) =~= rb + cv + lv);
    sort_blocks(blocks)
}

} // verus!
