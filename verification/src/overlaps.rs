//! Where two work projects were both active at once.
//!
//! Minute ownership picks one owner per minute so blocks never
//! double-bill, but the owner sometimes wants to see the runner-up and
//! rebalance the split themselves. This module finds every maximal window
//! of at least ten minutes in which two or more work projects were
//! active, and how much each project did in it.
//!
//! A project is active over the gap-bridged span of its events: each
//! event counts `CREDIT` long, and gaps of up to `WINDOW_MINUTES` inside
//! one project's activity are bridged (the same "five quiet minutes is
//! still the same stretch of work" rule minute ownership uses).
use vstd::prelude::*;

use crate::infer::{InferEvent, CREDIT};
use crate::lanes::{human_source, is_human, is_work, work_key};
use crate::instant::{trunc_div, INSTANT_BOUND, NANOS_PER_MIN};
use crate::order::{lemma_lex_irreflexive, lex_lt, str_lt};
use crate::text::{chars_of, str_eq};

verus! {

/// One project's activity inside an overlap window.
#[derive(Debug, Clone, PartialEq, Eq)]
pub struct OverlapProject {
    pub project: String,
    pub human_events: usize,
    pub background_events: usize,
}

/// A maximal window (instants in nanoseconds) where two or more work
/// projects were active together.
#[derive(Debug, Clone, PartialEq, Eq)]
pub struct Overlap {
    pub started_at: i128,
    pub ended_at: i128,
    pub minutes: i64,
    pub projects: Vec<OverlapProject>,
}

/// One work project's gap-bridged activity span.
#[derive(Debug, Clone, PartialEq, Eq)]
pub struct ProjectActivity {
    pub project: String,
    pub started_at: i128,
    pub ended_at: i128,
}

/// A non-calendar event of a work project: when, which project, and
/// whether the owner was acting.
#[derive(Debug, Clone)]
pub struct Activity {
    pub ts: i128,
    pub project: String,
    pub human: bool,
}

/// Gaps up to this long (5 minutes) inside one project's activity are
/// bridged.
pub const GAP: i128 = 300_000_000_000;

/// Overlaps shorter than this many minutes are not reported.
pub const MIN_OVERLAP_MINUTES: i64 = 10;

pub type ActView = (int, Seq<char>, bool);

pub open spec fn av(v: Seq<Activity>) -> Seq<ActView> {
    v.map_values(|a: Activity| (a.ts as int, a.project@, a.human))
}

/// An instant whose credited end is representable.
pub open spec fn ts_ok(t: int) -> bool {
    -INSTANT_BOUND <= t && t + CREDIT <= INSTANT_BOUND
}

pub open spec fn acts_ok(s: Seq<ActView>) -> bool {
    forall|i: int| 0 <= i < s.len() ==> ts_ok(#[trigger] s[i].0)
}

// ───────────────────────── sorted distinct keys ─────────────────────────

/// `l` with `k` inserted before the first larger key, unless present.
pub open spec fn ins_key(l: Seq<Seq<char>>, k: Seq<char>) -> Seq<Seq<char>>
    decreases l.len(),
{
    if l.len() == 0 {
        seq![k]
    } else if l[0] == k {
        l
    } else if lex_lt(k, l[0]) {
        seq![k] + l
    } else {
        seq![l[0]] + ins_key(l.drop_first(), k)
    }
}

/// The distinct keys of `ks`, in `String` order.
pub open spec fn sorted_keys(ks: Seq<Seq<char>>) -> Seq<Seq<char>>
    decreases ks.len(),
{
    if ks.len() == 0 {
        Seq::empty()
    } else {
        ins_key(sorted_keys(ks.drop_last()), ks.last())
    }
}

pub open spec fn sv(v: Seq<String>) -> Seq<Seq<char>> {
    v.map_values(|s: String| s@)
}

proof fn lemma_ins_key_step(l: Seq<Seq<char>>, k: Seq<char>, i: int)
    requires
        0 <= i < l.len(),
        forall|j: int| 0 <= j < i ==> l[j] != k && !lex_lt(k, l[j]),
    ensures
        ins_key(l, k) == l.take(i) + ins_key(l.skip(i), k),
    decreases i,
{
    if i > 0 {
        lemma_ins_key_step(l.drop_first(), k, i - 1);
        assert(l.drop_first().take(i - 1) =~= l.take(i).drop_first());
        assert(l.drop_first().skip(i - 1) =~= l.skip(i));
        assert(l.take(i) =~= seq![l[0]] + l.take(i).drop_first());
        assert(ins_key(l, k) == seq![l[0]] + ins_key(l.drop_first(), k));
        assert(seq![l[0]] + (l.take(i).drop_first() + ins_key(l.skip(i), k)) =~= l.take(i)
            + ins_key(l.skip(i), k));
    } else {
        assert(l.skip(0) =~= l);
        assert(l.take(0) + ins_key(l, k) =~= ins_key(l, k));
    }
}

/// `l` with `k` inserted as `ins_key` does.
fn insert_key(l: &Vec<String>, k: &String) -> (r: Vec<String>)
    ensures
        sv(r@) == ins_key(sv(l@), k@),
{
    let ghost lv = sv(l@);
    let kc = chars_of(k.as_str());
    let mut out: Vec<String> = Vec::new();
    let mut i: usize = 0;
    while i < l.len()
        invariant
            i <= l@.len(),
            lv == sv(l@),
            kc@ == k@,
            sv(out@) == lv.take(i as int),
            forall|j: int| 0 <= j < i ==> lv[j] != k@ && !lex_lt(k@, lv[j]),
        decreases l@.len() - i,
    {
        let x = &l[i];
        if str_eq(x.as_str(), k.as_str()) {
            proof {
                lemma_ins_key_step(lv, k@, i as int);
                assert(lv.skip(i as int)[0] == k@);
            }
            let mut rest = out;
            let mut j = i;
            while j < l.len()
                invariant
                    i <= j <= l@.len(),
                    lv == sv(l@),
                    sv(rest@) == lv.take(j as int),
                decreases l@.len() - j,
            {
                rest.push(l[j].clone());
                assert(lv.take(j + 1) =~= lv.take(j as int).push(lv[j as int]));
                j = j + 1;
            }
            assert(lv.take(l@.len() as int) =~= lv);
            assert(lv.take(i as int) + lv.skip(i as int) =~= lv);
            return rest;
        }
        let xc = chars_of(x.as_str());
        if str_lt(&kc, &xc) {
            proof {
                lemma_ins_key_step(lv, k@, i as int);
            }
            let mut rest = out;
            rest.push(k.clone());
            let mut j = i;
            while j < l.len()
                invariant
                    i <= j <= l@.len(),
                    lv == sv(l@),
                    sv(rest@) == lv.take(i as int) + seq![k@] + lv.subrange(i as int, j as int),
                decreases l@.len() - j,
            {
                rest.push(l[j].clone());
                assert(lv.take(i as int) + seq![k@] + lv.subrange(i as int, j + 1) =~= (lv.take(
                    i as int,
                ) + seq![k@] + lv.subrange(i as int, j as int)).push(lv[j as int]));
                j = j + 1;
            }
            assert(ins_key(lv.skip(i as int), k@) =~= seq![k@] + lv.skip(i as int));
            assert(lv.take(i as int) + seq![k@] + lv.subrange(i as int, lv.len() as int) =~= lv.take(
                i as int,
            ) + (seq![k@] + lv.skip(i as int)));
            return rest;
        }
        out.push(x.clone());
        assert(lv.take(i + 1) =~= lv.take(i as int).push(lv[i as int]));
        i = i + 1;
    }
    out.push(k.clone());
    proof {
        if lv.len() > 0 {
            lemma_ins_key_step(lv, k@, lv.len() - 1);
            let t = lv.skip(lv.len() - 1);
            assert(t =~= seq![lv[lv.len() - 1]]);
            assert(t.drop_first() =~= Seq::<Seq<char>>::empty());
            assert(t[0] == lv[lv.len() - 1]);
            assert(t[0] != k@ && !lex_lt(k@, t[0]));
            assert(ins_key(t.drop_first(), k@) == seq![k@]);
            assert(ins_key(t, k@) == seq![t[0]] + ins_key(t.drop_first(), k@));
            assert(ins_key(t, k@) =~= seq![lv[lv.len() - 1], k@]);
            assert(lv.take(lv.len() - 1) + seq![lv[lv.len() - 1], k@] =~= lv.push(k@));
        }
    }
    assert(lv.take(i as int) =~= lv);
    out
}

// ───────────────────────── per-project spans ─────────────────────────

/// `l` (ascending) with `t` inserted after the entries not above it.
pub open spec fn ins_int(l: Seq<int>, t: int) -> Seq<int>
    decreases l.len(),
{
    if l.len() == 0 {
        seq![t]
    } else if t < l[0] {
        seq![t] + l
    } else {
        seq![l[0]] + ins_int(l.drop_first(), t)
    }
}

/// `ts` in ascending order.
pub open spec fn sort_ints(ts: Seq<int>) -> Seq<int>
    decreases ts.len(),
{
    if ts.len() == 0 {
        Seq::empty()
    } else {
        ins_int(sort_ints(ts.drop_last()), ts.last())
    }
}

/// The instants of project `p`'s activities, in input order.
pub open spec fn times_of(s: Seq<ActView>, p: Seq<char>) -> Seq<int>
    decreases s.len(),
{
    if s.len() == 0 {
        Seq::empty()
    } else if s.last().1 == p {
        times_of(s.drop_last(), p).push(s.last().0)
    } else {
        times_of(s.drop_last(), p)
    }
}

/// Merging ascending instants into spans: the closed spans so far and the
/// span still open.
pub open spec fn merge_scan(ts: Seq<int>) -> (Seq<(int, int)>, Option<(int, int)>)
    decreases ts.len(),
{
    if ts.len() == 0 {
        (Seq::empty(), None)
    } else {
        let (out, cur) = merge_scan(ts.drop_last());
        let t = ts.last();
        let end = t + CREDIT;
        match cur {
            Some(c) => if t - c.1 <= GAP {
                (out, Some((c.0, if end > c.1 { end } else { c.1 })))
            } else {
                (out.push(c), Some((t, end)))
            },
            None => (out, Some((t, end))),
        }
    }
}

/// The gap-bridged spans of ascending instants.
pub open spec fn spans(ts: Seq<int>) -> Seq<(int, int)> {
    let (out, cur) = merge_scan(ts);
    match cur {
        Some(c) => out.push(c),
        None => out,
    }
}

pub type Interval = (Seq<char>, int, int);

pub open spec fn tag(p: Seq<char>, sp: Seq<(int, int)>) -> Seq<Interval> {
    sp.map_values(|x: (int, int)| (p, x.0, x.1))
}

/// The spans of the projects `keys`, project by project.
pub open spec fn spans_of_keys(s: Seq<ActView>, keys: Seq<Seq<char>>) -> Seq<Interval>
    decreases keys.len(),
{
    if keys.len() == 0 {
        Seq::empty()
    } else {
        spans_of_keys(s, keys.drop_last()) + tag(
            keys.last(),
            spans(sort_ints(times_of(s, keys.last()))),
        )
    }
}

pub open spec fn projects_of(s: Seq<ActView>) -> Seq<Seq<char>> {
    s.map_values(|a: ActView| a.1)
}

/// Every work project's gap-bridged activity spans, projects in `String`
/// order and each project's spans in time order.
pub open spec fn project_intervals_spec(s: Seq<ActView>) -> Seq<Interval> {
    spans_of_keys(s, sorted_keys(projects_of(s)))
}


pub open spec fn tv(v: Seq<i128>) -> Seq<int> {
    v.map_values(|t: i128| t as int)
}

pub open spec fn ivv(v: Seq<(String, i128, i128)>) -> Seq<Interval> {
    v.map_values(|x: (String, i128, i128)| (x.0@, x.1 as int, x.2 as int))
}

/// The distinct projects of `acts`, in `String` order.
fn project_keys(acts: &Vec<Activity>) -> (r: Vec<String>)
    ensures
        sv(r@) == sorted_keys(projects_of(av(acts@))),
{
    let ghost ps = projects_of(av(acts@));
    let mut keys: Vec<String> = Vec::new();
    let mut i: usize = 0;
    assert(ps.take(0) =~= Seq::<Seq<char>>::empty());
    assert(sv(keys@) =~= Seq::<Seq<char>>::empty());
    while i < acts.len()
        invariant
            i <= acts@.len(),
            ps == projects_of(av(acts@)),
            sv(keys@) == sorted_keys(ps.take(i as int)),
        decreases acts@.len() - i,
    {
        assert(ps.take(i + 1).drop_last() =~= ps.take(i as int));
        assert(ps.take(i + 1).last() == acts@[i as int].project@);
        keys = insert_key(&keys, &acts[i].project);
        i = i + 1;
    }
    assert(ps.take(acts@.len() as int) =~= ps);
    keys
}

proof fn lemma_ins_int_step(l: Seq<int>, t: int, i: int)
    requires
        0 <= i <= l.len(),
        forall|j: int| 0 <= j < i ==> !(t < l[j]),
    ensures
        ins_int(l, t) == l.take(i) + ins_int(l.skip(i), t),
    decreases i,
{
    if i > 0 {
        lemma_ins_int_step(l.drop_first(), t, i - 1);
        assert(l.drop_first().take(i - 1) =~= l.take(i).drop_first());
        assert(l.drop_first().skip(i - 1) =~= l.skip(i));
        assert(l.take(i) =~= seq![l[0]] + l.take(i).drop_first());
        assert(seq![l[0]] + (l.take(i).drop_first() + ins_int(l.skip(i), t)) =~= l.take(i)
            + ins_int(l.skip(i), t));
    } else {
        assert(l.skip(0) =~= l);
        assert(l.take(0) + ins_int(l, t) =~= ins_int(l, t));
    }
}

/// `l` with `t` inserted as `ins_int` does.
fn insert_int(l: &Vec<i128>, t: i128) -> (r: Vec<i128>)
    ensures
        tv(r@) == ins_int(tv(l@), t as int),
{
    let ghost lv = tv(l@);
    let mut i: usize = 0;
    while i < l.len() && !(t < l[i])
        invariant
            i <= l@.len(),
            lv == tv(l@),
            forall|j: int| 0 <= j < i ==> !(t < lv[j]),
        decreases l@.len() - i,
    {
        i = i + 1;
    }
    proof {
        lemma_ins_int_step(lv, t as int, i as int);
        if i < lv.len() {
            assert(lv.skip(i as int)[0] == lv[i as int]);
            assert(ins_int(lv.skip(i as int), t as int) == seq![t as int] + lv.skip(i as int));
        } else {
            assert(lv.skip(i as int) =~= Seq::<int>::empty());
        }
    }
    let mut out: Vec<i128> = Vec::new();
    let mut j: usize = 0;
    while j < i
        invariant
            j <= i <= l@.len(),
            lv == tv(l@),
            tv(out@) == lv.take(j as int),
        decreases i - j,
    {
        let ghost before = out@;
        out.push(l[j]);
        assert(tv(out@) =~= tv(before).push(lv[j as int]));
        assert(tv(out@) =~= lv.take(j + 1));
        j = j + 1;
    }
    out.push(t);
    let mut k = i;
    while k < l.len()
        invariant
            i <= k <= l@.len(),
            lv == tv(l@),
            tv(out@) == lv.take(i as int) + seq![t as int] + lv.subrange(i as int, k as int),
        decreases l@.len() - k,
    {
        let ghost before = out@;
        out.push(l[k]);
        assert(tv(out@) =~= tv(before).push(lv[k as int]));
        assert(tv(out@) =~= lv.take(i as int) + seq![t as int] + lv.subrange(i as int, k + 1));
        k = k + 1;
    }
    assert(lv.take(i as int) + seq![t as int] + lv.subrange(i as int, lv.len() as int) =~= lv.take(
        i as int,
    ) + ins_int(lv.skip(i as int), t as int));
    out
}

/// The ascending instants of project `p`'s activities.
fn sorted_times(acts: &Vec<Activity>, p: &String) -> (r: Vec<i128>)
    requires
        acts_ok(av(acts@)),
    ensures
        tv(r@) == sort_ints(times_of(av(acts@), p@)),
        forall|i: int| 0 <= i < r@.len() ==> ts_ok(#[trigger] r@[i] as int),
{
    let ghost s = av(acts@);
    let mut ts: Vec<i128> = Vec::new();
    let ghost mut raw: Seq<int> = Seq::empty();
    let mut i: usize = 0;
    assert(s.take(0) =~= Seq::<ActView>::empty());
    while i < acts.len()
        invariant
            i <= acts@.len(),
            s == av(acts@),
            acts_ok(s),
            raw == times_of(s.take(i as int), p@),
            tv(ts@) == sort_ints(raw),
            forall|x: int| 0 <= x < ts@.len() ==> ts_ok(#[trigger] ts@[x] as int),
        decreases acts@.len() - i,
    {
        assert(s.take(i + 1).drop_last() =~= s.take(i as int));
        assert(s.take(i + 1).last() == s[i as int]);
        if str_eq(acts[i].project.as_str(), p.as_str()) {
            let t = acts[i].ts;
            assert(ts_ok(s[i as int].0));
            let ghost old_ts = ts@;
            ts = insert_int(&ts, t);
            proof {
                let r2 = raw.push(t as int);
                assert(r2.drop_last() =~= raw);
                raw = r2;
                lemma_ins_int_ok(tv(old_ts), t as int);
                assert forall|x: int| 0 <= x < ts@.len() implies ts_ok(#[trigger] ts@[x] as int) by {
                    assert(tv(ts@)[x] == ts@[x] as int);
                }
            }
        }
        i = i + 1;
    }
    assert(s.take(acts@.len() as int) =~= s);
    ts
}

proof fn lemma_ins_int_ok(l: Seq<int>, t: int)
    requires
        forall|i: int| 0 <= i < l.len() ==> ts_ok(#[trigger] l[i]),
        ts_ok(t),
    ensures
        forall|i: int| 0 <= i < ins_int(l, t).len() ==> ts_ok(#[trigger] ins_int(l, t)[i]),
    decreases l.len(),
{
    if l.len() > 0 && !(t < l[0]) {
        lemma_ins_int_ok(l.drop_first(), t);
        assert forall|i: int| 0 <= i < ins_int(l, t).len() implies ts_ok(#[trigger] ins_int(l, t)[i]) by {
            if i > 0 {
                assert(ins_int(l, t)[i] == ins_int(l.drop_first(), t)[i - 1]);
            }
        }
    } else if l.len() > 0 {
        assert forall|i: int| 0 <= i < ins_int(l, t).len() implies ts_ok(#[trigger] ins_int(l, t)[i]) by {
            if i > 0 {
                assert(ins_int(l, t)[i] == l[i - 1]);
            }
        }
    }
}

/// The gap-bridged spans of the ascending instants `ts`, tagged `p`.
#[verifier::loop_isolation(false)]
fn spans_exec(ts: &Vec<i128>, p: &String) -> (r: Vec<(String, i128, i128)>)
    requires
        forall|i: int| 0 <= i < ts@.len() ==> ts_ok(#[trigger] ts@[i] as int),
    ensures
        ivv(r@) == tag(p@, spans(tv(ts@))),
        forall|i: int| 0 <= i < r@.len() ==> ts_ok((#[trigger] r@[i]).1 as int) && -INSTANT_BOUND <= r@[i].2 <= INSTANT_BOUND,
{
    let ghost t = tv(ts@);
    let mut out: Vec<(String, i128, i128)> = Vec::new();
    let mut cur: Option<(i128, i128)> = None;
    let mut i: usize = 0;
    assert(t.take(0) =~= Seq::<int>::empty());
    assert(ivv(out@) =~= Seq::<Interval>::empty());
    while i < ts.len()
        invariant
            i <= ts@.len(),
            ivv(out@) == tag(p@, merge_scan(t.take(i as int)).0),
            match cur {
                Some(c) => merge_scan(t.take(i as int)).1 == Some((c.0 as int, c.1 as int)) && ts_ok(c.0 as int) && -INSTANT_BOUND <= c.1 <= INSTANT_BOUND,
                None => merge_scan(t.take(i as int)).1 is None,
            },
            forall|x: int| 0 <= x < out@.len() ==> ts_ok((#[trigger] out@[x]).1 as int) && -INSTANT_BOUND <= out@[x].2 <= INSTANT_BOUND,
        decreases ts@.len() - i,
    {
        assert(t.take(i + 1).drop_last() =~= t.take(i as int));
        assert(t.take(i + 1).last() == t[i as int]);
        let x = ts[i];
        assert(ts_ok(x as int));
        let end = x + CREDIT;
        let ghost before = out@;
        match cur {
            Some((s0, pe)) => {
                if x - pe <= GAP {
                    cur = Some((s0, if end > pe { end } else { pe }));
                } else {
                    out.push((p.clone(), s0, pe));
                    assert(ivv(out@) =~= ivv(before).push((p@, s0 as int, pe as int)));
                    assert(tag(p@, merge_scan(t.take(i as int)).0.push((s0 as int, pe as int))) =~= tag(p@, merge_scan(t.take(i as int)).0).push((p@, s0 as int, pe as int)));
                    cur = Some((x, end));
                }
            },
            None => {
                cur = Some((x, end));
            },
        }
        i = i + 1;
    }
    assert(t.take(ts@.len() as int) =~= t);
    match cur {
        Some((s0, pe)) => {
            let ghost before = out@;
            out.push((p.clone(), s0, pe));
            assert(ivv(out@) =~= ivv(before).push((p@, s0 as int, pe as int)));
            assert(tag(p@, merge_scan(t).0.push((s0 as int, pe as int))) =~= tag(p@, merge_scan(t).0).push((p@, s0 as int, pe as int)));
        },
        None => {},
    }
    out
}

/// Every work project's gap-bridged activity spans, projects in `String`
/// order and each project's spans in time order.
pub fn project_intervals(acts: &Vec<Activity>) -> (r: Vec<(String, i128, i128)>)
    requires
        acts_ok(av(acts@)),
    ensures
        ivv(r@) == project_intervals_spec(av(acts@)),
        forall|i: int| 0 <= i < r@.len() ==> ts_ok((#[trigger] r@[i]).1 as int) && -INSTANT_BOUND <= r@[i].2 <= INSTANT_BOUND,
{
    let ghost s = av(acts@);
    let keys = project_keys(acts);
    let ghost kv = sv(keys@);
    let mut out: Vec<(String, i128, i128)> = Vec::new();
    let mut k: usize = 0;
    assert(kv.take(0) =~= Seq::<Seq<char>>::empty());
    assert(ivv(out@) =~= Seq::<Interval>::empty());
    while k < keys.len()
        invariant
            k <= keys@.len(),
            s == av(acts@),
            acts_ok(s),
            kv == sv(keys@),
            ivv(out@) == spans_of_keys(s, kv.take(k as int)),
            forall|i: int| 0 <= i < out@.len() ==> ts_ok((#[trigger] out@[i]).1 as int) && -INSTANT_BOUND <= out@[i].2 <= INSTANT_BOUND,
        decreases keys@.len() - k,
    {
        let p = &keys[k];
        let ts = sorted_times(acts, p);
        let sp = spans_exec(&ts, p);
        let ghost before = out@;
        let mut j: usize = 0;
        while j < sp.len()
            invariant
                j <= sp@.len(),
                ivv(out@) == ivv(before) + ivv(sp@).take(j as int),
                forall|i: int| 0 <= i < out@.len() ==> ts_ok((#[trigger] out@[i]).1 as int) && -INSTANT_BOUND <= out@[i].2 <= INSTANT_BOUND,
                forall|i: int| 0 <= i < sp@.len() ==> ts_ok((#[trigger] sp@[i]).1 as int) && -INSTANT_BOUND <= sp@[i].2 <= INSTANT_BOUND,
            decreases sp@.len() - j,
        {
            let e = (sp[j].0.clone(), sp[j].1, sp[j].2);
            let ghost b2 = out@;
            out.push(e);
            assert(ivv(out@) =~= ivv(b2).push(ivv(sp@)[j as int]));
            assert(ivv(out@) =~= ivv(before) + ivv(sp@).take(j + 1));
            j = j + 1;
        }
        assert(ivv(sp@).take(sp@.len() as int) =~= ivv(sp@));
        assert(kv.take(k + 1).drop_last() =~= kv.take(k as int));
        assert(kv.take(k + 1).last() == p@);
        k = k + 1;
    }
    assert(kv.take(keys@.len() as int) =~= kv);
    out
}


// ───────────────────────── windows ─────────────────────────

/// `l` (ascending, distinct) with `t` added unless present.
pub open spec fn ins_uniq(l: Seq<int>, t: int) -> Seq<int>
    decreases l.len(),
{
    if l.len() == 0 {
        seq![t]
    } else if l[0] == t {
        l
    } else if t < l[0] {
        seq![t] + l
    } else {
        seq![l[0]] + ins_uniq(l.drop_first(), t)
    }
}

/// Every distinct span boundary, ascending.
pub open spec fn boundary_points(ivs: Seq<Interval>) -> Seq<int>
    decreases ivs.len(),
{
    if ivs.len() == 0 {
        Seq::empty()
    } else {
        let l = boundary_points(ivs.drop_last());
        ins_uniq(ins_uniq(l, ivs.last().1), ivs.last().2)
    }
}

/// How many spans cover all of `[a, b]`.
pub open spec fn active(ivs: Seq<Interval>, a: int, b: int) -> nat
    decreases ivs.len(),
{
    if ivs.len() == 0 {
        0
    } else {
        active(ivs.drop_last(), a, b) + (if ivs.last().1 <= a && ivs.last().2 >= b {
            1nat
        } else {
            0nat
        })
    }
}

/// The windows found among the first `k` elementary sub-windows
/// `[pts[j], pts[j + 1]]`: those covered by two or more spans, touching
/// ones merged.
pub open spec fn windows_scan(ivs: Seq<Interval>, pts: Seq<int>, k: nat) -> Seq<(int, int)>
    decreases k,
{
    if k == 0 {
        Seq::empty()
    } else {
        let w = windows_scan(ivs, pts, (k - 1) as nat);
        let a = pts[k - 1];
        let b = pts[k as int];
        if a >= b || active(ivs, a, b) < 2 {
            w
        } else if w.len() > 0 && w.last().1 == a {
            w.update(w.len() - 1, (w.last().0, b))
        } else {
            w.push((a, b))
        }
    }
}

/// Every maximal window in which two or more spans are active together.
pub open spec fn overlap_windows_spec(ivs: Seq<Interval>) -> Seq<(int, int)> {
    let pts = boundary_points(ivs);
    if pts.len() < 2 {
        Seq::empty()
    } else {
        windows_scan(ivs, pts, (pts.len() - 1) as nat)
    }
}

proof fn lemma_ins_uniq_step(l: Seq<int>, t: int, i: int)
    requires
        0 <= i <= l.len(),
        forall|j: int| 0 <= j < i ==> l[j] != t && !(t < l[j]),
    ensures
        ins_uniq(l, t) == l.take(i) + ins_uniq(l.skip(i), t),
    decreases i,
{
    if i > 0 {
        lemma_ins_uniq_step(l.drop_first(), t, i - 1);
        assert(l.drop_first().take(i - 1) =~= l.take(i).drop_first());
        assert(l.drop_first().skip(i - 1) =~= l.skip(i));
        assert(l.take(i) =~= seq![l[0]] + l.take(i).drop_first());
        assert(seq![l[0]] + (l.take(i).drop_first() + ins_uniq(l.skip(i), t)) =~= l.take(i)
            + ins_uniq(l.skip(i), t));
    } else {
        assert(l.skip(0) =~= l);
        assert(l.take(0) + ins_uniq(l, t) =~= ins_uniq(l, t));
    }
}

/// `l` with `t` added as `ins_uniq` does.
fn insert_uniq(l: &Vec<i128>, t: i128) -> (r: Vec<i128>)
    ensures
        tv(r@) == ins_uniq(tv(l@), t as int),
{
    let ghost lv = tv(l@);
    let mut i: usize = 0;
    while i < l.len() && l[i] != t && !(t < l[i])
        invariant
            i <= l@.len(),
            lv == tv(l@),
            forall|j: int| 0 <= j < i ==> lv[j] != t && !(t < lv[j]),
        decreases l@.len() - i,
    {
        i = i + 1;
    }
    proof {
        lemma_ins_uniq_step(lv, t as int, i as int);
    }
    if i < l.len() && l[i] == t {
        assert(ins_uniq(lv.skip(i as int), t as int) == lv.skip(i as int));
        assert(lv.take(i as int) + lv.skip(i as int) =~= lv);
        let mut out: Vec<i128> = Vec::new();
        let mut j: usize = 0;
        while j < l.len()
            invariant
                j <= l@.len(),
                lv == tv(l@),
                tv(out@) == lv.take(j as int),
            decreases l@.len() - j,
        {
            let ghost before = out@;
            out.push(l[j]);
            assert(tv(out@) =~= tv(before).push(lv[j as int]));
            assert(tv(out@) =~= lv.take(j + 1));
            j = j + 1;
        }
        assert(lv.take(l@.len() as int) =~= lv);
        return out;
    }
    proof {
        if i < lv.len() {
            assert(ins_uniq(lv.skip(i as int), t as int) == seq![t as int] + lv.skip(i as int));
        } else {
            assert(lv.skip(i as int) =~= Seq::<int>::empty());
        }
    }
    let mut out: Vec<i128> = Vec::new();
    let mut j: usize = 0;
    while j < i
        invariant
            j <= i <= l@.len(),
            lv == tv(l@),
            tv(out@) == lv.take(j as int),
        decreases i - j,
    {
        let ghost before = out@;
        out.push(l[j]);
        assert(tv(out@) =~= tv(before).push(lv[j as int]));
        assert(tv(out@) =~= lv.take(j + 1));
        j = j + 1;
    }
    out.push(t);
    let mut k = i;
    while k < l.len()
        invariant
            i <= k <= l@.len(),
            lv == tv(l@),
            tv(out@) == lv.take(i as int) + seq![t as int] + lv.subrange(i as int, k as int),
        decreases l@.len() - k,
    {
        let ghost before = out@;
        out.push(l[k]);
        assert(tv(out@) =~= tv(before).push(lv[k as int]));
        assert(tv(out@) =~= lv.take(i as int) + seq![t as int] + lv.subrange(i as int, k + 1));
        k = k + 1;
    }
    assert(lv.take(i as int) + seq![t as int] + lv.subrange(i as int, lv.len() as int) =~= lv.take(
        i as int,
    ) + ins_uniq(lv.skip(i as int), t as int));
    out
}

/// Every distinct span boundary, ascending.
fn boundaries(ivs: &Vec<(String, i128, i128)>) -> (r: Vec<i128>)
    ensures
        tv(r@) == boundary_points(ivv(ivs@)),
{
    let ghost v = ivv(ivs@);
    let mut pts: Vec<i128> = Vec::new();
    let mut i: usize = 0;
    assert(v.take(0) =~= Seq::<Interval>::empty());
    assert(tv(pts@) =~= Seq::<int>::empty());
    while i < ivs.len()
        invariant
            i <= ivs@.len(),
            v == ivv(ivs@),
            tv(pts@) == boundary_points(v.take(i as int)),
        decreases ivs@.len() - i,
    {
        assert(v.take(i + 1).drop_last() =~= v.take(i as int));
        assert(v.take(i + 1).last() == v[i as int]);
        let a = insert_uniq(&pts, ivs[i].1);
        pts = insert_uniq(&a, ivs[i].2);
        i = i + 1;
    }
    assert(v.take(ivs@.len() as int) =~= v);
    pts
}

/// How many spans cover all of `[a, b]`.
fn count_active(ivs: &Vec<(String, i128, i128)>, a: i128, b: i128) -> (c: usize)
    ensures
        c == active(ivv(ivs@), a as int, b as int),
{
    let ghost v = ivv(ivs@);
    let mut c: usize = 0;
    let mut i: usize = 0;
    assert(v.take(0) =~= Seq::<Interval>::empty());
    while i < ivs.len()
        invariant
            i <= ivs@.len(),
            v == ivv(ivs@),
            c == active(v.take(i as int), a as int, b as int),
            c <= i,
        decreases ivs@.len() - i,
    {
        assert(v.take(i + 1).drop_last() =~= v.take(i as int));
        assert(v.take(i + 1).last() == v[i as int]);
        if ivs[i].1 <= a && ivs[i].2 >= b {
            c = c + 1;
        }
        i = i + 1;
    }
    assert(v.take(ivs@.len() as int) =~= v);
    c
}

pub open spec fn wv(v: Seq<(i128, i128)>) -> Seq<(int, int)> {
    v.map_values(|w: (i128, i128)| (w.0 as int, w.1 as int))
}

/// Every maximal window in which two or more spans are active together.
#[verifier::loop_isolation(false)]
pub fn overlap_windows(ivs: &Vec<(String, i128, i128)>) -> (r: Vec<(i128, i128)>)
    ensures
        wv(r@) == overlap_windows_spec(ivv(ivs@)),
{
    let ghost v = ivv(ivs@);
    let pts = boundaries(ivs);
    let ghost pv = tv(pts@);
    let mut merged: Vec<(i128, i128)> = Vec::new();
    if pts.len() < 2 {
        assert(wv(merged@) =~= Seq::<(int, int)>::empty());
        return merged;
    }
    let mut k: usize = 1;
    assert(wv(merged@) =~= windows_scan(v, pv, 0));
    while k < pts.len()
        invariant
            1 <= k <= pts@.len(),
            wv(merged@) == windows_scan(v, pv, (k - 1) as nat),
        decreases pts@.len() - k,
    {
        let a = pts[k - 1];
        let b = pts[k];
        let ghost before = merged@;
        if a >= b {
        } else {
            let act = count_active(ivs, a, b);
            if act >= 2 {
                let n = merged.len();
                if n > 0 && merged[n - 1].1 == a {
                    let s0 = merged[n - 1].0;
                    merged.set(n - 1, (s0, b));
                    assert(wv(merged@) =~= wv(before).update(n - 1, (s0 as int, b as int)));
                } else {
                    merged.push((a, b));
                    assert(wv(merged@) =~= wv(before).push((a as int, b as int)));
                }
            }
        }
        k = k + 1;
    }
    merged
}


// ───────────────────────── overlaps ─────────────────────────

pub open spec fn bounded(t: int) -> bool {
    -INSTANT_BOUND <= t <= INSTANT_BOUND
}

proof fn lemma_ins_uniq_bounded(l: Seq<int>, t: int)
    requires
        forall|i: int| 0 <= i < l.len() ==> bounded(#[trigger] l[i]),
        bounded(t),
    ensures
        forall|i: int| 0 <= i < ins_uniq(l, t).len() ==> bounded(#[trigger] ins_uniq(l, t)[i]),
    decreases l.len(),
{
    if l.len() > 0 && l[0] != t && !(t < l[0]) {
        lemma_ins_uniq_bounded(l.drop_first(), t);
        assert forall|i: int| 0 <= i < ins_uniq(l, t).len() implies bounded(#[trigger] ins_uniq(l, t)[i]) by {
            if i > 0 {
                assert(ins_uniq(l, t)[i] == ins_uniq(l.drop_first(), t)[i - 1]);
            }
        }
    } else if l.len() > 0 && l[0] != t {
        assert forall|i: int| 0 <= i < ins_uniq(l, t).len() implies bounded(#[trigger] ins_uniq(l, t)[i]) by {
            if i > 0 {
                assert(ins_uniq(l, t)[i] == l[i - 1]);
            }
        }
    }
}

pub open spec fn ivs_bounded(ivs: Seq<Interval>) -> bool {
    forall|i: int| 0 <= i < ivs.len() ==> bounded((#[trigger] ivs[i]).1) && bounded(ivs[i].2)
}

proof fn lemma_points_bounded(ivs: Seq<Interval>)
    requires
        ivs_bounded(ivs),
    ensures
        forall|i: int| 0 <= i < boundary_points(ivs).len() ==> bounded(#[trigger] boundary_points(ivs)[i]),
    decreases ivs.len(),
{
    if ivs.len() > 0 {
        let p = ivs.drop_last();
        assert(ivs_bounded(p)) by {
            assert forall|i: int| 0 <= i < p.len() implies bounded((#[trigger] p[i]).1) && bounded(p[i].2) by {
                assert(p[i] == ivs[i]);
            }
        }
        lemma_points_bounded(p);
        assert(bounded(ivs[ivs.len() - 1].1) && bounded(ivs[ivs.len() - 1].2));
        lemma_ins_uniq_bounded(boundary_points(p), ivs.last().1);
        lemma_ins_uniq_bounded(ins_uniq(boundary_points(p), ivs.last().1), ivs.last().2);
    }
}

proof fn lemma_windows_bounded(ivs: Seq<Interval>, pts: Seq<int>, k: nat)
    requires
        k < pts.len(),
        forall|i: int| 0 <= i < pts.len() ==> bounded(#[trigger] pts[i]),
    ensures
        forall|i: int| 0 <= i < windows_scan(ivs, pts, k).len() ==> bounded((#[trigger] windows_scan(ivs, pts, k)[i]).0) && bounded(windows_scan(ivs, pts, k)[i].1),
    decreases k,
{
    if k > 0 {
        lemma_windows_bounded(ivs, pts, (k - 1) as nat);
        assert(bounded(pts[k - 1]) && bounded(pts[k as int]));
        let w = windows_scan(ivs, pts, (k - 1) as nat);
        let r = windows_scan(ivs, pts, k);
        assert forall|i: int| 0 <= i < r.len() implies bounded((#[trigger] r[i]).0) && bounded(r[i].1) by {
            if i < w.len() {
                assert(bounded(w[i].0) && bounded(w[i].1));
            }
            if w.len() > 0 {
                assert(bounded(w[w.len() - 1].0));
            }
        }
    }
}

/// The projects of the spans that reach into `(a, b)`, in span order.
pub open spec fn touching(ivs: Seq<Interval>, a: int, b: int) -> Seq<Seq<char>>
    decreases ivs.len(),
{
    if ivs.len() == 0 {
        Seq::empty()
    } else if ivs.last().1 < b && ivs.last().2 > a {
        touching(ivs.drop_last(), a, b).push(ivs.last().0)
    } else {
        touching(ivs.drop_last(), a, b)
    }
}

/// How many of project `p`'s activities in `[a, b)` are the owner acting
/// (`human`) or not.
pub open spec fn acts_in(s: Seq<ActView>, p: Seq<char>, a: int, b: int, human: bool) -> nat
    decreases s.len(),
{
    if s.len() == 0 {
        0
    } else {
        acts_in(s.drop_last(), p, a, b, human) + (if a <= s.last().0 < b && s.last().1 == p
            && s.last().2 == human {
            1nat
        } else {
            0nat
        })
    }
}

pub type ProjectCounts = (Seq<char>, nat, nat);

pub type OverlapView = (int, int, int, Seq<ProjectCounts>);

pub open spec fn counts_for(s: Seq<ActView>, ps: Seq<Seq<char>>, a: int, b: int) -> Seq<ProjectCounts> {
    ps.map_values(|p: Seq<char>| (p, acts_in(s, p, a, b, true), acts_in(s, p, a, b, false)))
}

/// The overlap reported for window `w`: its projects in `String` order,
/// each with its owner-acting and background activity counts in `w`.
pub open spec fn overlap_of(s: Seq<ActView>, ivs: Seq<Interval>, w: (int, int)) -> OverlapView {
    (
        w.0,
        w.1,
        trunc_div(w.1 - w.0, NANOS_PER_MIN as int),
        counts_for(s, sorted_keys(touching(ivs, w.0, w.1)), w.0, w.1),
    )
}

pub open spec fn long_enough(w: (int, int)) -> bool {
    trunc_div(w.1 - w.0, NANOS_PER_MIN as int) >= MIN_OVERLAP_MINUTES
}

pub open spec fn overlaps_from(s: Seq<ActView>, ivs: Seq<Interval>, ws: Seq<(int, int)>) -> Seq<
    OverlapView,
>
    decreases ws.len(),
{
    if ws.len() == 0 {
        Seq::empty()
    } else {
        let r = overlaps_from(s, ivs, ws.drop_last());
        if long_enough(ws.last()) {
            r.push(overlap_of(s, ivs, ws.last()))
        } else {
            r
        }
    }
}

/// Every window of at least ten minutes where two or more work projects
/// were active, with what each did in it.
pub open spec fn compute_overlaps_spec(s: Seq<ActView>) -> Seq<OverlapView> {
    let ivs = project_intervals_spec(s);
    overlaps_from(s, ivs, overlap_windows_spec(ivs))
}

pub open spec fn opv(o: Overlap) -> OverlapView {
    (
        o.started_at as int,
        o.ended_at as int,
        o.minutes as int,
        o.projects@.map_values(|p: OverlapProject| (p.project@, p.human_events as nat, p.background_events as nat)),
    )
}

/// The projects of the spans that reach into `(a, b)`, distinct and in
/// `String` order.
fn touching_projects(ivs: &Vec<(String, i128, i128)>, a: i128, b: i128) -> (r: Vec<String>)
    ensures
        sv(r@) == sorted_keys(touching(ivv(ivs@), a as int, b as int)),
{
    let ghost v = ivv(ivs@);
    let mut keys: Vec<String> = Vec::new();
    let ghost mut raw: Seq<Seq<char>> = Seq::empty();
    let mut i: usize = 0;
    assert(v.take(0) =~= Seq::<Interval>::empty());
    assert(sv(keys@) =~= Seq::<Seq<char>>::empty());
    while i < ivs.len()
        invariant
            i <= ivs@.len(),
            v == ivv(ivs@),
            raw == touching(v.take(i as int), a as int, b as int),
            sv(keys@) == sorted_keys(raw),
        decreases ivs@.len() - i,
    {
        assert(v.take(i + 1).drop_last() =~= v.take(i as int));
        assert(v.take(i + 1).last() == v[i as int]);
        if ivs[i].1 < b && ivs[i].2 > a {
            keys = insert_key(&keys, &ivs[i].0);
            proof {
                let r2 = raw.push(ivs@[i as int].0@);
                assert(r2.drop_last() =~= raw);
                raw = r2;
            }
        }
        i = i + 1;
    }
    assert(v.take(ivs@.len() as int) =~= v);
    keys
}

/// How many of project `p`'s activities in `[a, b)` are the owner acting
/// and how many are background work.
fn project_activity(acts: &Vec<Activity>, p: &String, a: i128, b: i128) -> (r: (usize, usize))
    ensures
        r.0 == acts_in(av(acts@), p@, a as int, b as int, true),
        r.1 == acts_in(av(acts@), p@, a as int, b as int, false),
{
    let ghost s = av(acts@);
    let mut h: usize = 0;
    let mut g: usize = 0;
    let mut i: usize = 0;
    assert(s.take(0) =~= Seq::<ActView>::empty());
    while i < acts.len()
        invariant
            i <= acts@.len(),
            s == av(acts@),
            h == acts_in(s.take(i as int), p@, a as int, b as int, true),
            g == acts_in(s.take(i as int), p@, a as int, b as int, false),
            h + g <= i,
        decreases acts@.len() - i,
    {
        assert(s.take(i + 1).drop_last() =~= s.take(i as int));
        assert(s.take(i + 1).last() == s[i as int]);
        let e = &acts[i];
        if a <= e.ts && e.ts < b && str_eq(e.project.as_str(), p.as_str()) {
            if e.human {
                h = h + 1;
            } else {
                g = g + 1;
            }
        }
        i = i + 1;
    }
    assert(s.take(acts@.len() as int) =~= s);
    (h, g)
}

/// Every window of at least ten minutes where two or more work projects
/// were active, with how much each did in it.
#[verifier::loop_isolation(false)]
pub fn compute_overlaps(acts: &Vec<Activity>) -> (r: Vec<Overlap>)
    requires
        acts_ok(av(acts@)),
    ensures
        r@.map_values(|o: Overlap| opv(o)) == compute_overlaps_spec(av(acts@)),
{
    let ghost s = av(acts@);
    let ivs = project_intervals(acts);
    let ghost v = ivv(ivs@);
    let windows = overlap_windows(&ivs);
    let ghost ws = wv(windows@);
    proof {
        assert(ivs_bounded(v)) by {
            assert forall|i: int| 0 <= i < v.len() implies bounded((#[trigger] v[i]).1) && bounded(v[i].2) by {
                assert(ts_ok(ivs@[i].1 as int));
            }
        }
        lemma_points_bounded(v);
        let pts = boundary_points(v);
        if pts.len() >= 2 {
            lemma_windows_bounded(v, pts, (pts.len() - 1) as nat);
        }
    }
    let mut out: Vec<Overlap> = Vec::new();
    let mut i: usize = 0;
    assert(ws.take(0) =~= Seq::<(int, int)>::empty());
    assert(out@.map_values(|o: Overlap| opv(o)) =~= Seq::<OverlapView>::empty());
    while i < windows.len()
        invariant
            i <= windows@.len(),
            out@.map_values(|o: Overlap| opv(o)) == overlaps_from(s, v, ws.take(i as int)),
        decreases windows@.len() - i,
    {
        assert(ws.take(i + 1).drop_last() =~= ws.take(i as int));
        assert(ws.take(i + 1).last() == ws[i as int]);
        let (a, b) = windows[i];
        assert(bounded(ws[i as int].0) && bounded(ws[i as int].1));
        let minutes = crate::instant::whole_minutes(b - a);
        if minutes >= MIN_OVERLAP_MINUTES {
            let keys = touching_projects(&ivs, a, b);
            let mut projects: Vec<OverlapProject> = Vec::new();
            let mut k: usize = 0;
            while k < keys.len()
                invariant
                    k <= keys@.len(),
                    projects@.map_values(|p: OverlapProject| (p.project@, p.human_events as nat, p.background_events as nat))
                        == counts_for(s, sv(keys@).take(k as int), a as int, b as int),
                decreases keys@.len() - k,
            {
                let (h, g) = project_activity(acts, &keys[k], a, b);
                let ghost before = projects@;
                proof {
                    assert(sv(keys@).take(k + 1) =~= sv(keys@).take(k as int).push(keys@[k as int]@));
                    assert(counts_for(s, sv(keys@).take(k + 1), a as int, b as int) =~= counts_for(s, sv(keys@).take(k as int), a as int, b as int).push((keys@[k as int]@, h as nat, g as nat)));
                }
                projects.push(OverlapProject { project: keys[k].clone(), human_events: h, background_events: g });
                assert(projects@.map_values(|p: OverlapProject| (p.project@, p.human_events as nat, p.background_events as nat))
                    =~= before.map_values(|p: OverlapProject| (p.project@, p.human_events as nat, p.background_events as nat)).push((keys@[k as int]@, h as nat, g as nat)));
                assert(projects@.map_values(|p: OverlapProject| (p.project@, p.human_events as nat, p.background_events as nat))
                    =~= counts_for(s, sv(keys@).take(k + 1), a as int, b as int));
                k = k + 1;
            }
            assert(sv(keys@).take(keys@.len() as int) =~= sv(keys@));
            let ghost before = out@;
            out.push(Overlap { started_at: a, ended_at: b, minutes, projects });
            assert(out@.map_values(|o: Overlap| opv(o)) =~= before.map_values(|o: Overlap| opv(o)).push(overlap_of(s, v, ws[i as int])));
        }
        i = i + 1;
    }
    assert(ws.take(windows@.len() as int) =~= ws);
    out
}


// ───────────────────────── laws ─────────────────────────

/// Spans in time order, each non-empty, each ending before the next starts.
pub open spec fn chained(sp: Seq<(int, int)>) -> bool {
    &&& forall|i: int| 0 <= i < sp.len() ==> (#[trigger] sp[i]).0 < sp[i].1
    &&& forall|i: int, j: int| 0 <= i < j < sp.len() ==> (#[trigger] sp[i]).1 < (#[trigger] sp[j]).0
}

proof fn lemma_merge_scan_chained(ts: Seq<int>)
    ensures
        chained(merge_scan(ts).0),
        merge_scan(ts).1 matches Some(c) ==> c.0 < c.1 && forall|i: int|
            0 <= i < merge_scan(ts).0.len() ==> (#[trigger] merge_scan(ts).0[i]).1 < c.0,
        ts.len() > 0 ==> merge_scan(ts).1 is Some,
    decreases ts.len(),
{
    if ts.len() > 0 {
        lemma_merge_scan_chained(ts.drop_last());
        let (out, cur) = merge_scan(ts.drop_last());
        let t = ts.last();
        match cur {
            Some(c) => {
                if t - c.1 <= GAP {
                } else {
                    let o2 = out.push(c);
                    assert forall|i: int, j: int| 0 <= i < j < o2.len() implies (#[trigger] o2[i]).1 < (#[trigger] o2[j]).0 by {
                        if j < out.len() {
                        } else {
                            assert(o2[j] == c);
                        }
                    }
                    assert forall|i: int| 0 <= i < o2.len() implies (#[trigger] o2[i]).1 < t by {
                        if i < out.len() {
                            assert(out[i].1 < c.0);
                        }
                    }
                }
            },
            None => {},
        }
    }
}

proof fn lemma_spans_chained(ts: Seq<int>)
    ensures
        chained(spans(ts)),
{
    lemma_merge_scan_chained(ts);
    let (out, cur) = merge_scan(ts);
    match cur {
        Some(c) => {
            let sp = out.push(c);
            assert forall|i: int, j: int| 0 <= i < j < sp.len() implies (#[trigger] sp[i]).1 < (#[trigger] sp[j]).0 by {
                if j == out.len() {
                    assert(sp[j] == c);
                }
            }
        },
        None => {},
    }
}

/// Strictly ascending in `String` order.
pub open spec fn strictly_sorted(l: Seq<Seq<char>>) -> bool {
    forall|i: int, j: int| 0 <= i < j < l.len() ==> lex_lt(#[trigger] l[i], #[trigger] l[j])
}

proof fn lemma_ins_key_sorted(l: Seq<Seq<char>>, k: Seq<char>)
    requires
        strictly_sorted(l),
    ensures
        strictly_sorted(ins_key(l, k)),
        forall|x: Seq<char>| #[trigger] ins_key(l, k).contains(x) <==> (l.contains(x) || x == k),
    decreases l.len(),
{
    if l.len() == 0 {
        assert forall|x: Seq<char>| #[trigger] ins_key(l, k).contains(x) <==> (l.contains(x) || x == k) by {
            if ins_key(l, k).contains(x) {
                assert(ins_key(l, k)[0] == x);
            }
            if x == k {
                assert(ins_key(l, k)[0] == k);
            }
        }
    } else if l[0] == k {
        assert forall|x: Seq<char>| #[trigger] ins_key(l, k).contains(x) <==> (l.contains(x) || x == k) by {
            if x == k {
                assert(l[0] == k);
            }
        }
    } else if lex_lt(k, l[0]) {
        let r = seq![k] + l;
        assert forall|i: int, j: int| 0 <= i < j < r.len() implies lex_lt(#[trigger] r[i], #[trigger] r[j]) by {
            if i == 0 {
                if j > 1 {
                    assert(lex_lt(l[0], l[j - 1]));
                    crate::order::lemma_lex_transitive(k, l[0], l[j - 1]);
                }
            } else {
                assert(r[i] == l[i - 1] && r[j] == l[j - 1]);
            }
        }
        assert forall|x: Seq<char>| #[trigger] ins_key(l, k).contains(x) <==> (l.contains(x) || x == k) by {
            if r.contains(x) {
                let i = choose|i: int| 0 <= i < r.len() && r[i] == x;
                if i > 0 {
                    assert(l[i - 1] == x);
                }
            }
            if l.contains(x) {
                let i = choose|i: int| 0 <= i < l.len() && l[i] == x;
                assert(r[i + 1] == x);
            }
            if x == k {
                assert(r[0] == k);
            }
        }
    } else {
        crate::order::lemma_lex_total(k, l[0]);
        assert(lex_lt(l[0], k));
        let t = l.drop_first();
        assert(strictly_sorted(t)) by {
            assert forall|i: int, j: int| 0 <= i < j < t.len() implies lex_lt(#[trigger] t[i], #[trigger] t[j]) by {
                assert(lex_lt(l[i + 1], l[j + 1]));
            }
        }
        lemma_ins_key_sorted(t, k);
        let q = ins_key(t, k);
        let r = seq![l[0]] + q;
        assert forall|i: int, j: int| 0 <= i < j < r.len() implies lex_lt(#[trigger] r[i], #[trigger] r[j]) by {
            if i == 0 {
                assert(r[j] == q[j - 1]);
                assert(q.contains(q[j - 1]));
                if t.contains(q[j - 1]) {
                    let x = choose|x: int| 0 <= x < t.len() && t[x] == q[j - 1];
                    assert(lex_lt(l[0], l[x + 1]));
                }
            } else {
                assert(r[i] == q[i - 1] && r[j] == q[j - 1]);
            }
        }
        assert forall|x: Seq<char>| #[trigger] ins_key(l, k).contains(x) <==> (l.contains(x) || x == k) by {
            if r.contains(x) {
                let i = choose|i: int| 0 <= i < r.len() && r[i] == x;
                if i > 0 {
                    assert(q[i - 1] == x);
                    assert(q.contains(x));
                    if t.contains(x) {
                        let j = choose|j: int| 0 <= j < t.len() && t[j] == x;
                        assert(l[j + 1] == x);
                    }
                } else {
                    assert(l[0] == x);
                }
            }
            if l.contains(x) {
                let i = choose|i: int| 0 <= i < l.len() && l[i] == x;
                if i > 0 {
                    assert(t[i - 1] == x);
                    assert(t.contains(x));
                    assert(q.contains(x));
                    let j = choose|j: int| 0 <= j < q.len() && q[j] == x;
                    assert(r[j + 1] == x);
                } else {
                    assert(r[0] == x);
                }
            }
            if x == k {
                assert(q.contains(k));
                let j = choose|j: int| 0 <= j < q.len() && q[j] == k;
                assert(r[j + 1] == k);
            }
        }
    }
}

proof fn lemma_sorted_keys(ks: Seq<Seq<char>>)
    ensures
        strictly_sorted(sorted_keys(ks)),
        forall|x: Seq<char>| #[trigger] sorted_keys(ks).contains(x) <==> ks.contains(x),
    decreases ks.len(),
{
    if ks.len() > 0 {
        let p = ks.drop_last();
        lemma_sorted_keys(p);
        lemma_ins_key_sorted(sorted_keys(p), ks.last());
        assert forall|x: Seq<char>| #[trigger] sorted_keys(ks).contains(x) <==> ks.contains(x) by {
            if p.contains(x) {
                let i = choose|i: int| 0 <= i < p.len() && p[i] == x;
                assert(ks[i] == x);
            }
            if ks.contains(x) {
                let i = choose|i: int| 0 <= i < ks.len() && ks[i] == x;
                if i < ks.len() - 1 {
                    assert(p[i] == x);
                }
            }
        }
    }
}

/// The distinct keys come out strictly ascending, each exactly once, and
/// they are exactly the keys that went in.
pub proof fn law_sorted_keys(ks: Seq<Seq<char>>)
    ensures
        strictly_sorted(sorted_keys(ks)),
        forall|x: Seq<char>| #[trigger] sorted_keys(ks).contains(x) <==> ks.contains(x),
{
    lemma_sorted_keys(ks);
}


/// Two spans that share no instant.
pub open spec fn apart(a: Interval, b: Interval) -> bool {
    a.2 < b.1 || b.2 < a.1
}

proof fn lemma_spans_of_keys(s: Seq<ActView>, keys: Seq<Seq<char>>)
    requires
        keys.no_duplicates(),
    ensures
        forall|i: int| 0 <= i < spans_of_keys(s, keys).len() ==> keys.contains(
            (#[trigger] spans_of_keys(s, keys)[i]).0,
        ),
        forall|i: int, j: int|
            0 <= i < spans_of_keys(s, keys).len() && 0 <= j < spans_of_keys(s, keys).len() && i
                != j && (#[trigger] spans_of_keys(s, keys)[i]).0 == (#[trigger] spans_of_keys(
                s,
                keys,
            )[j]).0 ==> apart(spans_of_keys(s, keys)[i], spans_of_keys(s, keys)[j]),
    decreases keys.len(),
{
    if keys.len() > 0 {
        let pk = keys.drop_last();
        let p = keys.last();
        assert(pk.no_duplicates());
        lemma_spans_of_keys(s, pk);
        let a = spans_of_keys(s, pk);
        let sp = spans(sort_ints(times_of(s, p)));
        lemma_spans_chained(sort_ints(times_of(s, p)));
        let b = tag(p, sp);
        let r = spans_of_keys(s, keys);
        assert(r == a + b);
        assert(!pk.contains(p)) by {
            if pk.contains(p) {
                let i = choose|i: int| 0 <= i < pk.len() && pk[i] == p;
                assert(keys[i] == keys[keys.len() - 1]);
            }
        }
        assert forall|i: int| 0 <= i < r.len() implies keys.contains((#[trigger] r[i]).0) by {
            if i < a.len() {
                assert(pk.contains(a[i].0));
                let x = choose|x: int| 0 <= x < pk.len() && pk[x] == a[i].0;
                assert(keys[x] == a[i].0);
            } else {
                assert(r[i].0 == p);
                assert(keys[keys.len() - 1] == p);
            }
        }
        assert forall|i: int, j: int|
            0 <= i < r.len() && 0 <= j < r.len() && i != j && (#[trigger] r[i]).0 == (#[trigger] r[j]).0
            implies apart(r[i], r[j]) by {
            if i < a.len() && j < a.len() {
                assert(r[i] == a[i] && r[j] == a[j]);
            } else if i >= a.len() && j >= a.len() {
                let x = i - a.len();
                let y = j - a.len();
                assert(r[i] == (p, sp[x].0, sp[x].1));
                assert(r[j] == (p, sp[y].0, sp[y].1));
                if x < y {
                    assert(sp[x].1 < sp[y].0);
                } else {
                    assert(sp[y].1 < sp[x].0);
                }
            } else if i < a.len() {
                assert(pk.contains(a[i].0));
                assert(r[j].0 == p);
            } else {
                assert(pk.contains(a[j].0));
                assert(r[i].0 == p);
            }
        }
    }
}

proof fn lemma_active_two(ivs: Seq<Interval>, a: int, b: int)
    requires
        active(ivs, a, b) >= 2,
    ensures
        exists|i: int, j: int|
            0 <= i < j < ivs.len() && (#[trigger] ivs[i]).1 <= a && ivs[i].2 >= b && (#[trigger] ivs[j]).1 <= a
                && ivs[j].2 >= b,
    decreases ivs.len(),
{
    let p = ivs.drop_last();
    let last = ivs.len() - 1;
    if ivs.last().1 <= a && ivs.last().2 >= b {
        lemma_active_one(p, a, b);
        let i = choose|i: int| 0 <= i < p.len() && (#[trigger] p[i]).1 <= a && p[i].2 >= b;
        assert(ivs[i] == p[i]);
        assert(ivs[last] == ivs.last());
    } else {
        lemma_active_two(p, a, b);
        let (i, j) = choose|i: int, j: int|
            0 <= i < j < p.len() && (#[trigger] p[i]).1 <= a && p[i].2 >= b && (#[trigger] p[j]).1 <= a
                && p[j].2 >= b;
        assert(ivs[i] == p[i] && ivs[j] == p[j]);
    }
}

proof fn lemma_active_one(ivs: Seq<Interval>, a: int, b: int)
    requires
        active(ivs, a, b) >= 1,
    ensures
        exists|i: int| 0 <= i < ivs.len() && (#[trigger] ivs[i]).1 <= a && ivs[i].2 >= b,
    decreases ivs.len(),
{
    let p = ivs.drop_last();
    if ivs.last().1 <= a && ivs.last().2 >= b {
        assert(ivs[ivs.len() - 1] == ivs.last());
    } else {
        lemma_active_one(p, a, b);
        let i = choose|i: int| 0 <= i < p.len() && (#[trigger] p[i]).1 <= a && p[i].2 >= b;
        assert(ivs[i] == p[i]);
    }
}

/// Window `w` holds an elementary sub-window `[a, b]`, `a < b`, covered by
/// two or more spans.
pub open spec fn witnessed(ivs: Seq<Interval>, w: (int, int)) -> bool {
    exists|a: int, b: int|
        w.0 <= a < b <= w.1 && #[trigger] active(ivs, a, b) >= 2
}

proof fn lemma_windows_witnessed(ivs: Seq<Interval>, pts: Seq<int>, k: nat)
    requires
        k < pts.len(),
    ensures
        forall|i: int| 0 <= i < windows_scan(ivs, pts, k).len() ==> witnessed(ivs, #[trigger] windows_scan(ivs, pts, k)[i]),
    decreases k,
{
    if k > 0 {
        lemma_windows_witnessed(ivs, pts, (k - 1) as nat);
        let w = windows_scan(ivs, pts, (k - 1) as nat);
        let r = windows_scan(ivs, pts, k);
        let a = pts[k - 1];
        let b = pts[k as int];
        if a >= b || active(ivs, a, b) < 2 {
        } else if w.len() > 0 && w.last().1 == a {
            let last = w.len() - 1;
            assert forall|i: int| 0 <= i < r.len() implies witnessed(ivs, #[trigger] r[i]) by {
                if i == last {
                    assert(witnessed(ivs, w[last]));
                    let (x, y) = choose|x: int, y: int| w[last].0 <= x < y <= w[last].1 && #[trigger] active(ivs, x, y) >= 2;
                    assert(r[i].0 <= x < y <= r[i].1 && active(ivs, x, y) >= 2);
                } else {
                    assert(r[i] == w[i]);
                }
            }
        } else {
            assert forall|i: int| 0 <= i < r.len() implies witnessed(ivs, #[trigger] r[i]) by {
                if i == w.len() {
                    assert(r[i] == (a, b));
                    assert(active(ivs, a, b) >= 2);
                } else {
                    assert(r[i] == w[i]);
                }
            }
        }
    }
}

proof fn lemma_touching_contains(ivs: Seq<Interval>, a: int, b: int, i: int)
    requires
        0 <= i < ivs.len(),
        ivs[i].1 < b,
        ivs[i].2 > a,
    ensures
        touching(ivs, a, b).contains(ivs[i].0),
    decreases ivs.len(),
{
    let t = touching(ivs, a, b);
    if i == ivs.len() - 1 {
        assert(t.last() == ivs[i].0);
        assert(t[t.len() - 1] == ivs[i].0);
    } else {
        lemma_touching_contains(ivs.drop_last(), a, b, i);
        let p = touching(ivs.drop_last(), a, b);
        let x = choose|x: int| 0 <= x < p.len() && p[x] == ivs[i].0;
        if ivs.last().1 < b && ivs.last().2 > a {
            assert(t[x] == p[x]);
        }
    }
}

proof fn lemma_overlaps_from(s: Seq<ActView>, ivs: Seq<Interval>, ws: Seq<(int, int)>)
    ensures
        forall|i: int| 0 <= i < overlaps_from(s, ivs, ws).len() ==> exists|j: int| 0 <= j < ws.len() && #[trigger] overlaps_from(s, ivs, ws)[i] == overlap_of(s, ivs, ws[j]),
    decreases ws.len(),
{
    if ws.len() > 0 {
        let p = ws.drop_last();
        lemma_overlaps_from(s, ivs, p);
        let r = overlaps_from(s, ivs, ws);
        let q = overlaps_from(s, ivs, p);
        assert forall|i: int| 0 <= i < r.len() implies exists|j: int| 0 <= j < ws.len() && #[trigger] r[i] == overlap_of(s, ivs, ws[j]) by {
            if i < q.len() {
                assert(r[i] == q[i]);
                let j = choose|j: int| 0 <= j < p.len() && q[i] == overlap_of(s, ivs, p[j]);
                assert(ws[j] == p[j]);
            } else {
                assert(r[i] == overlap_of(s, ivs, ws[ws.len() - 1]));
            }
        }
    }
}

/// Every reported overlap names at least two distinct work projects: two
/// spans of one project never share an instant, so a window covered by
/// two spans is covered by two projects.
pub proof fn law_overlap_has_two_projects(s: Seq<ActView>)
    ensures
        forall|i: int| 0 <= i < compute_overlaps_spec(s).len() ==> (#[trigger] compute_overlaps_spec(s)[i]).3.len() >= 2,
{
    let keys = sorted_keys(projects_of(s));
    lemma_sorted_keys(projects_of(s));
    assert(keys.no_duplicates()) by {
        assert forall|i: int, j: int| 0 <= i < keys.len() && 0 <= j < keys.len() && i != j implies keys[i] != keys[j] by {
            if i < j {
                assert(lex_lt(keys[i], keys[j]));
            } else {
                assert(lex_lt(keys[j], keys[i]));
            }
            lemma_lex_irreflexive(keys[i]);
        }
    }
    let ivs = project_intervals_spec(s);
    lemma_spans_of_keys(s, keys);
    let ws = overlap_windows_spec(ivs);
    let pts = boundary_points(ivs);
    if pts.len() >= 2 {
        lemma_windows_witnessed(ivs, pts, (pts.len() - 1) as nat);
    }
    lemma_overlaps_from(s, ivs, ws);
    let r = compute_overlaps_spec(s);
    assert forall|i: int| 0 <= i < r.len() implies (#[trigger] r[i]).3.len() >= 2 by {
        let j = choose|j: int| 0 <= j < ws.len() && r[i] == overlap_of(s, ivs, ws[j]);
        let w = ws[j];
        assert(witnessed(ivs, w));
        let (a, b) = choose|a: int, b: int| w.0 <= a < b <= w.1 && #[trigger] active(ivs, a, b) >= 2;
        lemma_active_two(ivs, a, b);
        let (x, y) = choose|x: int, y: int|
            0 <= x < y < ivs.len() && (#[trigger] ivs[x]).1 <= a && ivs[x].2 >= b && (#[trigger] ivs[y]).1 <= a
                && ivs[y].2 >= b;
        assert(ivs[x].0 != ivs[y].0) by {
            if ivs[x].0 == ivs[y].0 {
                assert(apart(ivs[x], ivs[y]));
            }
        }
        lemma_touching_contains(ivs, w.0, w.1, x);
        lemma_touching_contains(ivs, w.0, w.1, y);
        let t = touching(ivs, w.0, w.1);
        lemma_sorted_keys(t);
        let ps = sorted_keys(t);
        assert(ps.contains(ivs[x].0) && ps.contains(ivs[y].0));
        if ps.len() < 2 {
            let u = choose|u: int| 0 <= u < ps.len() && ps[u] == ivs[x].0;
            let v = choose|v: int| 0 <= v < ps.len() && ps[v] == ivs[y].0;
            assert(u == v);
        }
        assert(r[i].3.len() == ps.len());
    }
}


// ───────────────────────── from events ─────────────────────────

pub open spec fn okey(o: Option<String>) -> Option<Seq<char>> {
    match o {
        Some(k) => Some(k@),
        None => None,
    }
}

/// The work activities among `evs`, whose lane keys are `keys`: calendar
/// events, folderless events and personal lanes are left out.
pub open spec fn work_acts(evs: Seq<InferEvent>, keys: Seq<Option<Seq<char>>>) -> Seq<ActView>
    decreases evs.len(),
{
    if evs.len() == 0 || keys.len() != evs.len() {
        Seq::empty()
    } else {
        let r = work_acts(evs.drop_last(), keys.drop_last());
        let e = evs.last();
        match keys.last() {
            Some(k) if !e.spec_is_calendar() && work_key(k) => r.push(
                (e.ts as int, k, human_source(e.source@)),
            ),
            _ => r,
        }
    }
}

/// The work activities among `events`, given each event's lane key.
pub fn work_activities(events: &Vec<InferEvent>, keys: &Vec<Option<String>>) -> (r: Vec<Activity>)
    requires
        events@.len() == keys@.len(),
        forall|i: int| 0 <= i < events@.len() ==> (#[trigger] events@[i]).well_formed(),
    ensures
        av(r@) == work_acts(events@, keys@.map_values(|o: Option<String>| okey(o))),
        acts_ok(av(r@)),
        forall|i: int| 0 <= i < r@.len() ==> work_key((#[trigger] r@[i]).project@),
{
    let ghost kv = keys@.map_values(|o: Option<String>| okey(o));
    let mut out: Vec<Activity> = Vec::new();
    let mut i: usize = 0;
    assert(events@.take(0) =~= Seq::<InferEvent>::empty());
    assert(av(out@) =~= Seq::<ActView>::empty());
    while i < events.len()
        invariant
            i <= events@.len(),
            events@.len() == keys@.len(),
            kv == keys@.map_values(|o: Option<String>| okey(o)),
            forall|x: int| 0 <= x < events@.len() ==> (#[trigger] events@[x]).well_formed(),
            av(out@) == work_acts(events@.take(i as int), kv.take(i as int)),
            acts_ok(av(out@)),
            forall|x: int| 0 <= x < out@.len() ==> work_key((#[trigger] out@[x]).project@),
        decreases events@.len() - i,
    {
        assert(events@.take(i + 1).drop_last() =~= events@.take(i as int));
        assert(kv.take(i + 1).drop_last() =~= kv.take(i as int));
        assert(events@.take(i + 1).last() == events@[i as int]);
        assert(kv.take(i + 1).last() == okey(keys@[i as int]));
        let e = &events[i];
        assert(e.well_formed());
        match &keys[i] {
            Some(k) => {
                if !e.is_calendar() && is_work(k.as_str()) {
                    let h = is_human(e.source.as_str());
                    let ghost before = out@;
                    out.push(Activity { ts: e.ts, project: k.clone(), human: h });
                    assert(av(out@) =~= av(before).push((e.ts as int, k@, h)));
                }
            },
            None => {},
        }
        i = i + 1;
    }
    assert(events@.take(events@.len() as int) =~= events@);
    assert(kv.take(events@.len() as int) =~= kv);
    out
}

/// Every work project's gap-bridged activity spans for the day: the
/// faint fill the lanes view draws behind each lane.
pub fn day_activity(acts: &Vec<Activity>) -> (r: Vec<ProjectActivity>)
    requires
        acts_ok(av(acts@)),
    ensures
        r@.map_values(|p: ProjectActivity| (p.project@, p.started_at as int, p.ended_at as int))
            == project_intervals_spec(av(acts@)),
{
    let ivs = project_intervals(acts);
    let mut out: Vec<ProjectActivity> = Vec::new();
    let mut i: usize = 0;
    while i < ivs.len()
        invariant
            i <= ivs@.len(),
            out@.map_values(|p: ProjectActivity| (p.project@, p.started_at as int, p.ended_at as int))
                == ivv(ivs@).take(i as int),
        decreases ivs@.len() - i,
    {
        let ghost before = out@;
        out.push(ProjectActivity { project: ivs[i].0.clone(), started_at: ivs[i].1, ended_at: ivs[i].2 });
        assert(out@.map_values(|p: ProjectActivity| (p.project@, p.started_at as int, p.ended_at as int))
            =~= before.map_values(|p: ProjectActivity| (p.project@, p.started_at as int, p.ended_at as int)).push(ivv(ivs@)[i as int]));
        assert(ivv(ivs@).take(i + 1) =~= ivv(ivs@).take(i as int).push(ivv(ivs@)[i as int]));
        assert(out@.map_values(|p: ProjectActivity| (p.project@, p.started_at as int, p.ended_at as int))
            =~= ivv(ivs@).take(i + 1));
        i = i + 1;
    }
    assert(ivv(ivs@).take(ivs@.len() as int) =~= ivv(ivs@));
    out
}

} // verus!
