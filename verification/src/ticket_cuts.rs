//! Rebuilding a day must never lose the tickets on its blocks.
//!
//! When two ticketed blocks fuse into one on rebuild (the gap between them
//! filled in), only one ticket would fit. So a new block that covers prior
//! blocks with different tickets is cut where each later ticketed block
//! began, and every piece keeps its own ticket. Building the pieces from
//! the block's events is the caller's; where the cuts fall is decided here.
use vstd::prelude::*;

use crate::text::str_eq;

verus! {

/// A prior block that carried a ticket: its span (nanoseconds) and ticket.
#[derive(Debug, Clone)]
pub struct Ticketed {
    pub started_at: i128,
    pub ended_at: i128,
    pub ticket: String,
}

/// The prior blocks overlapping `[start, end)`, in their given order.
pub open spec fn hits(ts: Seq<Ticketed>, start: int, end: int) -> Seq<Ticketed>
    decreases ts.len(),
{
    if ts.len() == 0 {
        Seq::empty()
    } else {
        let r = hits(ts.drop_last(), start, end);
        let t = ts.last();
        if t.started_at < end && start < t.ended_at {
            r.push(t)
        } else {
            r
        }
    }
}

/// `x` placed after every element of `s` that starts no later than it
/// (`s` sorted by start): one step of a stable sort.
pub open spec fn ins(s: Seq<Ticketed>, x: Ticketed) -> Seq<Ticketed>
    decreases s.len(),
{
    if s.len() == 0 {
        seq![x]
    } else if s.last().started_at <= x.started_at {
        s.push(x)
    } else {
        ins(s.drop_last(), x).push(s.last())
    }
}

/// `s` stably sorted by start.
pub open spec fn by_start(s: Seq<Ticketed>) -> Seq<Ticketed>
    decreases s.len(),
{
    if s.len() == 0 {
        Seq::empty()
    } else {
        ins(by_start(s.drop_last()), s.last())
    }
}

/// `s` with every element dropped whose ticket equals the one kept just
/// before it (`Vec::dedup_by` on the ticket).
pub open spec fn dedup(s: Seq<Ticketed>) -> Seq<Ticketed>
    decreases s.len(),
{
    if s.len() == 0 {
        Seq::empty()
    } else {
        let r = dedup(s.drop_last());
        if r.len() > 0 && r.last().ticket@ == s.last().ticket@ {
            r
        } else {
            r.push(s.last())
        }
    }
}

/// The starts strictly inside `(start, end)` of all but the first of `d`.
pub open spec fn inner_starts(d: Seq<Ticketed>, start: int, end: int) -> Seq<int>
    decreases d.len(),
{
    if d.len() <= 1 {
        Seq::empty()
    } else {
        let r = inner_starts(d.drop_last(), start, end);
        let s = d.last().started_at as int;
        if start < s < end {
            r.push(s)
        } else {
            r
        }
    }
}

/// Where the block `[start, end)` is cut: `None` when it covers fewer
/// than two distinct tickets in a row (it stays whole), else its start,
/// the start of each later ticketed block inside it, and its end.
pub open spec fn cut_edges(ts: Seq<Ticketed>, start: int, end: int) -> Option<Seq<int>> {
    let d = dedup(by_start(hits(ts, start, end)));
    if d.len() < 2 {
        None
    } else {
        Some(seq![start] + inner_starts(d, start, end) + seq![end])
    }
}

pub open spec fn sorted(s: Seq<Ticketed>) -> bool {
    forall|i: int, j: int| 0 <= i <= j < s.len() ==> (#[trigger] s[i]).started_at <= (#[trigger] s[j]).started_at
}

proof fn lemma_ins(s: Seq<Ticketed>, x: Ticketed, p: int)
    requires
        0 <= p <= s.len(),
        p > 0 ==> s[p - 1].started_at <= x.started_at,
        forall|k: int| p <= k < s.len() ==> (#[trigger] s[k]).started_at > x.started_at,
    ensures
        ins(s, x) == s.insert(p, x),
    decreases s.len(),
{
    if s.len() == 0 {
        assert(s.insert(p, x) =~= seq![x]);
    } else if p == s.len() {
        assert(s.insert(p, x) =~= s.push(x));
    } else {
        let q = s.drop_last();
        assert(s.last().started_at > x.started_at);
        lemma_ins(q, x, p);
        assert(s.insert(p, x) =~= q.insert(p, x).push(s.last()));
    }
}

proof fn lemma_ins_bounded(s: Seq<Ticketed>, x: Ticketed, b: int)
    requires
        forall|k: int| 0 <= k < s.len() ==> (#[trigger] s[k]).started_at <= b,
        x.started_at <= b,
    ensures
        ins(s, x).len() == s.len() + 1,
        forall|i: int| 0 <= i < ins(s, x).len() ==> (#[trigger] ins(s, x)[i]).started_at <= b,
    decreases s.len(),
{
    if s.len() > 0 && s.last().started_at > x.started_at {
        let q = s.drop_last();
        assert forall|k: int| 0 <= k < q.len() implies (#[trigger] q[k]).started_at <= b by {
            assert(q[k] == s[k]);
        }
        lemma_ins_bounded(q, x, b);
        let r = ins(q, x);
        assert forall|i: int| 0 <= i < r.push(s.last()).len() implies (#[trigger] r.push(s.last())[i]).started_at <= b by {
            if i < r.len() {
                assert(r.push(s.last())[i] == r[i]);
            }
        }
    }
}

proof fn lemma_ins_sorted(s: Seq<Ticketed>, x: Ticketed)
    requires
        sorted(s),
    ensures
        sorted(ins(s, x)),
        ins(s, x).len() == s.len() + 1,
    decreases s.len(),
{
    if s.len() > 0 && s.last().started_at > x.started_at {
        let q = s.drop_last();
        assert(sorted(q)) by {
            assert forall|i: int, j: int| 0 <= i <= j < q.len() implies (#[trigger] q[i]).started_at <= (
            #[trigger] q[j]).started_at by {
                assert(q[i] == s[i] && q[j] == s[j]);
            }
        }
        lemma_ins_sorted(q, x);
        let last = s.last();
        assert forall|k: int| 0 <= k < q.len() implies (#[trigger] q[k]).started_at <= last.started_at by {
            assert(q[k] == s[k]);
            assert(s[s.len() - 1] == last);
        }
        lemma_ins_bounded(q, x, last.started_at as int);
        let r = ins(q, x);
        let t = r.push(last);
        assert forall|i: int, j: int| 0 <= i <= j < t.len() implies (#[trigger] t[i]).started_at <= (
        #[trigger] t[j]).started_at by {
            if j < r.len() {
                assert(t[i] == r[i] && t[j] == r[j]);
            } else if i < r.len() {
                assert(t[i] == r[i]);
            }
        }
    } else if s.len() > 0 {
        let t = s.push(x);
        assert forall|i: int, j: int| 0 <= i <= j < t.len() implies (#[trigger] t[i]).started_at <= (
        #[trigger] t[j]).started_at by {
            if j < s.len() {
                assert(t[i] == s[i] && t[j] == s[j]);
            } else if i < s.len() {
                assert(t[i] == s[i]);
                assert(s[i].started_at <= s[s.len() - 1].started_at);
            }
        }
    }
}

proof fn lemma_by_start_sorted(s: Seq<Ticketed>)
    ensures
        sorted(by_start(s)),
        by_start(s).len() == s.len(),
    decreases s.len(),
{
    if s.len() > 0 {
        lemma_by_start_sorted(s.drop_last());
        lemma_ins_sorted(by_start(s.drop_last()), s.last());
    }
}

proof fn lemma_dedup_bounded(s: Seq<Ticketed>, b: int)
    requires
        forall|k: int| 0 <= k < s.len() ==> (#[trigger] s[k]).started_at <= b,
    ensures
        forall|i: int| 0 <= i < dedup(s).len() ==> (#[trigger] dedup(s)[i]).started_at <= b,
        dedup(s).len() <= s.len(),
    decreases s.len(),
{
    if s.len() > 0 {
        let q = s.drop_last();
        assert forall|k: int| 0 <= k < q.len() implies (#[trigger] q[k]).started_at <= b by {
            assert(q[k] == s[k]);
        }
        lemma_dedup_bounded(q, b);
        let r = dedup(q);
        assert(s[s.len() - 1].started_at <= b);
        assert forall|i: int| 0 <= i < r.push(s.last()).len() implies (#[trigger] r.push(s.last())[i]).started_at <= b by {
            if i < r.len() {
                assert(r.push(s.last())[i] == r[i]);
            }
        }
    }
}

proof fn lemma_dedup_sorted(s: Seq<Ticketed>)
    requires
        sorted(s),
    ensures
        sorted(dedup(s)),
    decreases s.len(),
{
    if s.len() > 0 {
        let q = s.drop_last();
        let last = s.last();
        assert(sorted(q)) by {
            assert forall|i: int, j: int| 0 <= i <= j < q.len() implies (#[trigger] q[i]).started_at <= (
            #[trigger] q[j]).started_at by {
                assert(q[i] == s[i] && q[j] == s[j]);
            }
        }
        lemma_dedup_sorted(q);
        assert forall|k: int| 0 <= k < q.len() implies (#[trigger] q[k]).started_at <= last.started_at by {
            assert(q[k] == s[k]);
            assert(s[s.len() - 1] == last);
        }
        lemma_dedup_bounded(q, last.started_at as int);
        let r = dedup(q);
        let t = r.push(last);
        assert forall|i: int, j: int| 0 <= i <= j < t.len() implies (#[trigger] t[i]).started_at <= (
        #[trigger] t[j]).started_at by {
            if j < r.len() {
                assert(t[i] == r[i] && t[j] == r[j]);
            } else if i < r.len() {
                assert(t[i] == r[i]);
            }
        }
    }
}

proof fn lemma_inner_starts(d: Seq<Ticketed>, start: int, end: int)
    requires
        sorted(d),
    ensures
        forall|i: int| 0 <= i < inner_starts(d, start, end).len() ==> start < #[trigger] inner_starts(d, start, end)[i] < end,
        forall|i: int, j: int|
            0 <= i <= j < inner_starts(d, start, end).len() ==> #[trigger] inner_starts(d, start, end)[i]
                <= #[trigger] inner_starts(d, start, end)[j],
        d.len() > 0 ==> forall|i: int|
            0 <= i < inner_starts(d, start, end).len() ==> #[trigger] inner_starts(d, start, end)[i]
                <= d.last().started_at,
    decreases d.len(),
{
    if d.len() > 1 {
        let q = d.drop_last();
        let last = d.last();
        assert(sorted(q)) by {
            assert forall|i: int, j: int| 0 <= i <= j < q.len() implies (#[trigger] q[i]).started_at <= (
            #[trigger] q[j]).started_at by {
                assert(q[i] == d[i] && q[j] == d[j]);
            }
        }
        lemma_inner_starts(q, start, end);
        assert(q.last() == d[d.len() - 2]);
        assert(d[d.len() - 2].started_at <= d[d.len() - 1].started_at);
        let r = inner_starts(q, start, end);
        let t = r.push(last.started_at as int);
        if start < last.started_at < end {
            assert forall|i: int, j: int| 0 <= i <= j < t.len() implies #[trigger] t[i] <= #[trigger] t[j] by {
                if j < r.len() {
                    assert(t[i] == r[i] && t[j] == r[j]);
                } else if i < r.len() {
                    assert(t[i] == r[i]);
                }
            }
            assert forall|i: int| 0 <= i < t.len() implies #[trigger] t[i] <= last.started_at by {
                if i < r.len() {
                    assert(t[i] == r[i]);
                }
            }
            assert forall|i: int| 0 <= i < t.len() implies start < #[trigger] t[i] < end by {
                if i < r.len() {
                    assert(t[i] == r[i]);
                }
            }
        }
    }
}

/// The cuts of a block tile it in order: the first is its start, the last
/// its end, and they never go backwards (so every piece lies inside the
/// block and no two pieces overlap).
pub proof fn law_cuts_tile_the_block(ts: Seq<Ticketed>, start: int, end: int)
    requires
        start <= end,
    ensures
        cut_edges(ts, start, end) matches Some(e) ==> {
            &&& e.len() >= 2
            &&& e[0] == start
            &&& e.last() == end
            &&& forall|i: int, j: int| 0 <= i <= j < e.len() ==> #[trigger] e[i] <= #[trigger] e[j]
        },
{
    let h = hits(ts, start, end);
    lemma_by_start_sorted(h);
    lemma_dedup_sorted(by_start(h));
    let d = dedup(by_start(h));
    lemma_inner_starts(d, start, end);
    if d.len() >= 2 {
        let m = inner_starts(d, start, end);
        let e = seq![start] + m + seq![end];
        assert forall|i: int, j: int| 0 <= i <= j < e.len() implies #[trigger] e[i] <= #[trigger] e[j] by {
            if i == 0 {
                if 0 < j < e.len() - 1 {
                    assert(e[j] == m[j - 1]);
                }
            } else if i < e.len() - 1 {
                assert(e[i] == m[i - 1]);
                if j < e.len() - 1 {
                    assert(e[j] == m[j - 1]);
                }
            }
        }
        assert(e[0] == start);
        assert(e.last() == end);
    }
}

fn copy_t(t: &Ticketed) -> (r: Ticketed)
    ensures
        r == *t,
{
    Ticketed { started_at: t.started_at, ended_at: t.ended_at, ticket: t.ticket.clone() }
}

pub open spec fn ints(v: Seq<i128>) -> Seq<int> {
    v.map_values(|x: i128| x as int)
}

/// Where the block `[start, end)` is cut so that each prior ticketed block
/// it covers keeps its ticket: see [`cut_edges`].
pub fn cut_edges_of(start: i128, end: i128, ticketed: &Vec<Ticketed>) -> (r: Option<Vec<i128>>)
    ensures
        match cut_edges(ticketed@, start as int, end as int) {
            None => r is None,
            Some(e) => r matches Some(v) && ints(v@) == e,
        },
{
    let ghost ts = ticketed@;
    let mut h: Vec<Ticketed> = Vec::new();
    let mut i: usize = 0;
    assert(ts.take(0) =~= Seq::<Ticketed>::empty());
    while i < ticketed.len()
        invariant
            i <= ts.len(),
            ts == ticketed@,
            h@ == hits(ts.take(i as int), start as int, end as int),
        decreases ts.len() - i,
    {
        assert(ts.take(i + 1).drop_last() =~= ts.take(i as int));
        assert(ts.take(i + 1).last() == ts[i as int]);
        let t = &ticketed[i];
        if t.started_at < end && start < t.ended_at {
            h.push(copy_t(t));
        }
        i = i + 1;
    }
    assert(ts.take(ts.len() as int) =~= ts);
    let ghost hs = h@;
    let mut srt: Vec<Ticketed> = Vec::new();
    let mut k: usize = 0;
    assert(hs.take(0) =~= Seq::<Ticketed>::empty());
    while k < h.len()
        invariant
            k <= hs.len(),
            hs == h@,
            srt@ == by_start(hs.take(k as int)),
            sorted(srt@),
        decreases hs.len() - k,
    {
        assert(hs.take(k + 1).drop_last() =~= hs.take(k as int));
        assert(hs.take(k + 1).last() == hs[k as int]);
        let x = copy_t(&h[k]);
        let mut p = srt.len();
        while p > 0 && srt[p - 1].started_at > x.started_at
            invariant
                p <= srt@.len(),
                forall|q: int| p <= q < srt@.len() ==> (#[trigger] srt@[q]).started_at > x.started_at,
            decreases p,
        {
            p = p - 1;
        }
        proof {
            lemma_ins(srt@, x, p as int);
            lemma_ins_sorted(srt@, x);
        }
        srt.insert(p, x);
        k = k + 1;
    }
    assert(hs.take(hs.len() as int) =~= hs);
    let ghost ss = srt@;
    let mut d: Vec<Ticketed> = Vec::new();
    let mut j: usize = 0;
    assert(ss.take(0) =~= Seq::<Ticketed>::empty());
    while j < srt.len()
        invariant
            j <= ss.len(),
            ss == srt@,
            d@ == dedup(ss.take(j as int)),
        decreases ss.len() - j,
    {
        assert(ss.take(j + 1).drop_last() =~= ss.take(j as int));
        assert(ss.take(j + 1).last() == ss[j as int]);
        let n = d.len();
        let same = n > 0 && str_eq(d[n - 1].ticket.as_str(), srt[j].ticket.as_str());
        if !same {
            d.push(copy_t(&srt[j]));
        }
        j = j + 1;
    }
    assert(ss.take(ss.len() as int) =~= ss);
    let ghost ds = d@;
    if d.len() < 2 {
        return None;
    }
    let mut e: Vec<i128> = Vec::new();
    e.push(start);
    let mut m: usize = 1;
    assert(ints(e@) =~= seq![start as int] + inner_starts(ds.take(1), start as int, end as int));
    while m < d.len()
        invariant
            1 <= m <= ds.len(),
            ds == d@,
            ints(e@) == seq![start as int] + inner_starts(ds.take(m as int), start as int, end as int),
        decreases ds.len() - m,
    {
        assert(ds.take(m + 1).drop_last() =~= ds.take(m as int));
        assert(ds.take(m + 1).last() == ds[m as int]);
        let st = d[m].started_at;
        let ghost before = e@;
        if start < st && st < end {
            e.push(st);
            assert(ints(e@) =~= ints(before).push(st as int));
        }
        m = m + 1;
    }
    assert(ds.take(ds.len() as int) =~= ds);
    let ghost mid = e@;
    e.push(end);
    assert(ints(e@) =~= ints(mid).push(end as int));
    Some(e)
}

} // verus!
