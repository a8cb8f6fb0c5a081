//! Manual overrides of the automatic minute owners.
//!
//! The owner sometimes disagrees with the automatic per-minute split inside
//! an overlap window ("more of that hour on one project, less on the
//! other"). An allocation hands the window's worked minutes out in
//! contiguous chunks, one project after another. Only minutes someone
//! actually worked are handed out: an idle minute stays idle, so an
//! allocation never invents time nobody spent.
//!
//! The chunk sizes come from the owner's fractional shares; turning those
//! into cumulative minute counts is the caller's, everything else is here.
use vstd::prelude::*;

use crate::lanes::ov;

verus! {

/// The indices in `[lo, hi)` whose minute has an owner, ascending.
pub open spec fn worked_in(o: Seq<Option<Seq<char>>>, lo: int, hi: int) -> Seq<int>
    decreases hi - lo,
{
    if hi <= lo {
        Seq::empty()
    } else {
        let r = worked_in(o, lo, hi - 1);
        if o[hi - 1] is Some {
            r.push(hi - 1)
        } else {
            r
        }
    }
}

pub open spec fn clamp_lo(start: int) -> int {
    if start < 0 {
        0
    } else {
        start
    }
}

pub open spec fn clamp_hi(end: int, len: int) -> int {
    if end < len {
        end
    } else {
        len
    }
}

pub open spec fn idx_view(v: Seq<usize>) -> Seq<int> {
    v.map_values(|i: usize| i as int)
}

proof fn lemma_worked_in(o: Seq<Option<Seq<char>>>, lo: int, hi: int)
    requires
        0 <= lo,
        hi <= o.len(),
    ensures
        forall|p: int| 0 <= p < worked_in(o, lo, hi).len() ==> {
            let x = #[trigger] worked_in(o, lo, hi)[p];
            lo <= x < hi && o[x] is Some
        },
        forall|p: int, q: int|
            0 <= p < q < worked_in(o, lo, hi).len() ==> #[trigger] worked_in(o, lo, hi)[p]
                < #[trigger] worked_in(o, lo, hi)[q],
    decreases hi - lo,
{
    if hi > lo {
        lemma_worked_in(o, lo, hi - 1);
    }
}

/// The minutes of the window `[start, end)` (indices into `owners`,
/// clipped to it) that someone worked, in order.
pub fn worked_minutes(owners: &Vec<Option<String>>, start: i64, end: i64) -> (r: Vec<usize>)
    ensures
        idx_view(r@) == worked_in(ov(owners@), clamp_lo(start as int), clamp_hi(end as int, owners@.len() as int)),
{
    let lo: usize = if start < 0 {
        0
    } else if start as u64 >= owners.len() as u64 {
        owners.len()
    } else {
        start as usize
    };
    let hi: usize = if end <= 0 {
        0
    } else if end as u64 >= owners.len() as u64 {
        owners.len()
    } else {
        end as usize
    };
    let ghost o = ov(owners@);
    let ghost clo = clamp_lo(start as int);
    let ghost chi = clamp_hi(end as int, owners@.len() as int);
    let mut out: Vec<usize> = Vec::new();
    if lo >= hi {
        proof {
            assert(chi <= clo);
        }
        assert(idx_view(out@) =~= Seq::<int>::empty());
        return out;
    }
    assert(lo == clo && hi == chi);
    let mut i = lo;
    assert(idx_view(out@) =~= worked_in(o, clo, lo as int));
    while i < hi
        invariant
            lo <= i <= hi <= owners@.len(),
            o == ov(owners@),
            idx_view(out@) == worked_in(o, lo as int, i as int),
        decreases hi - i,
    {
        let ghost before = out@;
        if owners[i].is_some() {
            assert(o[i as int] is Some);
            out.push(i);
            assert(idx_view(out@) =~= idx_view(before).push(i as int));
        } else {
            assert(o[i as int] is None);
        }
        i = i + 1;
    }
    out
}

/// Where the chunk of `chunks[k]` begins among the worked minutes: each
/// chunk runs from where the last one ended up to its own cumulative
/// target (never backwards).
pub open spec fn chunk_start(chunks: Seq<(String, usize)>, k: int) -> int
    decreases k,
{
    if k <= 0 {
        0
    } else {
        let a = chunk_start(chunks, k - 1);
        if chunks[k - 1].1 > a {
            chunks[k - 1].1 as int
        } else {
            a
        }
    }
}

proof fn lemma_chunk_start(chunks: Seq<(String, usize)>, k: int, n: int)
    requires
        0 <= k <= chunks.len(),
        forall|j: int| 0 <= j < chunks.len() ==> (#[trigger] chunks[j]).1 <= n,
        0 <= n,
    ensures
        0 <= chunk_start(chunks, k) <= n,
        forall|j: int| 0 <= j <= k ==> #[trigger] chunk_start(chunks, j) <= chunk_start(chunks, k),
    decreases k,
{
    if k > 0 {
        lemma_chunk_start(chunks, k - 1, n);
    }
}

/// Worked minute number `p` falls in the chunk of `chunks[k]`.
pub open spec fn in_chunk(chunks: Seq<(String, usize)>, k: int, p: int) -> bool {
    0 <= k < chunks.len() && chunk_start(chunks, k) <= p < chunk_start(chunks, k + 1)
}

/// Minute `x` is handed out by the allocation.
pub open spec fn handed_out(worked: Seq<usize>, chunks: Seq<(String, usize)>, x: int) -> bool {
    exists|p: int| 0 <= p < chunk_start(chunks, chunks.len() as int) && #[trigger] worked[p] == x
}

/// Hand the worked minutes out: `chunks` lists each project with the
/// cumulative number of worked minutes it ends at; the last target is
/// normally all of them. Minutes past the last target keep their owner.
pub fn assign_chunks(owners: &mut Vec<Option<String>>, worked: &Vec<usize>, chunks: &Vec<(String, usize)>)
    requires
        forall|p: int| 0 <= p < worked@.len() ==> (#[trigger] worked@[p]) < old(owners)@.len()
            && old(owners)@[worked@[p] as int] is Some,
        forall|p: int, q: int| 0 <= p < q < worked@.len() ==> #[trigger] worked@[p] < #[trigger] worked@[q],
        forall|k: int| 0 <= k < chunks@.len() ==> (#[trigger] chunks@[k]).1 <= worked@.len(),
    ensures
        final(owners)@.len() == old(owners)@.len(),
        forall|p: int, k: int|
            #![trigger in_chunk(chunks@, k, p)]
            0 <= p < worked@.len() && in_chunk(chunks@, k, p) ==> ov(final(owners)@)[worked@[p] as int]
                == Some(chunks@[k].0@),
        forall|x: int|
            0 <= x < old(owners)@.len() && !handed_out(worked@, chunks@, x) ==> (#[trigger] final(owners)@[x])
                == old(owners)@[x],
        forall|x: int|
            0 <= x < old(owners)@.len() ==> ((#[trigger] final(owners)@[x]) is Some <==> old(owners)@[x] is Some),
{
    let ghost o0 = owners@;
    let ghost w = worked@;
    let ghost cs = chunks@;
    let n = worked.len();
    let mut assigned: usize = 0;
    let mut k: usize = 0;
    proof {
        lemma_chunk_start(cs, 0, n as int);
    }
    while k < chunks.len()
        invariant
            k <= cs.len(),
            cs == chunks@,
            w == worked@,
            n == w.len(),
            owners@.len() == o0.len(),
            forall|p: int| 0 <= p < w.len() ==> (#[trigger] w[p]) < o0.len() && o0[w[p] as int] is Some,
            forall|p: int, q: int| 0 <= p < q < w.len() ==> #[trigger] w[p] < #[trigger] w[q],
            forall|j: int| 0 <= j < cs.len() ==> (#[trigger] cs[j]).1 <= n,
            assigned == chunk_start(cs, k as int),
            assigned <= n,
            forall|p: int, j: int|
                #![trigger in_chunk(cs, j, p)]
                0 <= p < n && 0 <= j < k && in_chunk(cs, j, p) ==> ov(owners@)[w[p] as int] == Some(cs[j].0@),
            forall|x: int|
                0 <= x < o0.len() && !(exists|p: int| 0 <= p < assigned && #[trigger] w[p] == x) ==> (
                #[trigger] owners@[x]) == o0[x],
            forall|x: int| 0 <= x < o0.len() ==> ((#[trigger] owners@[x]) is Some <==> o0[x] is Some),
        decreases cs.len() - k,
    {
        let target = chunks[k].1;
        let hi = if target > assigned {
            target
        } else {
            assigned
        };
        proof {
            lemma_chunk_start(cs, k as int + 1, n as int);
            assert(hi == chunk_start(cs, k + 1));
        }
        let mut p = assigned;
        while p < hi
            invariant
                assigned <= p <= hi <= n,
                k < cs.len(),
                cs == chunks@,
                w == worked@,
                n == w.len(),
                owners@.len() == o0.len(),
                forall|q: int| 0 <= q < w.len() ==> (#[trigger] w[q]) < o0.len() && o0[w[q] as int] is Some,
                forall|a: int, b: int| 0 <= a < b < w.len() ==> #[trigger] w[a] < #[trigger] w[b],
                forall|j: int| 0 <= j < cs.len() ==> (#[trigger] cs[j]).1 <= n,
                assigned == chunk_start(cs, k as int),
                hi == chunk_start(cs, k + 1),
                forall|q: int, j: int|
                    #![trigger in_chunk(cs, j, q)]
                    0 <= q < n && 0 <= j < k && in_chunk(cs, j, q) ==> ov(owners@)[w[q] as int] == Some(
                        cs[j].0@,
                    ),
                forall|q: int| assigned <= q < p ==> ov(owners@)[#[trigger] w[q] as int] == Some(cs[k as int].0@),
                forall|x: int|
                    0 <= x < o0.len() && !(exists|q: int| 0 <= q < p && #[trigger] w[q] == x) ==> (
                    #[trigger] owners@[x]) == o0[x],
                forall|x: int| 0 <= x < o0.len() ==> ((#[trigger] owners@[x]) is Some <==> o0[x] is Some),
            decreases hi - p,
        {
            let x = worked[p];
            let ghost before = owners@;
            let name = chunks[k].0.clone();
            owners.set(x, Some(name));
            proof {
                assert(ov(owners@)[x as int] == Some(cs[k as int].0@));
                assert forall|q: int, j: int|
                    #![trigger in_chunk(cs, j, q)]
                    0 <= q < n && 0 <= j < k && in_chunk(cs, j, q) implies ov(owners@)[w[q] as int] == Some(
                        cs[j].0@,
                    ) by {
                    lemma_chunk_start(cs, j + 1, n as int);
                    lemma_chunk_start(cs, k as int, n as int);
                    assert(q < p);
                    assert(w[q] != x);
                    assert(ov(owners@)[w[q] as int] == ov(before)[w[q] as int]);
                }
                assert forall|q: int| assigned <= q < p + 1 implies ov(owners@)[#[trigger] w[q] as int] == Some(
                    cs[k as int].0@,
                ) by {
                    if q < p {
                        assert(w[q] != x);
                        assert(ov(owners@)[w[q] as int] == ov(before)[w[q] as int]);
                    }
                }
                assert forall|y: int|
                    0 <= y < o0.len() && !(exists|q: int| 0 <= q < p + 1 && #[trigger] w[q] == y) implies (
                    #[trigger] owners@[y]) == o0[y] by {
                    assert(w[p as int] == x);
                    assert(y != x);
                    assert(!(exists|q: int| 0 <= q < p && #[trigger] w[q] == y)) by {
                        if exists|q: int| 0 <= q < p && #[trigger] w[q] == y {
                            let q = choose|q: int| 0 <= q < p && #[trigger] w[q] == y;
                            assert(0 <= q < p + 1 && w[q] == y);
                        }
                    }
                }
                assert forall|y: int| 0 <= y < o0.len() implies ((#[trigger] owners@[y]) is Some <==> o0[y] is Some) by {
                    if y == x {
                        assert(o0[x as int] is Some);
                    } else {
                        assert(owners@[y] == before[y]);
                    }
                }
            }
            p = p + 1;
        }
        proof {
            assert forall|q: int, j: int|
                #![trigger in_chunk(cs, j, q)]
                0 <= q < n && 0 <= j < k + 1 && in_chunk(cs, j, q) implies ov(owners@)[w[q] as int] == Some(
                    cs[j].0@,
                ) by {
                if j == k {
                    assert(assigned <= q < hi);
                }
            }
        }
        assigned = hi;
        k = k + 1;
    }
    proof {
        assert forall|x: int|
            0 <= x < o0.len() && !handed_out(w, cs, x) implies (#[trigger] owners@[x]) == o0[x] by {
            if exists|p: int| 0 <= p < assigned && #[trigger] w[p] == x {
                let p = choose|p: int| 0 <= p < assigned && #[trigger] w[p] == x;
                assert(0 <= p < chunk_start(cs, cs.len() as int) && w[p] == x);
            }
        }
    }
}

} // verus!
