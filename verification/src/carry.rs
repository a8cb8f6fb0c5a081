//! Carry state across re-inference.
//!
//! Rebuilding a day replaces its blocks, but what the owner and the sync
//! attached to the old blocks — `tempo_worklog_id`, `description`,
//! `estimated_by`, a hand-picked ticket — must survive. Each new block
//! inherits from the prior block that started at exactly the same
//! instant (same text), or else from the first not-yet-claimed prior block
//! whose time range overlaps it.
//!
//! Timestamps are compared as instants, not as text: the parsing is
//! `chrono`'s, reached through the trusted wrappers below.
use vstd::prelude::*;

use crate::text::str_eq;

verus! {

/// What `DateTime::parse_from_rfc3339` reads from a text, as
/// `(timestamp, subsecond nanos)` in UTC; `None` when it does not parse.
pub uninterp spec fn rfc3339_utc(s: Seq<char>) -> Option<(i64, u32)>;

/// What `NaiveDateTime::parse_from_str(s, fmt)` reads, taken as UTC, as
/// `(timestamp, subsecond nanos)`; `None` when it does not parse.
pub uninterp spec fn naive_utc(s: Seq<char>, fmt: Seq<char>) -> Option<(i64, u32)>;

/// Calls `chrono::DateTime::parse_from_rfc3339` and reads the instant's
/// Unix timestamp and subsecond nanoseconds. The contract only names the
/// result: it is a function of the text alone.
#[verifier::external_body]
fn parse_rfc3339_utc(s: &str) -> (r: Option<(i64, u32)>)
    ensures
        r == rfc3339_utc(s@),
{
    match chrono::DateTime::parse_from_rfc3339(s) {
        Ok(d) => Some((d.timestamp(), d.timestamp_subsec_nanos())),
        Err(_) => None,
    }
}

/// Calls `chrono::NaiveDateTime::parse_from_str` and reads the naive time
/// as UTC (`and_utc`). The contract only names the result: it is a
/// function of the text and the format alone.
#[verifier::external_body]
fn parse_naive_utc(s: &str, fmt: &str) -> (r: Option<(i64, u32)>)
    ensures
        r == naive_utc(s@, fmt@),
{
    match chrono::NaiveDateTime::parse_from_str(s, fmt) {
        Ok(n) => Some((n.and_utc().timestamp(), n.and_utc().timestamp_subsec_nanos())),
        Err(_) => None,
    }
}

/// The instant a stored timestamp names: RFC 3339 (`+00:00` or `Z`), or a
/// naive ISO text taken as UTC, with or without a fraction.
pub open spec fn parse_maybe_utc_spec(s: Seq<char>) -> Option<(i64, u32)> {
    match rfc3339_utc(s) {
        Some(t) => Some(t),
        None => match naive_utc(s, "%Y-%m-%dT%H:%M:%S"@) {
            Some(t) => Some(t),
            None => naive_utc(s, "%Y-%m-%dT%H:%M:%S%.f"@),
        },
    }
}

/// Whether instant `a` is strictly before instant `b` (seconds first, then
/// the subsecond part, which a leap second may carry past one second).
pub open spec fn instant_before(a: (i64, u32), b: (i64, u32)) -> bool {
    a.0 < b.0 || (a.0 == b.0 && a.1 < b.1)
}

/// Whether `[a_start, a_end)` and `[b_start, b_end)` overlap; a timestamp
/// that does not parse makes the answer `false`.
pub open spec fn ranges_overlap_spec(
    a_start: Seq<char>,
    a_end: Seq<char>,
    b_start: Seq<char>,
    b_end: Seq<char>,
) -> bool {
    match (
        parse_maybe_utc_spec(a_start),
        parse_maybe_utc_spec(a_end),
        parse_maybe_utc_spec(b_start),
        parse_maybe_utc_spec(b_end),
    ) {
        (Some(a_s), Some(a_e), Some(b_s), Some(b_e)) => instant_before(a_s, b_e) && instant_before(
            b_s,
            a_e,
        ),
        _ => false,
    }
}

/// Parse a stored timestamp the lenient way `parse_maybe_utc_spec` says.
pub fn parse_maybe_utc(s: &str) -> (r: Option<(i64, u32)>)
    ensures
        r == parse_maybe_utc_spec(s@),
{
    if let Some(t) = parse_rfc3339_utc(s) {
        return Some(t);
    }
    if let Some(t) = parse_naive_utc(s, "%Y-%m-%dT%H:%M:%S") {
        return Some(t);
    }
    parse_naive_utc(s, "%Y-%m-%dT%H:%M:%S%.f")
}

fn before(a: (i64, u32), b: (i64, u32)) -> (r: bool)
    ensures
        r == instant_before(a, b),
{
    a.0 < b.0 || (a.0 == b.0 && a.1 < b.1)
}

/// Overlap check on ISO-8601 timestamps, robust to format differences
/// (`+00:00` vs `Z`, with or without sub-seconds): each text is parsed to
/// an instant before comparing. Unparseable input means no overlap.
pub fn ranges_overlap(a_start: &str, a_end: &str, b_start: &str, b_end: &str) -> (r: bool)
    ensures
        r == ranges_overlap_spec(a_start@, a_end@, b_start@, b_end@),
{
    let a_s = parse_maybe_utc(a_start);
    let a_e = parse_maybe_utc(a_end);
    let b_s = parse_maybe_utc(b_start);
    let b_e = parse_maybe_utc(b_end);
    match (a_s, a_e, b_s, b_e) {
        (Some(a_s), Some(a_e), Some(b_s), Some(b_e)) => before(a_s, b_e) && before(b_s, a_e),
        _ => false,
    }
}

/// A prior block's carried state.
#[derive(Debug)]
pub struct CarryRow {
    pub started_at: String,
    pub ended_at: String,
    pub jira_issue: Option<String>,
    pub description: Option<String>,
    pub estimated_by: Option<String>,
    pub tempo_worklog_id: Option<String>,
}

/// The index of the last prior row that started at exactly `key` (a
/// later row under the same key replaces an earlier one).
pub open spec fn exact_carry(prior: Seq<CarryRow>, key: Seq<char>) -> Option<int>
    decreases prior.len(),
{
    if prior.len() == 0 {
        None
    } else if prior.last().started_at@ == key {
        Some(prior.len() - 1)
    } else {
        exact_carry(prior.drop_last(), key)
    }
}

/// Whether prior row `r` may be claimed by a block spanning `[s, e)`.
pub open spec fn fallback_ok(r: CarryRow, claimed: Set<Seq<char>>, s: Seq<char>, e: Seq<char>) -> bool {
    !claimed.contains(r.started_at@) && ranges_overlap_spec(r.started_at@, r.ended_at@, s, e)
}

/// The first prior row not yet claimed whose range overlaps `[s, e)`.
pub open spec fn fallback_carry(prior: Seq<CarryRow>, claimed: Set<Seq<char>>, s: Seq<char>, e: Seq<
    char,
>) -> Option<int>
    decreases prior.len(),
{
    if prior.len() == 0 {
        None
    } else if fallback_ok(prior[0], claimed, s, e) {
        Some(0)
    } else {
        match fallback_carry(prior.drop_first(), claimed, s, e) {
            Some(i) => Some(i + 1),
            None => None,
        }
    }
}

/// The carry source of one new block, given what earlier blocks claimed.
pub open spec fn carry_for(prior: Seq<CarryRow>, claimed: Set<Seq<char>>, s: Seq<char>, e: Seq<
    char,
>) -> Option<int> {
    match exact_carry(prior, s) {
        Some(i) => Some(i),
        None => fallback_carry(prior, claimed, s, e),
    }
}

/// The carry source of every new block `(start, end)`, in order, and the
/// start keys claimed along the way.
pub open spec fn carry_plan(prior: Seq<CarryRow>, blocks: Seq<(Seq<char>, Seq<char>)>) -> (
    Seq<Option<int>>,
    Set<Seq<char>>,
)
    decreases blocks.len(),
{
    if blocks.len() == 0 {
        (Seq::<Option<int>>::empty(), Set::<Seq<char>>::empty())
    } else {
        let (picks, claimed) = carry_plan(prior, blocks.drop_last());
        let b = blocks.last();
        let c = carry_for(prior, claimed, b.0, b.1);
        (
            picks.push(c),
            match c {
                Some(i) => claimed.insert(prior[i].started_at@),
                None => claimed,
            },
        )
    }
}

proof fn lemma_exact_is(prior: Seq<CarryRow>, key: Seq<char>, i: int)
    requires
        -1 <= i < prior.len(),
        i >= 0 ==> prior[i].started_at@ == key,
        forall|j: int| i < j < prior.len() ==> prior[j].started_at@ != key,
    ensures
        exact_carry(prior, key) == (if i >= 0 {
            Some(i)
        } else {
            None::<int>
        }),
    decreases prior.len(),
{
    if prior.len() > 0 && i < prior.len() - 1 {
        lemma_exact_is(prior.drop_last(), key, i);
    }
}

proof fn lemma_fallback_is(prior: Seq<CarryRow>, claimed: Set<Seq<char>>, s: Seq<char>, e: Seq<
    char,
>, i: int)
    requires
        0 <= i <= prior.len(),
        i < prior.len() ==> fallback_ok(prior[i], claimed, s, e),
        forall|j: int| 0 <= j < i ==> !fallback_ok(prior[j], claimed, s, e),
    ensures
        fallback_carry(prior, claimed, s, e) == (if i < prior.len() {
            Some(i)
        } else {
            None::<int>
        }),
    decreases prior.len(),
{
    if prior.len() > 0 && i > 0 {
        lemma_fallback_is(prior.drop_first(), claimed, s, e, i - 1);
    }
}

proof fn lemma_push_to_set(s: Seq<Seq<char>>, x: Seq<char>)
    ensures
        s.push(x).to_set() == s.to_set().insert(x),
{
    assert forall|a: Seq<char>| #[trigger] s.push(x).to_set().contains(a) <==> s.to_set().insert(
        x,
    ).contains(a) by {
        if s.push(x).contains(a) {
            let i = choose|i: int| 0 <= i < s.push(x).len() && s.push(x)[i] == a;
            if i < s.len() {
                assert(s[i] == a);
            }
        }
        if s.contains(a) {
            let i = choose|i: int| 0 <= i < s.len() && s[i] == a;
            assert(s.push(x)[i] == a);
        }
        if a == x {
            assert(s.push(x)[s.len() as int] == x);
        }
    }
    assert(s.push(x).to_set() =~= s.to_set().insert(x));
}

proof fn lemma_exact_carry(prior: Seq<CarryRow>, key: Seq<char>)
    ensures
        exact_carry(prior, key) matches Some(i) ==> 0 <= i < prior.len() && prior[i].started_at@ == key,
        exact_carry(prior, key) is None ==> forall|i: int| 0 <= i < prior.len() ==> (#[trigger] prior[i]).started_at@ != key,
    decreases prior.len(),
{
    if prior.len() > 0 {
        lemma_exact_carry(prior.drop_last(), key);
        assert forall|i: int| 0 <= i < prior.len() - 1 implies (#[trigger] prior[i]) == prior.drop_last()[i] by {}
    }
}

proof fn lemma_fallback_carry(prior: Seq<CarryRow>, claimed: Set<Seq<char>>, s: Seq<char>, e: Seq<char>)
    ensures
        fallback_carry(prior, claimed, s, e) matches Some(i) ==> 0 <= i < prior.len() && fallback_ok(prior[i], claimed, s, e),
    decreases prior.len(),
{
    if prior.len() > 0 {
        lemma_fallback_carry(prior.drop_first(), claimed, s, e);
    }
}

/// Some block among `picks` inherits a prior row that started at `x`.
pub open spec fn start_picked(prior: Seq<CarryRow>, picks: Seq<Option<int>>, x: Seq<char>) -> bool {
    exists|k: int| 0 <= k < picks.len() && (#[trigger] picks[k]) is Some && prior[picks[k]->0].started_at@ == x
}

/// No prior row is ever inherited twice through the overlap fallback: a
/// block that inherits a row not starting where it starts inherits one
/// whose start no earlier block has inherited (whether that earlier block
/// matched it exactly or by overlap). Every inherited row either starts
/// exactly where its block starts or overlaps the block.
pub proof fn law_no_row_inherited_twice(prior: Seq<CarryRow>, bs: Seq<(Seq<char>, Seq<char>)>)
    ensures
        carry_plan(prior, bs).0.len() == bs.len(),
        forall|k: int| 0 <= k < bs.len() ==> (#[trigger] carry_plan(prior, bs).0[k] matches Some(i) ==> 0 <= i < prior.len()
            && (prior[i].started_at@ == bs[k].0 || ranges_overlap_spec(prior[i].started_at@, prior[i].ended_at@, bs[k].0, bs[k].1))),
        forall|k1: int, k2: int|
            0 <= k1 < k2 < bs.len() && (#[trigger] carry_plan(prior, bs).0[k1]) is Some
                && (#[trigger] carry_plan(prior, bs).0[k2]) is Some
                && prior[carry_plan(prior, bs).0[k2]->0].started_at@ != bs[k2].0
                ==> prior[carry_plan(prior, bs).0[k1]->0].started_at@ != prior[carry_plan(prior, bs).0[k2]->0].started_at@,
        forall|x: Seq<char>| #[trigger] carry_plan(prior, bs).1.contains(x) <==> start_picked(prior, carry_plan(prior, bs).0, x),
    decreases bs.len(),
{
    if bs.len() > 0 {
        let pb = bs.drop_last();
        law_no_row_inherited_twice(prior, pb);
        let (picks, claimed) = carry_plan(prior, pb);
        let b = bs.last();
        lemma_exact_carry(prior, b.0);
        lemma_fallback_carry(prior, claimed, b.0, b.1);
        let c = carry_for(prior, claimed, b.0, b.1);
        let np = carry_plan(prior, bs).0;
        let nc = carry_plan(prior, bs).1;
        assert(np == picks.push(c));
        let n = pb.len() as int;
        assert forall|k: int| 0 <= k < n implies #[trigger] np[k] == picks[k] && bs[k] == pb[k] by {}
        assert(bs[n] == b);
        assert forall|k: int| 0 <= k < bs.len() implies (#[trigger] np[k] matches Some(i) ==> 0 <= i < prior.len()
            && (prior[i].started_at@ == bs[k].0 || ranges_overlap_spec(prior[i].started_at@, prior[i].ended_at@, bs[k].0, bs[k].1))) by {
            if k < n {
                assert(np[k] == picks[k] && bs[k] == pb[k]);
            }
        }
        assert forall|k1: int, k2: int|
            0 <= k1 < k2 < bs.len() && (#[trigger] np[k1]) is Some
                && (#[trigger] np[k2]) is Some
                && prior[np[k2]->0].started_at@ != bs[k2].0
            implies prior[np[k1]->0].started_at@ != prior[np[k2]->0].started_at@ by {
            if k2 < n {
                assert(np[k1] == picks[k1] && np[k2] == picks[k2] && bs[k2] == pb[k2]);
            } else {
                assert(np[k2] == c);
                assert(exact_carry(prior, b.0) is None);
                assert(np[k1] == picks[k1]);
                assert(start_picked(prior, picks, prior[picks[k1]->0].started_at@));
                assert(!claimed.contains(prior[c->0].started_at@));
            }
        }
        assert forall|x: Seq<char>| #[trigger] nc.contains(x) <==> start_picked(prior, np, x) by {
            if nc.contains(x) {
                if claimed.contains(x) {
                    let k = choose|k: int| 0 <= k < picks.len() && (#[trigger] picks[k]) is Some && prior[picks[k]->0].started_at@ == x;
                    assert(np[k] == picks[k]);
                } else {
                    assert(np[n] == c);
                }
            }
            if start_picked(prior, np, x) {
                let k = choose|k: int| 0 <= k < np.len() && (#[trigger] np[k]) is Some && prior[np[k]->0].started_at@ == x;
                if k < n {
                    assert(np[k] == picks[k]);
                    assert(start_picked(prior, picks, x));
                }
            }
        }
    }
}

pub open spec fn keys_view(blocks: Seq<(String, String)>) -> Seq<(Seq<char>, Seq<char>)> {
    blocks.map_values(|b: (String, String)| (b.0@, b.1@))
}

/// The last prior row whose start text is `s`.
fn find_exact(prior: &Vec<CarryRow>, s: &String) -> (r: Option<usize>)
    ensures
        plan_pick(r) == exact_carry(prior@, s@),
        r matches Some(i) ==> i < prior@.len(),
{
    let mut j: usize = prior.len();
    while j > 0
        invariant
            j <= prior@.len(),
            forall|m: int| j <= m < prior@.len() ==> prior@[m].started_at@ != s@,
        decreases j,
    {
        if str_eq(prior[j - 1].started_at.as_str(), s.as_str()) {
            proof {
                lemma_exact_is(prior@, s@, j - 1);
            }
            return Some(j - 1);
        }
        j = j - 1;
    }
    proof {
        lemma_exact_is(prior@, s@, -1);
    }
    None
}

/// Whether `key` is among the claimed start texts.
fn is_claimed(claimed: &Vec<String>, key: &String) -> (r: bool)
    ensures
        r == claimed@.map_values(|c: String| c@).to_set().contains(key@),
{
    let ghost cv = claimed@.map_values(|c: String| c@);
    let mut c: usize = 0;
    while c < claimed.len()
        invariant
            c <= claimed@.len(),
            cv == claimed@.map_values(|c: String| c@),
            forall|x: int| 0 <= x < c ==> claimed@[x]@ != key@,
        decreases claimed@.len() - c,
    {
        if str_eq(claimed[c].as_str(), key.as_str()) {
            proof {
                assert(cv[c as int] == key@);
                assert(cv.contains(key@));
            }
            return true;
        }
        c = c + 1;
    }
    proof {
        if cv.contains(key@) {
            let x = choose|x: int| 0 <= x < cv.len() && cv[x] == key@;
            assert(claimed@[x]@ == key@);
        }
    }
    false
}

/// The first unclaimed prior row whose range overlaps `[s, e)`.
fn find_fallback(prior: &Vec<CarryRow>, claimed: &Vec<String>, s: &String, e: &String) -> (r:
    Option<usize>)
    ensures
        plan_pick(r) == fallback_carry(
            prior@,
            claimed@.map_values(|c: String| c@).to_set(),
            s@,
            e@,
        ),
        r matches Some(i) ==> i < prior@.len(),
{
    let ghost cl = claimed@.map_values(|c: String| c@).to_set();
    let mut i: usize = 0;
    while i < prior.len()
        invariant
            i <= prior@.len(),
            cl == claimed@.map_values(|c: String| c@).to_set(),
            forall|m: int| 0 <= m < i ==> !fallback_ok(prior@[m], cl, s@, e@),
        decreases prior@.len() - i,
    {
        let taken = is_claimed(claimed, &prior[i].started_at);
        if !taken && ranges_overlap(
            prior[i].started_at.as_str(),
            prior[i].ended_at.as_str(),
            s.as_str(),
            e.as_str(),
        ) {
            proof {
                lemma_fallback_is(prior@, cl, s@, e@, i as int);
            }
            return Some(i);
        }
        i = i + 1;
    }
    proof {
        lemma_fallback_is(prior@, cl, s@, e@, prior@.len() as int);
    }
    None
}

pub open spec fn plan_pick(p: Option<usize>) -> Option<int> {
    match p {
        Some(i) => Some(i as int),
        None => None,
    }
}

/// For each new block `(started_at, ended_at)`, the index of the prior row
/// whose state it inherits: the last row with the same start text, else
/// the first unclaimed row whose range overlaps. A row is claimed by the
/// block that inherits it.
pub fn plan_carry(prior: &Vec<CarryRow>, blocks: &Vec<(String, String)>) -> (r: Vec<Option<usize>>)
    ensures
        r@.map_values(|p: Option<usize>| plan_pick(p)) == carry_plan(prior@, keys_view(blocks@)).0,
        forall|k: int| 0 <= k < r@.len() ==> (#[trigger] r@[k] matches Some(i) ==> i < prior@.len()),
        r@.len() == blocks@.len(),
        forall|k1: int, k2: int|
            0 <= k1 < k2 < r@.len() && (#[trigger] r@[k1]) is Some && (#[trigger] r@[k2]) is Some
                && prior@[r@[k2]->0 as int].started_at@ != blocks@[k2].0@
                ==> prior@[r@[k1]->0 as int].started_at@ != prior@[r@[k2]->0 as int].started_at@,
{
    let mut picks: Vec<Option<usize>> = Vec::new();
    let mut claimed: Vec<String> = Vec::new();
    let mut k: usize = 0;
    assert(keys_view(blocks@).take(0) =~= Seq::<(Seq<char>, Seq<char>)>::empty());
    assert(picks@.map_values(|p: Option<usize>| plan_pick(p)) =~= Seq::<Option<int>>::empty());
    assert(claimed@.map_values(|c: String| c@).to_set() =~= Set::<Seq<char>>::empty());
    while k < blocks.len()
        invariant
            k <= blocks@.len(),
            picks@.map_values(|p: Option<usize>| plan_pick(p)) == carry_plan(
                prior@,
                keys_view(blocks@).take(k as int),
            ).0,
            claimed@.map_values(|c: String| c@).to_set() == carry_plan(
                prior@,
                keys_view(blocks@).take(k as int),
            ).1,
            forall|m: int|
                0 <= m < picks@.len() ==> (#[trigger] picks@[m] matches Some(i) ==> i
                    < prior@.len()),
        decreases blocks@.len() - k,
    {
        let ghost cl = claimed@.map_values(|c: String| c@).to_set();
        let s = &blocks[k].0;
        let e = &blocks[k].1;
        proof {
            assert(keys_view(blocks@).take(k + 1).drop_last() =~= keys_view(blocks@).take(
                k as int,
            ));
            assert(keys_view(blocks@).take(k + 1).last() == (s@, e@));
        }
        let pick = match find_exact(prior, s) {
            Some(i) => Some(i),
            None => find_fallback(prior, &claimed, s, e),
        };
        assert(plan_pick(pick) == carry_for(prior@, cl, s@, e@));
        let ghost before = picks@;
        picks.push(pick);
        assert(picks@.map_values(|p: Option<usize>| plan_pick(p)) =~= before.map_values(
            |p: Option<usize>| plan_pick(p),
        ).push(plan_pick(pick)));
        assert forall|m: int| 0 <= m < picks@.len() implies (#[trigger] picks@[m] matches Some(i)
            ==> i < prior@.len()) by {
            if m < before.len() {
                assert(picks@[m] == before[m]);
            }
        }
        match pick {
            Some(i) => {
                let ghost cbefore = claimed@;
                claimed.push(prior[i].started_at.clone());
                assert(claimed@.map_values(|c: String| c@) =~= cbefore.map_values(|c: String| c@).push(
                    prior@[i as int].started_at@,
                ));
                proof {
                    lemma_push_to_set(cbefore.map_values(|c: String| c@), prior@[i as int].started_at@);
                }
                assert(claimed@.map_values(|c: String| c@).to_set() =~= cl.insert(
                    prior@[i as int].started_at@,
                ));
            },
            None => {},
        }
        k = k + 1;
    }
    assert(keys_view(blocks@).take(k as int) =~= keys_view(blocks@));
    proof {
        let ks = keys_view(blocks@);
        law_no_row_inherited_twice(prior@, ks);
        let pl = carry_plan(prior@, ks).0;
        assert forall|k1: int, k2: int|
            0 <= k1 < k2 < picks@.len() && (#[trigger] picks@[k1]) is Some && (#[trigger] picks@[k2]) is Some
                && prior@[picks@[k2]->0 as int].started_at@ != blocks@[k2].0@
            implies prior@[picks@[k1]->0 as int].started_at@ != prior@[picks@[k2]->0 as int].started_at@ by {
            assert(pl[k1] == plan_pick(picks@[k1]));
            assert(pl[k2] == plan_pick(picks@[k2]));
            assert(ks[k2] == (blocks@[k2].0@, blocks@[k2].1@));
        }
    }
    picks
}


/// The start and end keys of stored rows.
pub open spec fn row_keys(rows: Seq<CarryRow>) -> Seq<(Seq<char>, Seq<char>)> {
    rows.map_values(|r: CarryRow| (r.started_at@, r.ended_at@))
}

proof fn lemma_unchanged_prefix(prior: Seq<CarryRow>, n: int)
    requires
        0 <= n <= prior.len(),
        forall|i: int, j: int|
            0 <= i < j < prior.len() ==> (#[trigger] prior[i]).started_at@ != (#[trigger] prior[j]).started_at@,
    ensures
        carry_plan(prior, row_keys(prior).take(n)).0 == Seq::new(n as nat, |i: int| Some(i)),
    decreases n,
{
    if n == 0 {
        assert(carry_plan(prior, row_keys(prior).take(0)).0 =~= Seq::new(0, |i: int| Some(i)));
    } else {
        lemma_unchanged_prefix(prior, n - 1);
        let ks = row_keys(prior).take(n);
        assert(ks.drop_last() =~= row_keys(prior).take(n - 1));
        assert(ks.last() == (prior[n - 1].started_at@, prior[n - 1].ended_at@));
        lemma_exact_is(prior, prior[n - 1].started_at@, n - 1);
        assert(carry_plan(prior, ks).0 =~= Seq::new(n as nat, |i: int| Some(i)));
    }
}

/// Re-inferring a day whose blocks did not move keeps each block's state:
/// when the new blocks span exactly what the stored ones did (no two
/// stored rows starting at the same instant), block `i` inherits stored
/// row `i`, whose Tempo id, description, estimator mark and manual ticket
/// `inherit` then carries over.
pub proof fn law_unchanged_day_keeps_its_blocks(prior: Seq<CarryRow>)
    requires
        forall|i: int, j: int|
            0 <= i < j < prior.len() ==> (#[trigger] prior[i]).started_at@ != (#[trigger] prior[j]).started_at@,
    ensures
        carry_plan(prior, row_keys(prior)).0 == Seq::new(prior.len(), |i: int| Some(i)),
{
    lemma_unchanged_prefix(prior, prior.len() as int);
    assert(row_keys(prior).take(prior.len() as int) =~= row_keys(prior));
}

/// The state a rebuilt block starts with.
#[derive(Debug)]
pub struct Inherited {
    pub tempo_worklog_id: Option<String>,
    pub description: Option<String>,
    pub estimated_by: Option<String>,
    pub jira_issue: Option<String>,
}

/// What a rebuilt block keeps from the prior row it inherits (if any):
/// its Tempo id, description and estimator mark, and its ticket (a hand
/// edit wins over inference) when it has one, else the inferred ticket.
pub fn inherit(carry: Option<&CarryRow>, inferred_jira: Option<String>) -> (r: Inherited)
    ensures
        match carry {
            Some(c) => {
                &&& r.tempo_worklog_id == c.tempo_worklog_id
                &&& r.description == c.description
                &&& r.estimated_by == c.estimated_by
                &&& r.jira_issue == (if c.jira_issue is Some {
                    c.jira_issue
                } else {
                    inferred_jira
                })
            },
            None => {
                &&& r.tempo_worklog_id is None
                &&& r.description is None
                &&& r.estimated_by is None
                &&& r.jira_issue == inferred_jira
            },
        },
{
    match carry {
        Some(c) => Inherited {
            tempo_worklog_id: crate::infer::copy_opt(&c.tempo_worklog_id),
            description: crate::infer::copy_opt(&c.description),
            estimated_by: crate::infer::copy_opt(&c.estimated_by),
            jira_issue: if c.jira_issue.is_some() {
                crate::infer::copy_opt(&c.jira_issue)
            } else {
                inferred_jira
            },
        },
        None => Inherited {
            tempo_worklog_id: None,
            description: None,
            estimated_by: None,
            jira_issue: inferred_jira,
        },
    }
}

} // verus!
