//! Parallel projects share the day minute by minute.
//!
//! The owner often has two sessions going at once. One interleaved
//! timeline fuses both into a single block; separate per-project lanes
//! double-count the same hour for two customers. Instead every minute is
//! owned by exactly one project: the owner's latest action within
//! `HUMAN_WINDOW_MINUTES` decides outright (work before personal);
//! otherwise the project with the most activity within ±`WINDOW_MINUTES`
//! (work before personal, ties keep the current owner). Short silent
//! stretches between the same owner are bridged, and a run under
//! `MIN_RUN_MINUTES` joins a touching neighbour of the same kind. Each run
//! then spans exactly the minutes it owns, so every owned minute is
//! counted once and runs never overlap.
use vstd::prelude::*;

use crate::order::{
    lemma_lex_asymmetric, lemma_lex_irreflexive, lemma_lex_total, lemma_lex_transitive, lex_lt,
    str_lt,
};
use crate::sources::assistant_turn;
use crate::text::{chars_of, concat, contains, starts_with, str_contains, str_eq, str_starts_with};

verus! {

/// Activity within this many minutes of a minute counts toward its owner.
pub const WINDOW_MINUTES: i64 = 5;

/// The owner's own actions reach this far: attention stays on a project
/// for a while after typing into it.
pub const HUMAN_WINDOW_MINUTES: i64 = 15;

/// A run shorter than this joins its neighbour instead of becoming a
/// sliver block that gets dropped.
pub const MIN_RUN_MINUTES: i64 = 5;

/// Silent stretches shorter than this between the same owner are bridged.
pub const BRIDGE_MINUTES: usize = 10;

/// The largest minute magnitude the lanes accept (a quarter of `i64`),
/// far beyond any instant the inference works with.
pub const MINUTE_BOUND: i64 = 0x1fff_ffff_ffff_ffff;

/// The marker that keeps personal lane keys apart from client work.
pub open spec fn personal_mark() -> Seq<char> {
    "personal:"@
}

/// Sources that are the owner acting, not a tool working on their behalf.
pub open spec fn human_source(s: Seq<char>) -> bool {
    ||| s == assistant_turn()
    ||| s == "shell"@
    ||| s == "git_reflog"@
    ||| s == "github_commit"@
    ||| s == "github_pr"@
    ||| s == "slack"@
    ||| s == "firefox"@
}

/// Whether `source` is the owner acting.
pub fn is_human(source: &str) -> (b: bool)
    ensures
        b == human_source(source@),
{
    let turn = crate::sources::assistant_turn_source();
    str_eq(source, turn.as_str()) || str_eq(source, "shell") || str_eq(source, "git_reflog")
        || str_eq(source, "github_commit") || str_eq(source, "github_pr") || str_eq(
        source,
        "slack",
    ) || str_eq(source, "firefox")
}

/// Client work: a lane key without the personal marker.
pub open spec fn work_key(k: Seq<char>) -> bool {
    !starts_with(k, personal_mark())
}

/// Whether lane key `key` is client work.
pub fn is_work(key: &str) -> (b: bool)
    ensures
        b == work_key(key@),
{
    !str_starts_with(key, "personal:")
}

/// The lane key of an event with working directory `project_path`, given
/// the project folder that directory belongs to (when it can be placed):
/// the folder (or the whole path) under `/Desktop/Work/`, marked personal
/// anywhere else.
pub open spec fn lane_key_of(project_path: Seq<char>, folder: Option<Seq<char>>) -> Seq<char> {
    let f = match folder {
        Some(f) => f,
        None => project_path,
    };
    if contains(project_path, "/Desktop/Work/"@) {
        f
    } else {
        personal_mark() + f
    }
}

/// The lane key of an event with working directory `project_path`, given
/// its project folder.
pub fn lane_key(project_path: &str, folder: Option<&str>) -> (k: String)
    ensures
        k@ == lane_key_of(
            project_path@,
            match folder {
                Some(f) => Some(f@),
                None => None,
            },
        ),
{
    let f = match folder {
        Some(f) => f,
        None => project_path,
    };
    if str_contains(project_path, "/Desktop/Work/") {
        f.to_owned()
    } else {
        concat("personal:", f)
    }
}

/// An event reduced to what ownership reads: its minute, its lane key and
/// whether the owner was acting.
#[derive(Debug, Clone)]
pub struct Keyed {
    pub minute: i64,
    pub key: String,
    pub human: bool,
}

pub type KeyedView = (int, Seq<char>, bool);

pub open spec fn kv(v: Seq<Keyed>) -> Seq<KeyedView> {
    v.map_values(|k: Keyed| (k.minute as int, k.key@, k.human))
}

pub open spec fn minute_ok(t: int) -> bool {
    -MINUTE_BOUND <= t <= MINUTE_BOUND
}

pub open spec fn minutes_ok(s: Seq<KeyedView>) -> bool {
    forall|i: int| 0 <= i < s.len() ==> minute_ok(#[trigger] s[i].0)
}

// ───────────────────────── focus ─────────────────────────

/// An entry the owner acted on at or before `m`, within the human window,
/// of the given kind.
pub open spec fn focus_candidate(e: KeyedView, m: int, work: bool) -> bool {
    e.2 && e.0 <= m && m - e.0 < HUMAN_WINDOW_MINUTES && work_key(e.1) == work
}

/// The latest such entry, the last one on ties, as (minute, key).
pub open spec fn latest(s: Seq<KeyedView>, m: int, work: bool) -> Option<(int, Seq<char>)>
    decreases s.len(),
{
    if s.len() == 0 {
        None
    } else {
        let r = latest(s.drop_last(), m, work);
        let e = s.last();
        if focus_candidate(e, m, work) && match r {
            None => true,
            Some(x) => e.0 >= x.0,
        } {
            Some((e.0, e.1))
        } else {
            r
        }
    }
}

/// The project of the owner's most recent action in `(m − 15, m]`: the
/// latest work action, else the latest personal one.
pub open spec fn focus(s: Seq<KeyedView>, m: int) -> Option<Seq<char>> {
    match latest(s, m, true) {
        Some(x) => Some(x.1),
        None => match latest(s, m, false) {
            Some(x) => Some(x.1),
            None => None,
        },
    }
}

pub open spec fn pick_of(s: Seq<KeyedView>, j: Option<usize>) -> Option<(int, Seq<char>)> {
    match j {
        Some(j) => Some((s[j as int].0, s[j as int].1)),
        None => None,
    }
}

/// The project of the owner's most recent action at minute `m`.
pub fn latest_human(keyed: &Vec<Keyed>, m: i64) -> (r: Option<String>)
    requires
        minutes_ok(kv(keyed@)),
        minute_ok(m as int),
    ensures
        match r {
            Some(k) => focus(kv(keyed@), m as int) == Some(k@),
            None => focus(kv(keyed@), m as int) is None,
        },
{
    let ghost s = kv(keyed@);
    let mut bw: Option<usize> = None;
    let mut bp: Option<usize> = None;
    let mut i: usize = 0;
    while i < keyed.len()
        invariant
            i <= keyed@.len(),
            s == kv(keyed@),
            minutes_ok(s),
            minute_ok(m as int),
            pick_of(s, bw) == latest(s.take(i as int), m as int, true),
            pick_of(s, bp) == latest(s.take(i as int), m as int, false),
            bw matches Some(j) ==> j < i,
            bp matches Some(j) ==> j < i,
        decreases keyed@.len() - i,
    {
        let e = &keyed[i];
        assert(s.take(i + 1).drop_last() =~= s.take(i as int));
        assert(s.take(i + 1).last() == s[i as int]);
        assert(minute_ok(s[i as int].0));
        if e.human && e.minute <= m && m - e.minute < HUMAN_WINDOW_MINUTES {
            let w = is_work(e.key.as_str());
            if w {
                let take = match bw {
                    None => true,
                    Some(j) => e.minute >= keyed[j].minute,
                };
                if take {
                    bw = Some(i);
                }
            } else {
                let take = match bp {
                    None => true,
                    Some(j) => e.minute >= keyed[j].minute,
                };
                if take {
                    bp = Some(i);
                }
            }
        }
        i = i + 1;
    }
    assert(s.take(keyed@.len() as int) =~= s);
    match bw {
        Some(j) => Some(keyed[j].key.clone()),
        None => match bp {
            Some(j) => Some(keyed[j].key.clone()),
            None => None,
        },
    }
}


// ───────────────────────── window counts ─────────────────────────

/// Whether minute `t` is within the activity window of minute `m`.
pub open spec fn near(t: int, m: int) -> bool {
    -WINDOW_MINUTES <= t - m <= WINDOW_MINUTES
}

/// How many entries of lane `k` fall within the window of minute `m`.
pub open spec fn count(s: Seq<KeyedView>, m: int, k: Seq<char>) -> nat
    decreases s.len(),
{
    if s.len() == 0 {
        0
    } else {
        count(s.drop_last(), m, k) + (if near(s.last().0, m) && s.last().1 == k {
            1nat
        } else {
            0nat
        })
    }
}

/// Some work lane is active within the window of minute `m`.
pub open spec fn work_near(s: Seq<KeyedView>, m: int) -> bool {
    exists|i: int| 0 <= i < s.len() && near(s[i].0, m) && work_key(#[trigger] s[i].1)
}

/// Lane `k` may own minute `m` by activity: it is active there, and it is
/// work or no work is active there.
pub open spec fn eligible(s: Seq<KeyedView>, m: int, k: Seq<char>) -> bool {
    count(s, m, k) > 0 && (work_key(k) || !work_near(s, m))
}

/// Lane `k` has the most activity at minute `m` among the eligible ones.
pub open spec fn top(s: Seq<KeyedView>, m: int, k: Seq<char>) -> bool {
    &&& eligible(s, m, k)
    &&& forall|i: int|
        0 <= i < s.len() && eligible(s, m, #[trigger] s[i].1) ==> count(s, m, s[i].1) <= count(
            s,
            m,
            k,
        )
}

/// Lane `k` is the smallest of the lanes with the most activity.
pub open spec fn first_top(s: Seq<KeyedView>, m: int, k: Seq<char>) -> bool {
    &&& top(s, m, k)
    &&& forall|i: int| 0 <= i < s.len() && top(s, m, #[trigger] s[i].1) ==> !lex_lt(s[i].1, k)
}

/// The owner of minute `m` by activity, given the current owner `prev`:
/// none when no lane is eligible; the current owner when it is among the
/// most active (a split never flickers); else the smallest most active
/// lane.
pub open spec fn window_owner(s: Seq<KeyedView>, m: int, prev: Option<Seq<char>>) -> Option<
    Seq<char>,
> {
    if !(exists|i: int| 0 <= i < s.len() && eligible(s, m, #[trigger] s[i].1)) {
        None
    } else {
        match prev {
            Some(p) if top(s, m, p) => Some(p),
            _ => Some(choose|k: Seq<char>| first_top(s, m, k)),
        }
    }
}

proof fn lemma_count_pos(s: Seq<KeyedView>, m: int, k: Seq<char>)
    requires
        count(s, m, k) > 0,
    ensures
        exists|i: int| 0 <= i < s.len() && near(s[i].0, m) && #[trigger] s[i].1 == k,
    decreases s.len(),
{
    if near(s.last().0, m) && s.last().1 == k {
        assert(s[s.len() - 1].1 == k);
    } else {
        lemma_count_pos(s.drop_last(), m, k);
        let i = choose|i: int| 0 <= i < s.drop_last().len() && near(s.drop_last()[i].0, m) && #[trigger] s.drop_last()[i].1 == k;
        assert(s[i] == s.drop_last()[i]);
    }
}

proof fn lemma_count_of_near(s: Seq<KeyedView>, m: int, i: int)
    requires
        0 <= i < s.len(),
        near(s[i].0, m),
    ensures
        count(s, m, s[i].1) > 0,
    decreases s.len(),
{
    if i < s.len() - 1 {
        lemma_count_of_near(s.drop_last(), m, i);
    }
}

proof fn lemma_count_prefix(s: Seq<KeyedView>, m: int, k: Seq<char>, j: int)
    requires
        0 <= j < s.len(),
    ensures
        count(s.take(j + 1), m, k) == count(s.take(j), m, k) + (if near(s[j].0, m) && s[j].1 == k {
            1nat
        } else {
            0nat
        }),
{
    assert(s.take(j + 1).drop_last() =~= s.take(j));
}

/// How many entries of lane `k` fall within the window of minute `m`.
fn count_near(keyed: &Vec<Keyed>, m: i64, k: &String) -> (c: usize)
    requires
        minutes_ok(kv(keyed@)),
        minute_ok(m as int),
    ensures
        c == count(kv(keyed@), m as int, k@),
{
    let ghost s = kv(keyed@);
    let mut c: usize = 0;
    let mut j: usize = 0;
    while j < keyed.len()
        invariant
            j <= keyed@.len(),
            s == kv(keyed@),
            minutes_ok(s),
            minute_ok(m as int),
            c == count(s.take(j as int), m as int, k@),
            c <= j,
        decreases keyed@.len() - j,
    {
        proof {
            lemma_count_prefix(s, m as int, k@, j as int);
        }
        assert(minute_ok(s[j as int].0));
        let d = keyed[j].minute - m;
        if -WINDOW_MINUTES <= d && d <= WINDOW_MINUTES && str_eq(keyed[j].key.as_str(), k.as_str()) {
            c = c + 1;
        }
        j = j + 1;
    }
    assert(s.take(keyed@.len() as int) =~= s);
    c
}

/// Whether some work lane is active within the window of minute `m`.
fn any_work_near(keyed: &Vec<Keyed>, m: i64) -> (b: bool)
    requires
        minutes_ok(kv(keyed@)),
        minute_ok(m as int),
    ensures
        b == work_near(kv(keyed@), m as int),
{
    let ghost s = kv(keyed@);
    let mut j: usize = 0;
    while j < keyed.len()
        invariant
            j <= keyed@.len(),
            s == kv(keyed@),
            minutes_ok(s),
            minute_ok(m as int),
            forall|i: int| 0 <= i < j ==> !(near(s[i].0, m as int) && work_key(#[trigger] s[i].1)),
        decreases keyed@.len() - j,
    {
        assert(minute_ok(s[j as int].0));
        let d = keyed[j].minute - m;
        if -WINDOW_MINUTES <= d && d <= WINDOW_MINUTES && is_work(keyed[j].key.as_str()) {
            assert(near(s[j as int].0, m as int) && work_key(s[j as int].1));
            return true;
        }
        j = j + 1;
    }
    false
}

/// The owner of minute `m` by activity, given the current owner.
#[verifier::rlimit(40)]
pub fn owner_by_activity(keyed: &Vec<Keyed>, m: i64, prev: &Option<String>) -> (r: Option<String>)
    requires
        minutes_ok(kv(keyed@)),
        minute_ok(m as int),
    ensures
        match r {
            Some(k) => window_owner(
                kv(keyed@),
                m as int,
                match prev {
                    Some(p) => Some(p@),
                    None => None,
                },
            ) == Some(k@),
            None => window_owner(
                kv(keyed@),
                m as int,
                match prev {
                    Some(p) => Some(p@),
                    None => None,
                },
            ) is None,
        },
{
    let ghost s = kv(keyed@);
    let any_work = any_work_near(keyed, m);
    // The best lane so far: (an entry of it, its count).
    let mut best: Option<(usize, usize)> = None;
    let mut i: usize = 0;
    while i < keyed.len()
        invariant
            i <= keyed@.len(),
            s == kv(keyed@),
            minutes_ok(s),
            minute_ok(m as int),
            any_work == work_near(s, m as int),
            best is None ==> forall|j: int|
                0 <= j < i ==> !(near(s[j].0, m as int) && eligible(s, m as int, #[trigger] s[j].1)),
            best matches Some(b) ==> {
                &&& b.0 < i
                &&& near(s[b.0 as int].0, m as int)
                &&& eligible(s, m as int, s[b.0 as int].1)
                &&& b.1 == count(s, m as int, s[b.0 as int].1)
                &&& forall|j: int|
                    0 <= j < i && near(s[j].0, m as int) && eligible(s, m as int, #[trigger] s[j].1)
                        ==> count(s, m as int, s[j].1) <= b.1
                &&& forall|j: int|
                    0 <= j < i && near(s[j].0, m as int) && eligible(s, m as int, #[trigger] s[j].1)
                        && count(s, m as int, s[j].1) == b.1 ==> !lex_lt(s[j].1, s[b.0 as int].1)
            },
        decreases keyed@.len() - i,
    {
        assert(minute_ok(s[i as int].0));
        let d = keyed[i].minute - m;
        let is_near = -WINDOW_MINUTES <= d && d <= WINDOW_MINUTES;
        if is_near && (is_work(keyed[i].key.as_str()) || !any_work) {
            proof {
                lemma_count_of_near(s, m as int, i as int);
            }
            let c = count_near(keyed, m, &keyed[i].key);
            assert(eligible(s, m as int, s[i as int].1));
            match best {
                None => {
                    best = Some((i, c));
                    proof {
                        lemma_lex_irreflexive(s[i as int].1);
                    }
                },
                Some((bi, bc)) => {
                    let ki = chars_of(keyed[i].key.as_str());
                    let kb = chars_of(keyed[bi].key.as_str());
                    let smaller = str_lt(&ki, &kb);
                    if c > bc || (c == bc && smaller) {
                        best = Some((i, c));
                        proof {
                            lemma_lex_irreflexive(s[i as int].1);
                            assert forall|j: int|
                                0 <= j < i + 1 && near(s[j].0, m as int) && eligible(
                                    s,
                                    m as int,
                                    #[trigger] s[j].1,
                                ) && count(s, m as int, s[j].1) == c implies !lex_lt(
                                s[j].1,
                                s[i as int].1,
                            ) by {
                                if j < i && c == bc && lex_lt(s[j].1, s[i as int].1) {
                                    lemma_lex_transitive(s[j].1, s[i as int].1, s[bi as int].1);
                                }
                            }
                        }
                    } else {
                        proof {
                            if c == bc {
                                assert(!lex_lt(s[i as int].1, s[bi as int].1));
                            }
                        }
                    }
                },
            }
        } else {
            proof {
                if is_near {
                    assert(!work_key(s[i as int].1) && work_near(s, m as int));
                }
            }
        }
        i = i + 1;
    }
    let (bi, bc) = match best {
        None => {
            proof {
                assert forall|j: int| 0 <= j < s.len() implies !eligible(s, m as int, #[trigger] s[j].1) by {
                    if eligible(s, m as int, s[j].1) {
                        lemma_count_pos(s, m as int, s[j].1);
                        let x = choose|x: int| 0 <= x < s.len() && near(s[x].0, m as int) && #[trigger] s[x].1 == s[j].1;
                        assert(!(near(s[x].0, m as int) && eligible(s, m as int, s[x].1)));
                    }
                }
            }
            return None;
        },
        Some(b) => b,
    };
    let ghost kb = s[bi as int].1;
    proof {
        assert forall|j: int| 0 <= j < s.len() && eligible(s, m as int, #[trigger] s[j].1)
            implies count(s, m as int, s[j].1) <= bc && (count(s, m as int, s[j].1) == bc ==> !lex_lt(s[j].1, kb)) by {
            lemma_count_pos(s, m as int, s[j].1);
            let x = choose|x: int| 0 <= x < s.len() && near(s[x].0, m as int) && #[trigger] s[x].1 == s[j].1;
            assert(near(s[x].0, m as int) && eligible(s, m as int, s[x].1));
        }
        assert(top(s, m as int, kb));
        assert forall|j: int| 0 <= j < s.len() && top(s, m as int, #[trigger] s[j].1)
            implies !lex_lt(s[j].1, kb) by {
            assert(eligible(s, m as int, s[j].1));
            assert(count(s, m as int, s[j].1) >= count(s, m as int, s[bi as int].1));
        }
        assert(first_top(s, m as int, kb));
        let k2 = choose|k: Seq<char>| first_top(s, m as int, k);
        assert(first_top(s, m as int, k2));
        lemma_count_pos(s, m as int, k2);
        let x = choose|x: int| 0 <= x < s.len() && near(s[x].0, m as int) && #[trigger] s[x].1 == k2;
        assert(top(s, m as int, s[x].1));
        assert(!lex_lt(k2, kb));
        assert(top(s, m as int, s[bi as int].1));
        assert(!lex_lt(kb, k2));
        if k2 != kb {
            lemma_lex_total(k2, kb);
        }
        assert(k2 == kb);
    }
    match prev {
        Some(p) => {
            let pc = count_near(keyed, m, p);
            let p_ok = pc > 0 && (is_work(p.as_str()) || !any_work) && pc == bc;
            proof {
                if top(s, m as int, p@) {
                    assert(count(s, m as int, p@) <= bc) by {
                        lemma_count_pos(s, m as int, p@);
                        let x = choose|x: int| 0 <= x < s.len() && near(s[x].0, m as int) && #[trigger] s[x].1 == p@;
                        assert(eligible(s, m as int, s[x].1));
                    }
                    assert(count(s, m as int, p@) >= count(s, m as int, s[bi as int].1));
                }
                if p_ok {
                    assert(eligible(s, m as int, p@));
                    assert forall|j: int| 0 <= j < s.len() && eligible(s, m as int, #[trigger] s[j].1)
                        implies count(s, m as int, s[j].1) <= count(s, m as int, p@) by {}
                }
            }
            if p_ok {
                return Some(p.clone());
            }
        },
        None => {},
    }
    Some(keyed[bi].key.clone())
}


// ───────────────────────── minute owners ─────────────────────────

/// The owner of minute `m` given the current owner: focus decides
/// outright, else activity.
pub open spec fn owner_at(s: Seq<KeyedView>, m: int, prev: Option<Seq<char>>) -> Option<Seq<char>> {
    match focus(s, m) {
        Some(f) => Some(f),
        None => window_owner(s, m, prev),
    }
}

/// The owners of the `n` minutes from `first`, and the owner current
/// after them.
pub open spec fn scan(s: Seq<KeyedView>, first: int, n: nat) -> (
    Seq<Option<Seq<char>>>,
    Option<Seq<char>>,
)
    decreases n,
{
    if n == 0 {
        (Seq::empty(), None)
    } else {
        let (os, prev) = scan(s, first, (n - 1) as nat);
        let o = owner_at(s, first + n - 1, prev);
        (
            os.push(o),
            match o {
                Some(_) => o,
                None => prev,
            },
        )
    }
}

/// The earliest minute of `s` (0 when empty).
pub open spec fn first_minute(s: Seq<KeyedView>) -> int
    decreases s.len(),
{
    if s.len() == 0 {
        0
    } else if s.len() == 1 {
        s[0].0
    } else {
        let r = first_minute(s.drop_last());
        if s.last().0 < r {
            s.last().0
        } else {
            r
        }
    }
}

/// The latest minute of `s` (0 when empty).
pub open spec fn last_minute(s: Seq<KeyedView>) -> int
    decreases s.len(),
{
    if s.len() == 0 {
        0
    } else if s.len() == 1 {
        s[0].0
    } else {
        let r = last_minute(s.drop_last());
        if s.last().0 > r {
            s.last().0
        } else {
            r
        }
    }
}

/// Where the silent stretch holding minute index `j` starts.
pub open spec fn gap_start(o: Seq<Option<Seq<char>>>, j: int) -> int
    decreases j,
{
    if j <= 0 || o[j - 1] is Some {
        j
    } else {
        gap_start(o, j - 1)
    }
}

/// Where the silent stretch holding minute index `j` ends (exclusive).
pub open spec fn gap_end(o: Seq<Option<Seq<char>>>, j: int) -> int
    decreases o.len() - j,
{
    if j >= o.len() || o[j] is Some {
        j
    } else {
        gap_end(o, j + 1)
    }
}

/// The owner of minute index `j` once silent stretches shorter than
/// `BRIDGE_MINUTES` between the same owner are filled with that owner.
pub open spec fn bridged_at(o: Seq<Option<Seq<char>>>, j: int) -> Option<Seq<char>> {
    if o[j] is None {
        let a = gap_start(o, j);
        let b = gap_end(o, j);
        if a > 0 && b < o.len() && b - a < BRIDGE_MINUTES && o[a - 1] == o[b] {
            o[b]
        } else {
            None
        }
    } else {
        o[j]
    }
}

pub open spec fn bridged(o: Seq<Option<Seq<char>>>) -> Seq<Option<Seq<char>>> {
    Seq::new(o.len(), |j: int| bridged_at(o, j))
}

proof fn lemma_gap_start_le(o: Seq<Option<Seq<char>>>, j: int)
    ensures
        gap_start(o, j) <= j,
    decreases j,
{
    if j > 0 && o[j - 1] is None {
        lemma_gap_start_le(o, j - 1);
    }
}

proof fn lemma_gap_end_ge(o: Seq<Option<Seq<char>>>, j: int)
    ensures
        gap_end(o, j) >= j,
    decreases o.len() - j,
{
    if j < o.len() && o[j] is None {
        lemma_gap_end_ge(o, j + 1);
    }
}

proof fn lemma_gap_start_before(o: Seq<Option<Seq<char>>>, a: int, j: int)
    requires
        0 <= a <= j < o.len(),
        forall|x: int| a <= x <= j ==> (#[trigger] o[x]) is None,
    ensures
        gap_start(o, j) <= a,
    decreases j,
{
    if j > a {
        assert(o[j - 1] is None);
        lemma_gap_start_before(o, a, j - 1);
    } else {
        lemma_gap_start_le(o, j);
    }
}

proof fn lemma_gap_end_after(o: Seq<Option<Seq<char>>>, b: int, j: int)
    requires
        0 <= j < b <= o.len(),
        forall|x: int| j <= x < b ==> (#[trigger] o[x]) is None,
    ensures
        gap_end(o, j) >= b,
    decreases o.len() - j,
{
    assert(o[j] is None);
    if j + 1 < b {
        lemma_gap_end_after(o, b, j + 1);
    } else {
        lemma_gap_end_ge(o, j + 1);
    }
}

/// Nobody owns any minute index in `[a, b)`.
pub open spec fn silent(o: Seq<Option<Seq<char>>>, a: int, b: int) -> bool {
    forall|x: int| a <= x < b ==> (#[trigger] o[x]) is None
}

/// Bridging keeps every owned minute's owner, and never fills a long
/// silence: a minute inside a stretch of at least `BRIDGE_MINUTES` minutes
/// that nobody owns stays unowned.
pub proof fn law_bridging_fills_only_short_gaps(o: Seq<Option<Seq<char>>>)
    ensures
        bridged(o).len() == o.len(),
        forall|j: int| 0 <= j < o.len() && (#[trigger] o[j]) is Some ==> bridged(o)[j] == o[j],
        forall|a: int, b: int, j: int|
            #![trigger silent(o, a, b), bridged(o)[j]]
            0 <= a <= j < b <= o.len() && b - a >= BRIDGE_MINUTES && silent(o, a, b) ==> bridged(o)[j] is None,
{
    assert forall|a: int, b: int, j: int|
        #![trigger silent(o, a, b), bridged(o)[j]]
        0 <= a <= j < b <= o.len() && b - a >= BRIDGE_MINUTES && silent(o, a, b) implies bridged(o)[j] is None by {
        lemma_gap_start_before(o, a, j);
        lemma_gap_end_after(o, b, j);
        assert(o[j] is None);
    }
}

pub type Run = (Seq<char>, int, int);

/// The maximal runs `(owner, first minute, last minute)` of equal owners,
/// the minute at index `j` being `first + j`.
pub open spec fn runs_of(o: Seq<Option<Seq<char>>>, first: int) -> Seq<Run>
    decreases o.len(),
{
    if o.len() == 0 {
        Seq::empty()
    } else {
        let r = runs_of(o.drop_last(), first);
        let m = first + o.len() - 1;
        match o.last() {
            None => r,
            Some(k) => if r.len() > 0 && r.last().0 == k && r.last().2 == m - 1 {
                r.update(r.len() - 1, (k, r.last().1, m))
            } else {
                r.push((k, m, m))
            },
        }
    }
}

/// Contiguous `(owner, first minute, last minute)` runs over the day.
pub open spec fn owner_runs_spec(s: Seq<KeyedView>) -> Seq<Run> {
    let first = first_minute(s);
    let n = (last_minute(s) - first + 1) as nat;
    runs_of(bridged(scan(s, first, n).0), first)
}

pub open spec fn optv(o: Option<String>) -> Option<Seq<char>> {
    match o {
        Some(k) => Some(k@),
        None => None,
    }
}

pub open spec fn ov(v: Seq<Option<String>>) -> Seq<Option<Seq<char>>> {
    v.map_values(|o: Option<String>| optv(o))
}

pub open spec fn rv(v: Seq<(String, i64, i64)>) -> Seq<Run> {
    v.map_values(|r: (String, i64, i64)| (r.0@, r.1 as int, r.2 as int))
}

proof fn lemma_first_last(s: Seq<KeyedView>)
    requires
        minutes_ok(s),
    ensures
        first_minute(s) <= last_minute(s),
        minute_ok(first_minute(s)),
        minute_ok(last_minute(s)),
        forall|i: int| 0 <= i < s.len() ==> first_minute(s) <= #[trigger] s[i].0 <= last_minute(s),
    decreases s.len(),
{
    if s.len() > 1 {
        lemma_first_last(s.drop_last());
        assert forall|i: int| 0 <= i < s.len() implies first_minute(s) <= #[trigger] s[i].0
            <= last_minute(s) by {
            if i < s.len() - 1 {
                assert(s[i] == s.drop_last()[i]);
            }
        }
    } else if s.len() == 1 {
        assert(minute_ok(s[0].0));
    }
}

/// The earliest and latest minute of `keyed` (0 and 0 when empty).
pub(crate) fn minute_span(keyed: &Vec<Keyed>) -> (r: (i64, i64))
    requires
        minutes_ok(kv(keyed@)),
    ensures
        r.0 == first_minute(kv(keyed@)),
        r.1 == last_minute(kv(keyed@)),
{
    let ghost s = kv(keyed@);
    if keyed.len() == 0 {
        return (0, 0);
    }
    let mut lo = keyed[0].minute;
    let mut hi = keyed[0].minute;
    let mut i: usize = 1;
    assert(s.take(1) =~= seq![s[0]]);
    while i < keyed.len()
        invariant
            1 <= i <= keyed@.len(),
            s == kv(keyed@),
            lo == first_minute(s.take(i as int)),
            hi == last_minute(s.take(i as int)),
        decreases keyed@.len() - i,
    {
        assert(s.take(i + 1).drop_last() =~= s.take(i as int));
        let t = keyed[i].minute;
        if t < lo {
            lo = t;
        }
        if t > hi {
            hi = t;
        }
        i = i + 1;
    }
    assert(s.take(keyed@.len() as int) =~= s);
    (lo, hi)
}

fn opt_clone(o: &Option<String>) -> (r: Option<String>)
    ensures
        r == *o,
{
    match o {
        Some(k) => Some(k.clone()),
        None => None,
    }
}

/// The owners of the minutes `first..first+n`.
fn owners_over(keyed: &Vec<Keyed>, first: i64, n: usize) -> (r: Vec<Option<String>>)
    requires
        minutes_ok(kv(keyed@)),
        minute_ok(first as int),
        minute_ok(first + n - 1),
        n >= 1,
    ensures
        ov(r@) == scan(kv(keyed@), first as int, n as nat).0,
{
    let ghost s = kv(keyed@);
    let mut owners: Vec<Option<String>> = Vec::new();
    let mut prev: Option<String> = None;
    let mut i: usize = 0;
    assert(ov(owners@) =~= Seq::<Option<Seq<char>>>::empty());
    while i < n
        invariant
            i <= n,
            s == kv(keyed@),
            minutes_ok(s),
            minute_ok(first as int),
            minute_ok(first + n - 1),
            ov(owners@) == scan(s, first as int, i as nat).0,
            match prev {
                Some(p) => scan(s, first as int, i as nat).1 == Some(p@),
                None => scan(s, first as int, i as nat).1 is None,
            },
        decreases n - i,
    {
        let m = first + i as i64;
        let ghost pv: Option<Seq<char>> = match &prev {
            Some(p) => Some(p@),
            None => None,
        };
        let o = match latest_human(keyed, m) {
            Some(f) => Some(f),
            None => owner_by_activity(keyed, m, &prev),
        };
        let ghost before = owners@;
        assert(o matches Some(k) ==> owner_at(s, m as int, pv) == Some(k@));
        assert(o is None ==> owner_at(s, m as int, pv) is None);
        if o.is_some() {
            prev = opt_clone(&o);
        }
        owners.push(o);
        assert(ov(owners@) =~= ov(before).push(owner_at(s, m as int, pv)));
        i = i + 1;
    }
    owners
}

proof fn lemma_gap_start_const(o: Seq<Option<Seq<char>>>, start: int, j: int)
    requires
        0 <= start <= j < o.len(),
        start == 0 || o[start - 1] is Some,
        forall|x: int| start <= x <= j ==> o[x] is None,
    ensures
        gap_start(o, j) == start,
    decreases j - start,
{
    if j > start {
        lemma_gap_start_const(o, start, j - 1);
    }
}

proof fn lemma_gap_end_const(o: Seq<Option<Seq<char>>>, j: int, end: int)
    requires
        0 <= j <= end <= o.len(),
        end == o.len() || o[end] is Some,
        forall|x: int| j <= x < end ==> o[x] is None,
    ensures
        gap_end(o, j) == end,
    decreases end - j,
{
    if j < end {
        lemma_gap_end_const(o, j + 1, end);
    }
}

/// Fill silent stretches shorter than `BRIDGE_MINUTES` between the same
/// owner with that owner.
#[verifier::loop_isolation(false)]
pub fn bridge(owners: &mut Vec<Option<String>>)
    ensures
        ov(final(owners)@) == bridged(ov(old(owners)@)),
{
    let ghost o = ov(owners@);
    let n = owners.len();
    let mut i: usize = 0;
    while i < n
        invariant
            i <= n,
            n == owners@.len(),
            o.len() == n,
            i < n ==> (i == 0 || o[i - 1] is Some || o[i as int] is Some),
            forall|j: int| 0 <= j < i ==> ov(owners@)[j] == bridged_at(o, j),
            forall|j: int| i <= j < n ==> ov(owners@)[j] == o[j],
        decreases n - i,
    {
        if owners[i].is_some() {
            assert(ov(owners@)[i as int] == o[i as int]);
            i = i + 1;
            continue;
        }
        assert(o[i as int] is None);
        let start = i;
        while i < n && owners[i].is_none()
            invariant
                start <= i <= n,
                n == owners@.len(),
                forall|x: int| start <= x < i ==> o[x] is None,
                forall|j: int| start <= j < n ==> ov(owners@)[j] == o[j],
                forall|j: int| 0 <= j < start ==> ov(owners@)[j] == bridged_at(o, j),
            decreases n - i,
        {
            assert(ov(owners@)[i as int] == o[i as int]);
            i = i + 1;
        }
        assert(i == n || o[i as int] is Some) by {
            if i < n {
                assert(ov(owners@)[i as int] == o[i as int]);
            }
        }
        proof {
            assert forall|j: int| start <= j < i implies gap_start(o, j) == start && gap_end(o, j)
                == i by {
                lemma_gap_start_const(o, start as int, j);
                lemma_gap_end_const(o, j, i as int);
            }
        }
        let fill_ok = start > 0 && i < n && i - start < BRIDGE_MINUTES && {
            let a = &owners[start - 1];
            let b = &owners[i];
            match (a, b) {
                (Some(x), Some(y)) => str_eq(x.as_str(), y.as_str()),
                _ => false,
            }
        };
        proof {
            if start > 0 && i < n {
                assert(ov(owners@)[start - 1] == bridged_at(o, start - 1));
                assert(o[start - 1] is Some);
                assert(bridged_at(o, start - 1) == o[start - 1]);
                assert(ov(owners@)[i as int] == o[i as int]);
            }
        }
        if fill_ok {
            let fill = opt_clone(&owners[i]);
            assert(optv(fill) == ov(owners@)[i as int]);
            let mut k = start;
            while k < i
                invariant
                    start <= k <= i < n,
                    n == owners@.len(),
                    optv(fill) == o[i as int],
                    forall|j: int| 0 <= j < start ==> ov(owners@)[j] == bridged_at(o, j),
                    forall|j: int| start <= j < k ==> ov(owners@)[j] == o[i as int],
                    forall|j: int| k <= j < n ==> ov(owners@)[j] == o[j],
                decreases i - k,
            {
                let f = opt_clone(&fill);
                let ghost old_o = owners@;
                owners.set(k, f);
                proof {
                    assert forall|j: int| 0 <= j < n && j != k implies ov(owners@)[j] == ov(old_o)[j] by {
                        assert(owners@[j] == old_o[j]);
                    }
                    assert(ov(owners@)[k as int] == optv(f));
                    assert(optv(f) == optv(fill));
                    assert(ov(owners@)[k as int] == o[i as int]);
                    assert forall|j: int| start <= j < k + 1 implies ov(owners@)[j] == o[i as int] by {
                        if j < k {
                            assert(ov(old_o)[j] == o[i as int]);
                        }
                    }
                }
                k = k + 1;
            }
            proof {
                assert forall|j: int| start <= j < i implies ov(owners@)[j] == bridged_at(o, j) by {}
            }
        } else {
            proof {
                assert forall|j: int| start <= j < i implies ov(owners@)[j] == bridged_at(o, j) by {
                    assert(o[j] is None);
                    if start > 0 && i < n && i - start < BRIDGE_MINUTES {
                        assert(o[start - 1] != o[i as int]);
                    }
                }
            }
        }
    }
    assert(ov(owners@) =~= bridged(o));
}


// ───────────────────────── runs ─────────────────────────

/// Each run starts no later than it ends, and each ends before the next
/// starts: no minute lies in two runs.
pub open spec fn sorted_disjoint(rs: Seq<Run>) -> bool {
    &&& forall|i: int| 0 <= i < rs.len() ==> (#[trigger] rs[i]).1 <= rs[i].2
    &&& forall|i: int, j: int| 0 <= i < j < rs.len() ==> (#[trigger] rs[i]).2 < (#[trigger] rs[j]).1
}

/// Two runs that one run would hold: the same owner, the second
/// starting the minute after the first ends.
pub open spec fn continues(a: Run, b: Run) -> bool {
    a.0 == b.0 && a.2 + 1 == b.1
}

/// No two neighbouring runs could be one: each run is as long as its
/// owner's unbroken stretch.
pub open spec fn maximal_runs(rs: Seq<Run>) -> bool {
    forall|i: int, j: int| 0 <= i && j == i + 1 && j < rs.len() ==> !continues(#[trigger] rs[i], #[trigger] rs[j])
}

/// Minute `m` lies in a run of owner `k`.
pub open spec fn owned_by(rs: Seq<Run>, m: int, k: Seq<char>) -> bool {
    exists|i: int| 0 <= i < rs.len() && (#[trigger] rs[i]).1 <= m <= rs[i].2 && rs[i].0 == k
}

/// Minute `m` lies in some run.
pub open spec fn covered(rs: Seq<Run>, m: int) -> bool {
    exists|i: int| 0 <= i < rs.len() && (#[trigger] rs[i]).1 <= m <= rs[i].2
}

proof fn lemma_runs_of(o: Seq<Option<Seq<char>>>, first: int)
    ensures
        sorted_disjoint(runs_of(o, first)),
        forall|i: int|
            0 <= i < runs_of(o, first).len() ==> first <= (#[trigger] runs_of(o, first)[i]).1
                && runs_of(o, first)[i].2 <= first + o.len() - 1,
        o.len() > 0 && o.last() is Some ==> runs_of(o, first).len() > 0 && runs_of(o, first).last()
            == (o.last()->0, runs_of(o, first).last().1, first + o.len() - 1),
        forall|j: int, k: Seq<char>|
            0 <= j < o.len() ==> (o[j] == Some(k) <==> #[trigger] owned_by(
                runs_of(o, first),
                first + j,
                k,
            )),
    decreases o.len(),
{
    if o.len() > 0 {
        let p = o.drop_last();
        lemma_runs_of(p, first);
        let r = runs_of(p, first);
        let m = first + o.len() - 1;
        let rs = runs_of(o, first);
        match o.last() {
            None => {
                assert forall|j: int, k: Seq<char>| 0 <= j < o.len() implies (o[j] == Some(k)
                    <==> #[trigger] owned_by(rs, first + j, k)) by {
                    if j < o.len() - 1 {
                        assert(o[j] == p[j]);
                    } else {
                        if owned_by(rs, first + j, k) {
                            let i = choose|i: int| 0 <= i < rs.len() && (#[trigger] rs[i]).1 <= first + j <= rs[i].2 && rs[i].0 == k;
                        }
                    }
                }
            },
            Some(k0) => {
                if r.len() > 0 && r.last().0 == k0 && r.last().2 == m - 1 {
                    let last = r.len() - 1;
                    assert forall|i: int, j: int| 0 <= i < j < rs.len() implies (#[trigger] rs[i]).2
                        < (#[trigger] rs[j]).1 by {
                        if j == last {
                            assert(r[i].2 < r[j].1);
                        }
                    }
                    assert forall|j: int, k: Seq<char>| 0 <= j < o.len() implies (o[j] == Some(k)
                        <==> #[trigger] owned_by(rs, first + j, k)) by {
                        if j < o.len() - 1 {
                            assert(o[j] == p[j]);
                            if owned_by(r, first + j, k) {
                                let i = choose|i: int| 0 <= i < r.len() && (#[trigger] r[i]).1 <= first + j <= r[i].2 && r[i].0 == k;
                                assert(rs[i].1 <= first + j <= rs[i].2 && rs[i].0 == k);
                            }
                            if owned_by(rs, first + j, k) {
                                let i = choose|i: int| 0 <= i < rs.len() && (#[trigger] rs[i]).1 <= first + j <= rs[i].2 && rs[i].0 == k;
                                if i == last && first + j == m {
                                } else {
                                    assert(r[i].1 <= first + j <= r[i].2 && r[i].0 == k);
                                }
                            }
                        } else {
                            assert(rs[last].1 <= first + j <= rs[last].2);
                            if owned_by(rs, first + j, k) {
                                let i = choose|i: int| 0 <= i < rs.len() && (#[trigger] rs[i]).1 <= first + j <= rs[i].2 && rs[i].0 == k;
                                if i != last {
                                    assert(rs[i].2 < rs[last].1);
                                }
                            }
                        }
                    }
                } else {
                    let last = r.len() as int;
                    assert(rs == r.push((k0, m, m)));
                    assert forall|i: int, j: int| 0 <= i < j < rs.len() implies (#[trigger] rs[i]).2
                        < (#[trigger] rs[j]).1 by {
                        if j == last {
                            assert(r[i].2 <= m - 1);
                        }
                    }
                    assert forall|j: int, k: Seq<char>| 0 <= j < o.len() implies (o[j] == Some(k)
                        <==> #[trigger] owned_by(rs, first + j, k)) by {
                        if j < o.len() - 1 {
                            assert(o[j] == p[j]);
                            if owned_by(r, first + j, k) {
                                let i = choose|i: int| 0 <= i < r.len() && (#[trigger] r[i]).1 <= first + j <= r[i].2 && r[i].0 == k;
                                assert(rs[i] == r[i]);
                            }
                            if owned_by(rs, first + j, k) {
                                let i = choose|i: int| 0 <= i < rs.len() && (#[trigger] rs[i]).1 <= first + j <= rs[i].2 && rs[i].0 == k;
                                if i < last {
                                    assert(r[i] == rs[i]);
                                }
                            }
                        } else {
                            assert(rs[last].1 <= first + j <= rs[last].2);
                            if owned_by(rs, first + j, k) {
                                let i = choose|i: int| 0 <= i < rs.len() && (#[trigger] rs[i]).1 <= first + j <= rs[i].2 && rs[i].0 == k;
                                if i != last {
                                    assert(r[i].2 <= m - 1);
                                }
                            }
                        }
                    }
                }
            },
        }
    }
}

proof fn lemma_runs_maximal(o: Seq<Option<Seq<char>>>, first: int)
    ensures
        maximal_runs(runs_of(o, first)),
    decreases o.len(),
{
    if o.len() > 0 {
        let p = o.drop_last();
        lemma_runs_maximal(p, first);
        lemma_runs_of(p, first);
        let r = runs_of(p, first);
        let rs = runs_of(o, first);
        let m = first + o.len() - 1;
        match o.last() {
            None => {},
            Some(k0) => {
                if r.len() > 0 && r.last().0 == k0 && r.last().2 == m - 1 {
                    let last = r.len() - 1;
                    assert forall|i: int, j: int| 0 <= i && j == i + 1 && j < rs.len() implies !continues(
                        #[trigger] rs[i],
                        #[trigger] rs[j],
                    ) by {
                        assert(rs[i] == r[i]);
                        if j < last {
                            assert(rs[j] == r[j]);
                        } else {
                            assert(!continues(r[i], r[j]));
                        }
                    }
                } else {
                    let last = r.len() as int;
                    assert(rs == r.push((k0, m, m)));
                    assert forall|i: int, j: int| 0 <= i && j == i + 1 && j < rs.len() implies !continues(
                        #[trigger] rs[i],
                        #[trigger] rs[j],
                    ) by {
                        assert(rs[i] == r[i]);
                        if j < last {
                            assert(rs[j] == r[j]);
                            assert(!continues(r[i], r[j]));
                        }
                    }
                }
            },
        }
    }
}

proof fn lemma_scan_len(s: Seq<KeyedView>, first: int, n: nat)
    ensures
        scan(s, first, n).0.len() == n,
    decreases n,
{
    if n > 0 {
        lemma_scan_len(s, first, (n - 1) as nat);
    }
}

/// The runs of a minute-owner sequence: ordered and disjoint, no two
/// neighbours could be one, and a minute lies in a run of owner `k`
/// exactly when `k` owns it. So every owned minute is counted once, for
/// its owner.
pub proof fn law_runs_partition_owned_minutes(o: Seq<Option<Seq<char>>>, first: int)
    ensures
        sorted_disjoint(runs_of(o, first)),
        maximal_runs(runs_of(o, first)),
        forall|j: int, k: Seq<char>|
            0 <= j < o.len() ==> (o[j] == Some(k) <==> #[trigger] owned_by(
                runs_of(o, first),
                first + j,
                k,
            )),
{
    lemma_runs_of(o, first);
    lemma_runs_maximal(o, first);
}

/// The runs of the owners in `owners`, the minute at index `j` being
/// `first + j`.
#[verifier::loop_isolation(false)]
fn runs_from(owners: &Vec<Option<String>>, first: i64) -> (r: Vec<(String, i64, i64)>)
    requires
        minute_ok(first as int),
        minute_ok(first + owners@.len() - 1),
    ensures
        rv(r@) == runs_of(ov(owners@), first as int),
        forall|i: int| 0 <= i < r@.len() ==> minute_ok((#[trigger] r@[i]).1 as int) && minute_ok(r@[i].2 as int),
{
    let ghost o = ov(owners@);
    let mut runs: Vec<(String, i64, i64)> = Vec::new();
    let mut i: usize = 0;
    assert(o.take(0) =~= Seq::<Option<Seq<char>>>::empty());
    assert(rv(runs@) =~= Seq::<Run>::empty());
    while i < owners.len()
        invariant
            i <= owners@.len(),
            rv(runs@) == runs_of(o.take(i as int), first as int),
            forall|x: int| 0 <= x < runs@.len() ==> first <= (#[trigger] runs@[x]).1 <= runs@[x].2 && runs@[x].2 <= first + i - 1,
        decreases owners@.len() - i,
    {
        let m = first + i as i64;
        assert(o.take(i + 1).drop_last() =~= o.take(i as int));
        assert(o.take(i + 1).last() == o[i as int]);
        proof {
            lemma_runs_of(o.take(i as int), first as int);
        }
        match &owners[i] {
            None => {},
            Some(k) => {
                let n = runs.len();
                let extend = n > 0 && str_eq(runs[n - 1].0.as_str(), k.as_str()) && runs[n - 1].2 == m - 1;
                let ghost before = runs@;
                if extend {
                    let s0 = runs[n - 1].1;
                    runs.set(n - 1, (k.clone(), s0, m));
                    assert(rv(runs@) =~= rv(before).update(n - 1, (k@, s0 as int, m as int)));
                } else {
                    runs.push((k.clone(), m, m));
                    assert(rv(runs@) =~= rv(before).push((k@, m as int, m as int)));
                }
            },
        }
        i = i + 1;
    }
    assert(o.take(owners@.len() as int) =~= o);
    runs
}

/// Who owns each minute of the day before any gap is bridged, the minute
/// at index `j` being `first_minute(s) + j`.
pub open spec fn raw_owners(s: Seq<KeyedView>) -> Seq<Option<Seq<char>>> {
    scan(s, first_minute(s), (last_minute(s) - first_minute(s) + 1) as nat).0
}

/// No run invents time across a long silence: a minute inside a stretch
/// of at least `BRIDGE_MINUTES` minutes in which nobody acted lies in no
/// run of the day.
pub proof fn law_long_silences_stay_unowned(s: Seq<KeyedView>)
    ensures
        forall|a: int, b: int, m: int|
            #![trigger silent(raw_owners(s), a, b), covered(owner_runs_spec(s), m)]
            0 <= a <= m - first_minute(s) < b <= raw_owners(s).len() && b - a >= BRIDGE_MINUTES
                && silent(raw_owners(s), a, b) ==> !covered(owner_runs_spec(s), m),
{
    let first = first_minute(s);
    let o = raw_owners(s);
    let rs = owner_runs_spec(s);
    law_bridging_fills_only_short_gaps(o);
    lemma_runs_of(bridged(o), first);
    assert forall|a: int, b: int, m: int|
        #![trigger silent(raw_owners(s), a, b), covered(owner_runs_spec(s), m)]
        0 <= a <= m - first_minute(s) < b <= raw_owners(s).len() && b - a >= BRIDGE_MINUTES
            && silent(raw_owners(s), a, b) implies !covered(owner_runs_spec(s), m) by {
        let j = m - first;
        assert(bridged(o)[j] is None);
        if covered(rs, m) {
            let i = choose|i: int| 0 <= i < rs.len() && (#[trigger] rs[i]).1 <= m <= rs[i].2;
            assert(owned_by(rs, first + j, rs[i].0));
        }
    }
}

/// Contiguous `(owner, first minute, last minute)` runs over the span of
/// `keyed`'s minutes.
pub fn owner_runs(keyed: &Vec<Keyed>) -> (r: Vec<(String, i64, i64)>)
    requires
        minutes_ok(kv(keyed@)),
        last_minute(kv(keyed@)) - first_minute(kv(keyed@)) < usize::MAX,
    ensures
        rv(r@) == owner_runs_spec(kv(keyed@)),
        sorted_disjoint(rv(r@)),
        maximal_runs(rv(r@)),
        forall|i: int| 0 <= i < r@.len() ==> minute_ok((#[trigger] r@[i]).1 as int) && minute_ok(r@[i].2 as int),
{
    proof {
        lemma_first_last(kv(keyed@));
        let s = kv(keyed@);
        let first = first_minute(s);
        let n = (last_minute(s) - first + 1) as nat;
        lemma_runs_of(bridged(scan(s, first, n).0), first);
        lemma_runs_maximal(bridged(scan(s, first, n).0), first);
    }
    let (first, last) = minute_span(keyed);
    let n = (last - first) as usize + 1;
    let mut owners = owners_over(keyed, first, n);
    proof {
        lemma_scan_len(kv(keyed@), first as int, n as nat);
    }
    bridge(&mut owners);
    assert(ov(owners@).len() == n);
    runs_from(&owners, first)
}


// ───────────────────────── short runs ─────────────────────────

/// A run shorter than `MIN_RUN_MINUTES`.
pub open spec fn short_run(r: Run) -> bool {
    r.2 - r.1 + 1 < MIN_RUN_MINUTES
}

/// `b` starts the minute after `a` ends, and both are work or both are
/// personal.
pub open spec fn joins(a: Run, b: Run) -> bool {
    a.2 + 1 == b.1 && work_key(a.0) == work_key(b.0)
}

/// Add run `r` to the folded runs `out`: a short `r` (or one of the same
/// owner) is absorbed by the touching run before it; a short run before
/// it hands its minutes forward to `r`; else `r` stands alone.
pub open spec fn fold_step(out: Seq<Run>, r: Run) -> Seq<Run> {
    if out.len() > 0 && joins(out.last(), r) && (short_run(r) || out.last().0 == r.0) {
        out.update(out.len() - 1, (out.last().0, out.last().1, r.2))
    } else if out.len() > 0 && joins(out.last(), r) && short_run(out.last()) {
        out.update(out.len() - 1, (r.0, out.last().1, r.2))
    } else {
        out.push(r)
    }
}

/// The runs with short runs folded into touching neighbours of the same
/// kind.
pub open spec fn fold_runs(rs: Seq<Run>) -> Seq<Run>
    decreases rs.len(),
{
    if rs.len() == 0 {
        Seq::empty()
    } else {
        fold_step(fold_runs(rs.drop_last()), rs.last())
    }
}

proof fn lemma_fold_runs(rs: Seq<Run>)
    requires
        sorted_disjoint(rs),
    ensures
        sorted_disjoint(fold_runs(rs)),
        rs.len() > 0 ==> fold_runs(rs).len() > 0 && fold_runs(rs).last().2 == rs.last().2,
        rs.len() == 0 ==> fold_runs(rs).len() == 0,
        forall|i: int| 0 <= i < fold_runs(rs).len() ==> (#[trigger] fold_runs(rs)[i]).1 >= (if rs.len() > 0 { rs[0].1 } else { 0 }),
        forall|m: int| #[trigger] covered(fold_runs(rs), m) == covered(rs, m),
    decreases rs.len(),
{
    if rs.len() > 0 {
        let p = rs.drop_last();
        assert(sorted_disjoint(p)) by {
            assert forall|i: int, j: int| 0 <= i < j < p.len() implies (#[trigger] p[i]).2 < (#[trigger] p[j]).1 by {
                assert(rs[i].2 < rs[j].1);
            }
        }
        lemma_fold_runs(p);
        let out = fold_runs(p);
        let r = rs.last();
        let f = fold_runs(rs);
        assert(r.1 <= r.2);
        if p.len() > 0 {
            assert(rs[p.len() - 1].2 < rs[rs.len() - 1].1);
            assert(out.last().2 < r.1);
            assert(rs[0] == p[0]);
            assert(rs[0].1 <= rs[0].2);
        }
        assert forall|i: int| 0 <= i < out.len() implies (#[trigger] out[i]).2 < r.1 by {
            if i < out.len() - 1 {
                assert(out[i].2 < out[out.len() - 1].1);
            }
        }
        if out.len() > 0 && joins(out.last(), r) && (short_run(r) || out.last().0 == r.0
            || short_run(out.last())) {
            let last = out.len() - 1;
            assert(f.len() == out.len());
            assert forall|i: int, j: int| 0 <= i < j < f.len() implies (#[trigger] f[i]).2 < (#[trigger] f[j]).1 by {
                assert(out[i].2 < out[j].1);
            }
            assert forall|m: int| #[trigger] covered(f, m) == covered(rs, m) by {
                if covered(rs, m) {
                    let i = choose|i: int| 0 <= i < rs.len() && (#[trigger] rs[i]).1 <= m <= rs[i].2;
                    if i == rs.len() - 1 {
                        assert(f[last].1 <= m <= f[last].2);
                    } else {
                        assert(p[i].1 <= m <= p[i].2);
                        assert(covered(p, m));
                        assert(covered(out, m));
                        let x = choose|x: int| 0 <= x < out.len() && (#[trigger] out[x]).1 <= m <= out[x].2;
                        assert(f[x].1 <= m <= f[x].2);
                    }
                }
                if covered(f, m) {
                    let x = choose|x: int| 0 <= x < f.len() && (#[trigger] f[x]).1 <= m <= f[x].2;
                    if x == last && m > out[last].2 {
                        assert(rs[rs.len() - 1].1 <= m <= rs[rs.len() - 1].2);
                    } else {
                        assert(out[x].1 <= m <= out[x].2);
                        assert(covered(out, m));
                        assert(covered(p, m));
                        let i = choose|i: int| 0 <= i < p.len() && (#[trigger] p[i]).1 <= m <= p[i].2;
                        assert(rs[i] == p[i]);
                    }
                }
            }
        } else {
            assert(f == out.push(r));
            assert forall|i: int, j: int| 0 <= i < j < f.len() implies (#[trigger] f[i]).2 < (#[trigger] f[j]).1 by {
                if j < out.len() {
                    assert(out[i].2 < out[j].1);
                }
            }
            assert forall|m: int| #[trigger] covered(f, m) == covered(rs, m) by {
                if covered(rs, m) {
                    let i = choose|i: int| 0 <= i < rs.len() && (#[trigger] rs[i]).1 <= m <= rs[i].2;
                    if i == rs.len() - 1 {
                        assert(f[out.len() as int] == r);
                    } else {
                        assert(p[i].1 <= m <= p[i].2);
                        assert(covered(p, m));
                        assert(covered(out, m));
                        let x = choose|x: int| 0 <= x < out.len() && (#[trigger] out[x]).1 <= m <= out[x].2;
                        assert(f[x] == out[x]);
                    }
                }
                if covered(f, m) {
                    let x = choose|x: int| 0 <= x < f.len() && (#[trigger] f[x]).1 <= m <= f[x].2;
                    if x == out.len() {
                        assert(rs[rs.len() - 1] == r);
                    } else {
                        assert(f[x] == out[x]);
                        assert(covered(out, m));
                        assert(covered(p, m));
                        let i = choose|i: int| 0 <= i < p.len() && (#[trigger] p[i]).1 <= m <= p[i].2;
                        assert(rs[i] == p[i]);
                    }
                }
            }
        }
    }
}

/// Folding short runs keeps runs ordered and disjoint and covers exactly
/// the minutes the runs covered before: no minute is lost or counted
/// twice.
pub proof fn law_fold_keeps_minutes(rs: Seq<Run>)
    requires
        sorted_disjoint(rs),
    ensures
        sorted_disjoint(fold_runs(rs)),
        forall|m: int| #[trigger] covered(fold_runs(rs), m) == covered(rs, m),
{
    lemma_fold_runs(rs);
}

/// Minute `m` lies in a run whose owner is work (`w`) or personal (`!w`).
pub open spec fn kind_at(rs: Seq<Run>, m: int, w: bool) -> bool {
    exists|j: int| 0 <= j < rs.len() && (#[trigger] rs[j]).1 <= m <= rs[j].2 && work_key(rs[j].0) == w
}

proof fn lemma_kind_at_prefix(rs: Seq<Run>, m: int, w: bool)
    requires
        rs.len() > 0,
        kind_at(rs.drop_last(), m, w),
    ensures
        kind_at(rs, m, w),
{
    let p = rs.drop_last();
    let j = choose|j: int| 0 <= j < p.len() && (#[trigger] p[j]).1 <= m <= p[j].2 && work_key(p[j].0) == w;
    assert(rs[j] == p[j]);
}

proof fn lemma_fold_kinds(rs: Seq<Run>)
    ensures
        forall|m: int, k: Seq<char>| #[trigger] owned_by(fold_runs(rs), m, k) ==> kind_at(rs, m, work_key(k)),
    decreases rs.len(),
{
    if rs.len() > 0 {
        let p = rs.drop_last();
        lemma_fold_kinds(p);
        let out = fold_runs(p);
        let r = rs.last();
        let f = fold_runs(rs);
        let last = rs.len() - 1;
        assert(rs[last] == r);
        assert forall|m: int, k: Seq<char>| #[trigger] owned_by(f, m, k) implies kind_at(rs, m, work_key(k)) by {
            let i = choose|i: int| 0 <= i < f.len() && (#[trigger] f[i]).1 <= m <= f[i].2 && f[i].0 == k;
            if out.len() > 0 && joins(out.last(), r) && (short_run(r) || out.last().0 == r.0) {
                let ol = out.last();
                if i < out.len() - 1 {
                    assert(f[i] == out[i]);
                    assert(owned_by(out, m, k));
                    lemma_kind_at_prefix(rs, m, work_key(k));
                } else if m <= ol.2 {
                    assert(out[out.len() - 1] == ol);
                    assert(owned_by(out, m, ol.0));
                    lemma_kind_at_prefix(rs, m, work_key(k));
                } else {
                    assert(rs[last].1 <= m <= rs[last].2);
                }
            } else if out.len() > 0 && joins(out.last(), r) && short_run(out.last()) {
                let ol = out.last();
                if i < out.len() - 1 {
                    assert(f[i] == out[i]);
                    assert(owned_by(out, m, k));
                    lemma_kind_at_prefix(rs, m, work_key(k));
                } else if m <= ol.2 {
                    assert(out[out.len() - 1] == ol);
                    assert(owned_by(out, m, ol.0));
                    lemma_kind_at_prefix(rs, m, work_key(ol.0));
                } else {
                    assert(rs[last].1 <= m <= rs[last].2);
                }
            } else {
                if i < out.len() {
                    assert(f[i] == out[i]);
                    assert(owned_by(out, m, k));
                    lemma_kind_at_prefix(rs, m, work_key(k));
                } else {
                    assert(rs[last].1 <= m <= rs[last].2);
                }
            }
        }
    }
}

/// Folding never moves a minute between work and personal: whoever owns
/// a minute after folding is of the same kind as the owner of a run that
/// held it before.
pub proof fn law_fold_keeps_kinds(rs: Seq<Run>)
    ensures
        forall|m: int, k: Seq<char>| #[trigger] owned_by(fold_runs(rs), m, k) ==> kind_at(rs, m, work_key(k)),
{
    lemma_fold_kinds(rs);
}

/// Fold runs under `MIN_RUN_MINUTES` into a touching neighbour of the
/// same kind (work into work, personal into personal, never across),
/// merging touching runs that then share an owner.
#[verifier::loop_isolation(false)]
pub fn fold_short_runs(runs: Vec<(String, i64, i64)>) -> (r: Vec<(String, i64, i64)>)
    requires
        forall|i: int| 0 <= i < runs@.len() ==> minute_ok((#[trigger] runs@[i]).1 as int) && minute_ok(runs@[i].2 as int),
    ensures
        rv(r@) == fold_runs(rv(runs@)),
        sorted_disjoint(rv(runs@)) ==> sorted_disjoint(rv(r@)),
        sorted_disjoint(rv(runs@)) ==> forall|m: int| #[trigger] covered(rv(r@), m) == covered(rv(runs@), m),
{
    proof {
        if sorted_disjoint(rv(runs@)) {
            lemma_fold_runs(rv(runs@));
        }
    }
    let ghost rs = rv(runs@);
    let mut out: Vec<(String, i64, i64)> = Vec::new();
    let mut i: usize = 0;
    assert(rs.take(0) =~= Seq::<Run>::empty());
    assert(rv(out@) =~= Seq::<Run>::empty());
    while i < runs.len()
        invariant
            i <= runs@.len(),
            rv(out@) == fold_runs(rs.take(i as int)),
            forall|x: int| 0 <= x < out@.len() ==> minute_ok((#[trigger] out@[x]).1 as int) && minute_ok(out@[x].2 as int),
        decreases runs@.len() - i,
    {
        assert(rs.take(i + 1).drop_last() =~= rs.take(i as int));
        assert(rs.take(i + 1).last() == rs[i as int]);
        let (rk, r1, r2) = (&runs[i].0, runs[i].1, runs[i].2);
        let r_short = r2 - r1 + 1 < MIN_RUN_MINUTES;
        let n = out.len();
        let ghost before = out@;
        if n > 0 {
            let (pk, p1, p2) = (&out[n - 1].0, out[n - 1].1, out[n - 1].2);
            let j = p2 + 1 == r1 && is_work(pk.as_str()) == is_work(rk.as_str());
            let p_short = p2 - p1 + 1 < MIN_RUN_MINUTES;
            if j && (r_short || str_eq(pk.as_str(), rk.as_str())) {
                let k = pk.clone();
                out.set(n - 1, (k, p1, r2));
                assert(rv(out@) =~= rv(before).update(n - 1, (rv(before).last().0, p1 as int, r2 as int)));
            } else if j && p_short {
                out.set(n - 1, (rk.clone(), p1, r2));
                assert(rv(out@) =~= rv(before).update(n - 1, (rk@, p1 as int, r2 as int)));
            } else {
                out.push((rk.clone(), r1, r2));
                assert(rv(out@) =~= rv(before).push((rk@, r1 as int, r2 as int)));
            }
        } else {
            out.push((rk.clone(), r1, r2));
            assert(rv(out@) =~= rv(before).push((rk@, r1 as int, r2 as int)));
        }
        i = i + 1;
    }
    assert(rs.take(runs@.len() as int) =~= rs);
    out
}


// ───────────────────────── placing events ─────────────────────────

/// Where an event goes once the day's minutes have owners.
#[derive(Debug, Clone, Copy, PartialEq, Eq)]
pub enum Placement {
    /// Calendar events are built on their own.
    Calendar,
    /// Into the block of this run: the first run holding its minute whose
    /// owner is the event's lane (a folderless event joins any owner).
    Run(usize),
    /// Another lane owns its minute: that time is already counted there,
    /// so the event builds nothing.
    Claimed,
    /// Nobody owns its minute: built with the other leftovers.
    Leftover,
}

/// Run `i` holds minute `m` and takes an event of lane `key`.
pub open spec fn takes(rs: Seq<Run>, i: int, m: int, key: Option<Seq<char>>) -> bool {
    rs[i].1 <= m <= rs[i].2 && match key {
        Some(k) => k == rs[i].0,
        None => true,
    }
}

/// Where an event at minute `m` of lane `key` goes.
pub open spec fn placement(rs: Seq<Run>, m: int, key: Option<Seq<char>>, calendar: bool) -> Placement {
    if calendar {
        Placement::Calendar
    } else if exists|i: int| 0 <= i < rs.len() && #[trigger] takes(rs, i, m, key) {
        Placement::Run(
            (choose|i: int|
                0 <= i < rs.len() && takes(rs, i, m, key) && forall|j: int|
                    0 <= j < i ==> !#[trigger] takes(rs, j, m, key)) as usize,
        )
    } else if covered(rs, m) {
        Placement::Claimed
    } else {
        Placement::Leftover
    }
}

/// Where an event at minute `m` of lane `key` goes, given the day's runs.
#[verifier::loop_isolation(false)]
pub fn place(runs: &Vec<(String, i64, i64)>, m: i64, key: Option<&str>, calendar: bool) -> (p:
    Placement)
    ensures
        p == placement(
            rv(runs@),
            m as int,
            match key {
                Some(k) => Some(k@),
                None => None,
            },
            calendar,
        ),
{
    let ghost rs = rv(runs@);
    let ghost kk: Option<Seq<char>> = match key {
        Some(k) => Some(k@),
        None => None,
    };
    if calendar {
        return Placement::Calendar;
    }
    let mut i: usize = 0;
    let mut any = false;
    while i < runs.len()
        invariant
            i <= runs@.len(),
            rs == rv(runs@),
            forall|j: int| 0 <= j < i ==> !#[trigger] takes(rs, j, m as int, kk),
            any == (exists|j: int| 0 <= j < i && (#[trigger] rs[j]).1 <= m <= rs[j].2),
        decreases runs@.len() - i,
    {
        let inside = runs[i].1 <= m && m <= runs[i].2;
        let owner_ok = match key {
            Some(k) => str_eq(k, runs[i].0.as_str()),
            None => true,
        };
        if inside && owner_ok {
            proof {
                assert(takes(rs, i as int, m as int, kk));
                let c = choose|x: int|
                    0 <= x < rs.len() && takes(rs, x, m as int, kk) && forall|j: int|
                        0 <= j < x ==> !#[trigger] takes(rs, j, m as int, kk);
                if c < i {
                } else if c > i {
                    assert(!takes(rs, i as int, m as int, kk));
                }
                assert(c == i);
            }
            return Placement::Run(i);
        }
        if inside {
            any = true;
            assert(rs[i as int].1 <= m <= rs[i as int].2);
        }
        i = i + 1;
    }
    if any {
        Placement::Claimed
    } else {
        Placement::Leftover
    }
}

/// Whether `keyed` holds at least two lanes, the precondition for
/// splitting the day by minute ownership at all.
pub fn has_two_lanes(keyed: &Vec<Keyed>) -> (b: bool)
    ensures
        b == exists|i: int, j: int|
            0 <= i < keyed@.len() && 0 <= j < keyed@.len() && (#[trigger] keyed@[i]).key@
                != (#[trigger] keyed@[j]).key@,
{
    if keyed.len() == 0 {
        return false;
    }
    let mut i: usize = 1;
    while i < keyed.len()
        invariant
            1 <= i <= keyed@.len(),
            forall|j: int| 0 <= j < i ==> (#[trigger] keyed@[j]).key@ == keyed@[0].key@,
        decreases keyed@.len() - i,
    {
        if !str_eq(keyed[i].key.as_str(), keyed[0].key.as_str()) {
            assert(keyed@[i as int].key@ != keyed@[0].key@);
            return true;
        }
        i = i + 1;
    }
    false
}

} // verus!
