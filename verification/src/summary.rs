//! The day view's per-block facts.
//!
//! Each block is labelled with the project folder its events vote for,
//! using the same folder key billing groups the block under: the working
//! directory folded to its project folder, else the GitHub repo's
//! basename; rows that resolve to neither do not vote. The folder with the
//! most events wins (ties: the smallest name). Within it, the exact
//! working directory with the most events is shown (ties: the smallest
//! path), or none when the folder won on repo-derived rows alone.
use vstd::prelude::*;

use crate::order::{lemma_lex_irreflexive, lemma_lex_total, lemma_lex_transitive, lex_lt, str_lt};
use crate::text::{chars_of, last_char_index, str_eq, string_of};

verus! {

/// One `(project_path, repo)` group of a block's events.
#[derive(Debug, Clone)]
pub struct VoteRow {
    pub project_path: Option<String>,
    pub repo: Option<String>,
    /// How many of the block's events are in this group.
    pub n: i64,
    /// The project folder `project_path` folds to, when it can be placed.
    pub folder: Option<String>,
}

/// The part of a repo name after its last `/` (`org/Name` gives `Name`),
/// when not empty.
pub open spec fn repo_base(repo: Seq<char>) -> Option<Seq<char>> {
    let b = match last_char_index(repo, '/') {
        Some(i) => repo.skip(i + 1),
        None => repo,
    };
    if b.len() > 0 {
        Some(b)
    } else {
        None
    }
}

/// The folder a row votes for.
pub open spec fn vote_key(r: VoteRow) -> Option<Seq<char>> {
    match r.folder {
        Some(f) => Some(f@),
        None => match r.repo {
            Some(x) => repo_base(x@),
            None => None,
        },
    }
}

/// The events voting for folder `f`.
pub open spec fn folder_total(rows: Seq<VoteRow>, f: Seq<char>) -> int
    decreases rows.len(),
{
    if rows.len() == 0 {
        0
    } else {
        folder_total(rows.drop_last(), f) + (if vote_key(rows.last()) == Some(f) {
            rows.last().n as int
        } else {
            0
        })
    }
}

/// Folder `f` has the most votes.
pub open spec fn top_folder(rows: Seq<VoteRow>, f: Seq<char>) -> bool {
    &&& exists|i: int| 0 <= i < rows.len() && vote_key(#[trigger] rows[i]) == Some(f)
    &&& forall|i: int|
        0 <= i < rows.len() && (#[trigger] vote_key(rows[i])) is Some ==> folder_total(
            rows,
            vote_key(rows[i])->0,
        ) <= folder_total(rows, f)
}

/// Folder `f` is the smallest of those with the most votes.
pub open spec fn winning_folder(rows: Seq<VoteRow>, f: Seq<char>) -> bool {
    &&& top_folder(rows, f)
    &&& forall|i: int|
        0 <= i < rows.len() && (#[trigger] vote_key(rows[i])) is Some && top_folder(
            rows,
            vote_key(rows[i])->0,
        ) ==> !lex_lt(vote_key(rows[i])->0, f)
}

/// Row `r` offers a working directory inside folder `f`.
pub open spec fn offers(r: VoteRow, f: Seq<char>) -> bool {
    vote_key(r) == Some(f) && r.project_path is Some
}

/// Row `i` is the representative path of folder `f`: the most events,
/// ties broken by the smallest path.
pub open spec fn best_row(rows: Seq<VoteRow>, f: Seq<char>, i: int) -> bool {
    &&& 0 <= i < rows.len()
    &&& offers(rows[i], f)
    &&& forall|j: int|
        0 <= j < rows.len() && offers(#[trigger] rows[j], f) ==> rows[j].n < rows[i].n || (rows[j].n
            == rows[i].n && !lex_lt(rows[j].project_path->0@, rows[i].project_path->0@))
}

/// Counts are non-negative and their sum fits.
pub open spec fn votes_ok(rows: Seq<VoteRow>) -> bool {
    &&& forall|i: int| 0 <= i < rows.len() ==> (#[trigger] rows[i]).n >= 0
    &&& sum_n(rows) <= i64::MAX
}

pub open spec fn sum_n(rows: Seq<VoteRow>) -> int
    decreases rows.len(),
{
    if rows.len() == 0 {
        0
    } else {
        sum_n(rows.drop_last()) + rows.last().n
    }
}

/// The folder a repo-only row votes for.
fn repo_basename(repo: &str) -> (r: Option<String>)
    ensures
        match r {
            Some(s) => repo_base(repo@) == Some(s@),
            None => repo_base(repo@) is None,
        },
{
    let v = chars_of(repo);
    let mut k = v.len();
    assert(v@.take(k as int) =~= v@);
    while k > 0 && v[k - 1] != '/'
        invariant
            k <= v@.len(),
            last_char_index(v@, '/') == last_char_index(v@.take(k as int), '/'),
        decreases k,
    {
        assert(v@.take(k as int).drop_last() =~= v@.take(k - 1));
        k = k - 1;
    }
    proof {
        assert(v@.take(v@.len() as int) =~= v@);
    }
    if k == v.len() {
        // The name ends in `/`: nothing after it.
        if k > 0 {
            assert(last_char_index(v@.take(k as int), '/') == Some(k - 1));
            assert(v@.skip(k as int) =~= Seq::<char>::empty());
            return None;
        }
        assert(v@.len() == 0);
        return None;
    }
    let r = string_of(v.as_slice(), k, v.len());
    proof {
        if k > 0 {
            assert(last_char_index(v@.take(k as int), '/') == Some(k - 1));
            assert(r@ =~= v@.skip(k as int));
        } else {
            assert(last_char_index(v@.take(0), '/') is None);
            assert(r@ =~= v@);
        }
    }
    Some(r)
}

fn row_key(r: &VoteRow) -> (k: Option<String>)
    ensures
        match k {
            Some(s) => vote_key(*r) == Some(s@),
            None => vote_key(*r) is None,
        },
{
    match &r.folder {
        Some(f) => Some(f.clone()),
        None => match &r.repo {
            Some(x) => repo_basename(x.as_str()),
            None => None,
        },
    }
}

proof fn lemma_total_prefix(rows: Seq<VoteRow>, f: Seq<char>, j: int)
    requires
        0 <= j < rows.len(),
    ensures
        folder_total(rows.take(j + 1), f) == folder_total(rows.take(j), f) + (if vote_key(rows[j])
            == Some(f) {
            rows[j].n as int
        } else {
            0
        }),
{
    assert(rows.take(j + 1).drop_last() =~= rows.take(j));
}

proof fn lemma_total_bounds(rows: Seq<VoteRow>, f: Seq<char>)
    requires
        forall|i: int| 0 <= i < rows.len() ==> (#[trigger] rows[i]).n >= 0,
    ensures
        0 <= folder_total(rows, f) <= sum_n(rows),
    decreases rows.len(),
{
    if rows.len() > 0 {
        let p = rows.drop_last();
        assert forall|i: int| 0 <= i < p.len() implies (#[trigger] p[i]).n >= 0 by {
            assert(p[i] == rows[i]);
        }
        lemma_total_bounds(p, f);
        assert(rows[rows.len() - 1].n >= 0);
    }
}

proof fn lemma_sum_prefix(rows: Seq<VoteRow>, j: int)
    requires
        0 <= j <= rows.len(),
        forall|i: int| 0 <= i < rows.len() ==> (#[trigger] rows[i]).n >= 0,
    ensures
        sum_n(rows.take(j)) <= sum_n(rows),
    decreases rows.len() - j,
{
    if j < rows.len() {
        lemma_sum_prefix(rows, j + 1);
        assert(rows.take(j + 1).drop_last() =~= rows.take(j));
        assert(rows[j].n >= 0);
    } else {
        assert(rows.take(j) =~= rows);
    }
}

/// The events voting for folder `f`.
fn total_for(rows: &Vec<VoteRow>, f: &String) -> (t: i64)
    requires
        votes_ok(rows@),
    ensures
        t == folder_total(rows@, f@),
{
    let mut t: i64 = 0;
    let mut j: usize = 0;
    while j < rows.len()
        invariant
            j <= rows@.len(),
            votes_ok(rows@),
            t == folder_total(rows@.take(j as int), f@),
        decreases rows@.len() - j,
    {
        proof {
            lemma_total_prefix(rows@, f@, j as int);
            lemma_total_bounds(rows@.take(j + 1), f@);
            assert forall|i: int| 0 <= i < rows@.take(j + 1).len() implies (#[trigger] rows@.take(j + 1)[i]).n >= 0 by {
                assert(rows@.take(j + 1)[i] == rows@[i]);
            }
            lemma_total_bounds(rows@.take(j + 1), f@);
            lemma_sum_prefix(rows@, j + 1);
        }
        let k = row_key(&rows[j]);
        match k {
            Some(x) => {
                if str_eq(x.as_str(), f.as_str()) {
                    t = t + rows[j].n;
                }
            },
            None => {},
        }
        j = j + 1;
    }
    assert(rows@.take(rows@.len() as int) =~= rows@);
    t
}

/// The winning folder of a block's vote and its representative working
/// directory.
#[verifier::rlimit(60)]
pub fn folder_vote(rows: &Vec<VoteRow>) -> (r: (Option<String>, Option<String>))
    requires
        votes_ok(rows@),
    ensures
        r.0 is None <==> forall|i: int| 0 <= i < rows@.len() ==> (#[trigger] vote_key(rows@[i])) is None,
        r.0 matches Some(f) ==> winning_folder(rows@, f@),
        r.0 matches Some(f) ==> match r.1 {
            Some(p) => exists|i: int| best_row(rows@, f@, i) && rows@[i].project_path->0@ == p@,
            None => forall|i: int| 0 <= i < rows@.len() ==> !offers(#[trigger] rows@[i], f@),
        },
        r.0 is None ==> r.1 is None,
{
    let ghost s = rows@;
    // The winning folder: (a row voting for it, its key, its total).
    let mut best: Option<(usize, String, i64)> = None;
    let mut i: usize = 0;
    while i < rows.len()
        invariant
            i <= rows@.len(),
            s == rows@,
            votes_ok(s),
            best is None ==> forall|j: int| 0 <= j < i ==> (#[trigger] vote_key(s[j])) is None,
            best matches Some(b) ==> {
                &&& b.0 < i
                &&& vote_key(s[b.0 as int]) == Some(b.1@)
                &&& b.2 == folder_total(s, b.1@)
                &&& forall|j: int|
                    0 <= j < i && (#[trigger] vote_key(s[j])) is Some ==> folder_total(s, vote_key(s[j])->0) <= b.2
                &&& forall|j: int|
                    0 <= j < i && (#[trigger] vote_key(s[j])) is Some && folder_total(s, vote_key(s[j])->0) == b.2
                        ==> !lex_lt(vote_key(s[j])->0, b.1@)
            },
        decreases rows@.len() - i,
    {
        let k = row_key(&rows[i]);
        match k {
            Some(key) => {
                let t = total_for(rows, &key);
                match best {
                    None => {
                        proof {
                            lemma_lex_irreflexive(key@);
                        }
                        best = Some((i, key, t));
                    },
                    Some((bi, bk, bt)) => {
                        let kc = chars_of(key.as_str());
                        let bc = chars_of(bk.as_str());
                        let smaller = str_lt(&kc, &bc);
                        if t > bt || (t == bt && smaller) {
                            proof {
                                lemma_lex_irreflexive(key@);
                                assert forall|j: int|
                                    0 <= j < i + 1 && (#[trigger] vote_key(s[j])) is Some && folder_total(s, vote_key(s[j])->0) == t
                                        implies !lex_lt(vote_key(s[j])->0, key@) by {
                                    if j < i && t == bt && lex_lt(vote_key(s[j])->0, key@) {
                                        lemma_lex_transitive(vote_key(s[j])->0, key@, bk@);
                                    }
                                }
                            }
                            best = Some((i, key, t));
                        } else {
                            best = Some((bi, bk, bt));
                        }
                    },
                }
            },
            None => {},
        }
        i = i + 1;
    }
    let (bi, folder, bt) = match best {
        None => {
            return (None, None);
        },
        Some(b) => b,
    };
    proof {
        assert(top_folder(s, folder@));
        assert forall|j: int|
            0 <= j < s.len() && (#[trigger] vote_key(s[j])) is Some && top_folder(s, vote_key(s[j])->0)
                implies !lex_lt(vote_key(s[j])->0, folder@) by {
            assert(folder_total(s, vote_key(s[j])->0) >= folder_total(s, vote_key(s[bi as int])->0));
        }
    }
    // The representative path: the offering row with the most events.
    let mut bp: Option<usize> = None;
    let mut j: usize = 0;
    while j < rows.len()
        invariant
            j <= rows@.len(),
            s == rows@,
            bp is None ==> forall|x: int| 0 <= x < j ==> !offers(#[trigger] s[x], folder@),
            bp matches Some(b) ==> {
                &&& b < j
                &&& offers(s[b as int], folder@)
                &&& forall|x: int|
                    0 <= x < j && offers(#[trigger] s[x], folder@) ==> s[x].n < s[b as int].n || (s[x].n
                        == s[b as int].n && !lex_lt(s[x].project_path->0@, s[b as int].project_path->0@))
            },
        decreases rows@.len() - j,
    {
        let k = row_key(&rows[j]);
        let here = match (&k, &rows[j].project_path) {
            (Some(x), Some(_)) => str_eq(x.as_str(), folder.as_str()),
            _ => false,
        };
        if here {
            let p = match &rows[j].project_path {
                Some(p) => p,
                None => {
                    return (None, None);
                },
            };
            match bp {
                None => {
                    proof {
                        lemma_lex_irreflexive(p@);
                    }
                    bp = Some(j);
                },
                Some(b) => {
                    let bpath = match &rows[b].project_path {
                        Some(q) => q,
                        None => {
                            return (None, None);
                        },
                    };
                    let pc = chars_of(p.as_str());
                    let qc = chars_of(bpath.as_str());
                    let smaller = str_lt(&pc, &qc);
                    if rows[j].n > rows[b].n || (rows[j].n == rows[b].n && smaller) {
                        proof {
                            lemma_lex_irreflexive(p@);
                            assert forall|x: int|
                                0 <= x < j + 1 && offers(#[trigger] s[x], folder@) implies s[x].n < s[j as int].n || (s[x].n
                                    == s[j as int].n && !lex_lt(s[x].project_path->0@, s[j as int].project_path->0@)) by {
                                if x < j && s[x].n == s[j as int].n && lex_lt(s[x].project_path->0@, p@) {
                                    if s[x].n == s[b as int].n {
                                        lemma_lex_transitive(s[x].project_path->0@, p@, bpath@);
                                    }
                                }
                            }
                        }
                        bp = Some(j);
                    } else {
                        proof {
                            if s[j as int].n == s[b as int].n {
                                assert(!lex_lt(p@, bpath@));
                            }
                        }
                    }
                },
            }
        }
        j = j + 1;
    }
    match bp {
        None => (Some(folder), None),
        Some(b) => {
            let p = match &rows[b].project_path {
                Some(p) => p.clone(),
                None => {
                    return (None, None);
                },
            };
            proof {
                assert(best_row(s, folder@, b as int));
            }
            (Some(folder), Some(p))
        },
    }
}

/// The sum of the blocks' durations.
pub fn total_seconds(durations: &Vec<i64>) -> (t: i64)
    requires
        forall|i: int| 0 <= i < durations@.len() ==> 0 <= #[trigger] durations@[i],
        durations@.fold_left(0int, |a: int, d: i64| a + d) <= i64::MAX,
    ensures
        t == durations@.fold_left(0int, |a: int, d: i64| a + d),
{
    let mut t: i64 = 0;
    let mut i: usize = 0;
    while i < durations.len()
        invariant
            i <= durations@.len(),
            forall|x: int| 0 <= x < durations@.len() ==> 0 <= #[trigger] durations@[x],
            durations@.fold_left(0int, |a: int, d: i64| a + d) <= i64::MAX,
            t == durations@.take(i as int).fold_left(0int, |a: int, d: i64| a + d),
        decreases durations@.len() - i,
    {
        proof {
            assert(durations@.take(i + 1).drop_last() =~= durations@.take(i as int));
            lemma_fold_prefix_le(durations@, i + 1);
        }
        t = t + durations[i];
        i = i + 1;
    }
    assert(durations@.take(durations@.len() as int) =~= durations@);
    t
}

proof fn lemma_fold_prefix_le(d: Seq<i64>, j: int)
    requires
        0 <= j <= d.len(),
        forall|x: int| 0 <= x < d.len() ==> 0 <= #[trigger] d[x],
    ensures
        d.take(j).fold_left(0int, |a: int, x: i64| a + x) <= d.fold_left(0int, |a: int, x: i64| a + x),
    decreases d.len() - j,
{
    if j < d.len() {
        lemma_fold_prefix_le(d, j + 1);
        assert(d.take(j + 1).drop_last() =~= d.take(j));
        assert(d[j] >= 0);
    } else {
        assert(d.take(j) =~= d);
    }
}

} // verus!
