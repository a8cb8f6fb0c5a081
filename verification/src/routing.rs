//! Routing browser and Slack events to a project folder.
//!
//! A hard rule (the owner's "always" choice) wins over a model guess; an
//! event no rule matches waits for a guess. At the end of a day's pass,
//! an event still unlabelled either sits inside a stretch of other work
//! (and joins it) or becomes noise.
use vstd::prelude::*;

use crate::text::{
    char_index, chars_of, concat, find, last_char_index, str_eq, string_of, trim, trim_window,
    window_find,
};

verus! {

/// Counts from one routing pass.
#[derive(Debug, Clone, Default, PartialEq, Eq)]
pub struct RouteStats {
    pub rules_applied: usize,
    pub guesses_applied: usize,
}

/// What a hard rule keys on.
#[derive(Debug, Clone, Copy, PartialEq, Eq, Structural)]
pub enum RuleKind {
    /// The host of a browser event's URL.
    Domain,
    /// A Slack event's channel (its title).
    SlackChannel,
    /// The container (browser profile or Slack workspace) an event came
    /// from.
    Container,
}

/// An owner's "always route this to that folder" rule.
#[derive(Debug, Clone)]
pub struct Rule {
    pub id: i64,
    pub kind: RuleKind,
    pub pattern: String,
    pub folder: String,
}

/// A browser or Slack event as routing reads it.
#[derive(Debug, Clone)]
pub struct RouteRow {
    pub id: i64,
    pub source: String,
    pub title: String,
    /// For a browser event, its URL.
    pub details: Option<String>,
    pub container: Option<String>,
}

/// What `str::to_lowercase` gives for `s` (full Unicode lowercasing).
pub uninterp spec fn lowercase(s: Seq<char>) -> Seq<char>;

/// Calls `str::to_lowercase`. The contract names the result: it is a
/// function of the text alone.
#[verifier::external_body]
pub(crate) fn to_lower(s: &str) -> (r: String)
    ensures
        r@ == lowercase(s@),
{
    s.to_lowercase()
}

/// The index of the first `/`, `?` or `#` in `s`, if any.
pub open spec fn first_sep(s: Seq<char>) -> Option<int>
    decreases s.len(),
{
    if s.len() == 0 {
        None
    } else if s[0] == '/' || s[0] == '?' || s[0] == '#' {
        Some(0)
    } else {
        match first_sep(s.drop_first()) {
            Some(i) => Some(i + 1),
            None => None,
        }
    }
}

/// The host of a URL, before lowercasing: past the scheme (up to a
/// further `://`), up to the first `/`, `?` or `#`, past the last `@`,
/// before the first `:`, trimmed.
pub open spec fn raw_host(url: Seq<char>) -> Seq<char> {
    let rest = match find(url, "://"@) {
        Some(i) => {
            let after = url.skip(i + 3);
            match find(after, "://"@) {
                Some(j) => after.take(j),
                None => after,
            }
        },
        None => url,
    };
    let h0 = match first_sep(rest) {
        Some(i) => rest.take(i),
        None => rest,
    };
    let h1 = match last_char_index(h0, '@') {
        Some(i) => h0.skip(i + 1),
        None => h0,
    };
    let h2 = match char_index(h1, ':') {
        Some(i) => h1.take(i),
        None => h1,
    };
    trim(h2)
}

/// The lowercased host of a URL; `None` when it is empty.
pub open spec fn domain_spec(url: Seq<char>) -> Option<Seq<char>> {
    if raw_host(url).len() == 0 {
        None
    } else {
        Some(lowercase(raw_host(url)))
    }
}

fn first_sep_in(v: &Vec<char>, lo: usize, hi: usize) -> (r: Option<usize>)
    requires
        lo <= hi <= v@.len(),
    ensures
        match r {
            Some(i) => lo <= i < hi && first_sep(v@.subrange(lo as int, hi as int)) == Some(i - lo),
            None => first_sep(v@.subrange(lo as int, hi as int)) is None,
        },
{
    let mut i = hi;
    let mut found: Option<usize> = None;
    while i > lo
        invariant
            lo <= i <= hi <= v@.len(),
            match found {
                Some(k) => i <= k < hi && first_sep(v@.subrange(i as int, hi as int)) == Some(k - i),
                None => first_sep(v@.subrange(i as int, hi as int)) is None,
            },
        decreases i - lo,
    {
        let c = v[i - 1];
        assert(v@.subrange(i - 1, hi as int).drop_first() =~= v@.subrange(i as int, hi as int));
        assert(v@.subrange(i - 1, hi as int)[0] == c);
        if c == '/' || c == '?' || c == '#' {
            found = Some(i - 1);
        }
        i = i - 1;
    }
    found
}

fn last_at_in(v: &Vec<char>, lo: usize, hi: usize, c: char) -> (r: Option<usize>)
    requires
        lo <= hi <= v@.len(),
    ensures
        match r {
            Some(i) => lo <= i < hi && last_char_index(v@.subrange(lo as int, hi as int), c) == Some(i - lo),
            None => last_char_index(v@.subrange(lo as int, hi as int), c) is None,
        },
{
    let mut k = hi;
    while k > lo && v[k - 1] != c
        invariant
            lo <= k <= hi <= v@.len(),
            last_char_index(v@.subrange(lo as int, hi as int), c) == last_char_index(v@.subrange(lo as int, k as int), c),
        decreases k - lo,
    {
        assert(v@.subrange(lo as int, k as int).drop_last() =~= v@.subrange(lo as int, k - 1));
        k = k - 1;
    }
    if k == lo {
        assert(v@.subrange(lo as int, lo as int) =~= Seq::<char>::empty());
        None
    } else {
        assert(v@.subrange(lo as int, k as int).last() == c);
        Some(k - 1)
    }
}

/// The lowercased host of a URL (no scheme, path, query, user or port);
/// `None` when there is none.
#[verifier::rlimit(40)]
pub fn domain_of(url: &str) -> (r: Option<String>)
    ensures
        match r {
            Some(d) => domain_spec(url@) == Some(d@),
            None => domain_spec(url@) is None,
        },
{
    let v = chars_of(url);
    let n = v.len();
    proof {
        reveal_strlit("://");
    }
    let sep = chars_of("://");
    assert(v@.subrange(0, n as int) =~= v@);
    let (rlo, rhi) = match window_find(&v, 0, n, &sep) {
        Some(i) => {
            let a = i + 3;
            let e = match window_find(&v, a, n, &sep) {
                Some(j) => j,
                None => n,
            };
            proof {
                let after = v@.skip(i + 3);
                assert(after =~= v@.subrange(a as int, n as int));
                if e < n {
                    assert(after.take(e - a) =~= v@.subrange(a as int, e as int));
                }
            }
            (a, e)
        },
        None => (0, n),
    };
    let ghost rest = v@.subrange(rlo as int, rhi as int);
    let h0hi = match first_sep_in(&v, rlo, rhi) {
        Some(i) => i,
        None => rhi,
    };
    assert(v@.subrange(rlo as int, h0hi as int) =~= match first_sep(rest) {
        Some(i) => rest.take(i),
        None => rest,
    });
    let ghost h0 = v@.subrange(rlo as int, h0hi as int);
    let h1lo = match last_at_in(&v, rlo, h0hi, '@') {
        Some(i) => i + 1,
        None => rlo,
    };
    assert(v@.subrange(h1lo as int, h0hi as int) =~= match last_char_index(h0, '@') {
        Some(i) => h0.skip(i + 1),
        None => h0,
    });
    let ghost h1 = v@.subrange(h1lo as int, h0hi as int);
    let h2hi = match crate::text::find_char(&v, ':', h1lo, h0hi) {
        Some(i) => i,
        None => h0hi,
    };
    assert(v@.subrange(h1lo as int, h2hi as int) =~= match char_index(h1, ':') {
        Some(i) => h1.take(i),
        None => h1,
    });
    let (a, b) = trim_window(&v, h1lo, h2hi);
    if a == b {
        return None;
    }
    let host = string_of(v.as_slice(), a, b);
    Some(to_lower(host.as_str()))
}

pub open spec fn ostr(o: Option<String>) -> Option<Seq<char>> {
    match o {
        Some(s) => Some(s@),
        None => None,
    }
}

/// Whether `row` matches a `kind`/`pattern` rule.
pub open spec fn rule_matches(kind: RuleKind, pattern: Seq<char>, row: RouteRow) -> bool {
    match kind {
        RuleKind::Domain => row.source@ == "firefox"@ && match row.details {
            Some(d) => domain_spec(d@) == Some(pattern),
            None => false,
        },
        RuleKind::SlackChannel => row.source@ == "slack"@ && row.title@ == pattern,
        RuleKind::Container => ostr(row.container) == Some(pattern),
    }
}

/// Whether `row` matches a `kind`/`pattern` rule.
pub fn kind_matches(kind: RuleKind, pattern: &str, row: &RouteRow) -> (r: bool)
    ensures
        r == rule_matches(kind, pattern@, *row),
{
    match kind {
        RuleKind::Domain => {
            if !str_eq(row.source.as_str(), "firefox") {
                return false;
            }
            match &row.details {
                Some(d) => match domain_of(d.as_str()) {
                    Some(h) => str_eq(h.as_str(), pattern),
                    None => false,
                },
                None => false,
            }
        },
        RuleKind::SlackChannel => str_eq(row.source.as_str(), "slack") && str_eq(
            row.title.as_str(),
            pattern,
        ),
        RuleKind::Container => match &row.container {
            Some(c) => str_eq(c.as_str(), pattern),
            None => false,
        },
    }
}

/// The folder of the first of `rules` that `row` matches.
pub open spec fn rule_folder(rules: Seq<Rule>, row: RouteRow) -> Option<Seq<char>>
    decreases rules.len(),
{
    if rules.len() == 0 {
        None
    } else if rule_matches(rules[0].kind, rules[0].pattern@, row) {
        Some(rules[0].folder@)
    } else {
        rule_folder(rules.drop_first(), row)
    }
}

/// The folder of the first rule `row` matches.
pub fn matching_rule(rules: &Vec<Rule>, row: &RouteRow) -> (r: Option<String>)
    ensures
        ostr(r) == rule_folder(rules@, *row),
        match r {
            Some(f) => exists|i: int|
                0 <= i < rules@.len() && rule_matches(rules@[i].kind, rules@[i].pattern@, *row)
                    && rules@[i].folder@ == f@ && forall|j: int|
                    0 <= j < i ==> !rule_matches(#[trigger] rules@[j].kind, rules@[j].pattern@, *row),
            None => forall|i: int|
                0 <= i < rules@.len() ==> !rule_matches(#[trigger] rules@[i].kind, rules@[i].pattern@, *row),
        },
{
    let mut i: usize = 0;
    assert(rules@.skip(0) =~= rules@);
    while i < rules.len()
        invariant
            i <= rules@.len(),
            forall|j: int| 0 <= j < i ==> !rule_matches(#[trigger] rules@[j].kind, rules@[j].pattern@, *row),
            rule_folder(rules@, *row) == rule_folder(rules@.skip(i as int), *row),
        decreases rules@.len() - i,
    {
        assert(rules@.skip(i as int)[0] == rules@[i as int]);
        if kind_matches(rules[i].kind, rules[i].pattern.as_str(), row) {
            return Some(rules[i].folder.clone());
        }
        assert(rules@.skip(i as int).drop_first() =~= rules@.skip(i + 1));
        i = i + 1;
    }
    None
}

/// The events a day's rules settle, each with the folder of the first rule
/// it matches, in order.
pub open spec fn hits_of(rules: Seq<Rule>, rows: Seq<RouteRow>) -> Seq<(i64, Seq<char>)>
    decreases rows.len(),
{
    if rows.len() == 0 {
        Seq::empty()
    } else {
        let r = hits_of(rules, rows.drop_last());
        match rule_folder(rules, rows.last()) {
            Some(f) => r.push((rows.last().id, f)),
            None => r,
        }
    }
}

/// The positions of the events no rule settles, in order: they wait for a
/// guess.
pub open spec fn waiting_of(rules: Seq<Rule>, rows: Seq<RouteRow>) -> Seq<int>
    decreases rows.len(),
{
    if rows.len() == 0 {
        Seq::empty()
    } else {
        let r = waiting_of(rules, rows.drop_last());
        if rule_folder(rules, rows.last()) is None {
            r.push(rows.len() - 1)
        } else {
            r
        }
    }
}

/// Split a day's unlabelled browser and Slack events by the owner's
/// rules: the `(event id, folder)` of every event a rule settles, and the
/// positions in `rows` of the events left for a guess.
pub fn split_pending(rules: &Vec<Rule>, rows: &Vec<RouteRow>) -> (r: (Vec<(i64, String)>, Vec<usize>))
    ensures
        r.0@.map_values(|h: (i64, String)| (h.0, h.1@)) == hits_of(rules@, rows@),
        r.1@.map_values(|i: usize| i as int) == waiting_of(rules@, rows@),
{
    let mut hits: Vec<(i64, String)> = Vec::new();
    let mut waiting: Vec<usize> = Vec::new();
    let mut i: usize = 0;
    while i < rows.len()
        invariant
            i <= rows@.len(),
            hits@.map_values(|h: (i64, String)| (h.0, h.1@)) == hits_of(rules@, rows@.take(i as int)),
            waiting@.map_values(|k: usize| k as int) == waiting_of(rules@, rows@.take(i as int)),
        decreases rows@.len() - i,
    {
        assert(rows@.take(i + 1).drop_last() =~= rows@.take(i as int));
        assert(rows@.take(i + 1).last() == rows@[i as int]);
        let ghost hb = hits@;
        let ghost wb = waiting@;
        match matching_rule(rules, &rows[i]) {
            Some(f) => {
                hits.push((rows[i].id, f));
                assert(hits@.map_values(|h: (i64, String)| (h.0, h.1@)) =~= hb.map_values(
                    |h: (i64, String)| (h.0, h.1@),
                ).push((rows@[i as int].id, rule_folder(rules@, rows@[i as int])->0)));
            },
            None => {
                waiting.push(i);
                assert(waiting@.map_values(|k: usize| k as int) =~= wb.map_values(|k: usize| k as int).push(
                    i as int,
                ));
            },
        }
        i = i + 1;
    }
    assert(rows@.take(rows@.len() as int) =~= rows@);
    (hits, waiting)
}

/// The ids of the events a fresh rule of `kind` on `pattern` covers, in
/// order: the rule is applied to them at once.
pub open spec fn rule_targets_spec(kind: RuleKind, pattern: Seq<char>, rows: Seq<RouteRow>) -> Seq<i64> {
    rows.filter(|r: RouteRow| rule_matches(kind, pattern, r)).map_values(|r: RouteRow| r.id)
}

/// The ids of the events among `rows` that a fresh rule of `kind` on
/// `pattern` covers.
pub fn rule_targets(kind: RuleKind, pattern: &str, rows: &Vec<RouteRow>) -> (r: Vec<i64>)
    ensures
        r@ == rule_targets_spec(kind, pattern@, rows@),
{
    let ghost f = |r: RouteRow| rule_matches(kind, pattern@, r);
    let mut out: Vec<i64> = Vec::new();
    let mut i: usize = 0;
    while i < rows.len()
        invariant
            i <= rows@.len(),
            f == (|r: RouteRow| rule_matches(kind, pattern@, r)),
            out@ == rows@.take(i as int).filter(f).map_values(|r: RouteRow| r.id),
        decreases rows@.len() - i,
    {
        proof {
            assert(rows@.take(i + 1) =~= rows@.take(i as int).push(rows@[i as int]));
            rows@.take(i as int).lemma_filter_push(rows@[i as int], f);
        }
        let ghost before = out@;
        if kind_matches(kind, pattern, &rows[i]) {
            out.push(rows[i].id);
            assert(out@ =~= before.push(rows@[i as int].id));
            assert(rows@.take(i + 1).filter(f) =~= rows@.take(i as int).filter(f).push(rows@[i as int]));
            assert(rows@.take(i + 1).filter(f).map_values(|r: RouteRow| r.id) =~= before.push(
                rows@[i as int].id,
            ));
        }
        i = i + 1;
    }
    assert(rows@.take(rows@.len() as int) =~= rows@);
    out
}

/// What a new rule of `kind` keys on, read off `row`.
pub fn rule_pattern(row: &RouteRow, kind: RuleKind) -> (r: Result<String, String>)
    ensures
        match kind {
            RuleKind::Domain => match row.details {
                Some(d) if domain_spec(d@) is Some => r matches Ok(p) && Some(p@) == domain_spec(d@),
                _ => r matches Err(m) && m@ == "event has no URL to key a domain rule on"@,
            },
            RuleKind::SlackChannel => r matches Ok(p) && p@ == row.title@,
            RuleKind::Container => match row.container {
                Some(c) => r matches Ok(p) && p@ == c@,
                None => r matches Err(m) && m@ == "event has no container to key a rule on"@,
            },
        },
{
    match kind {
        RuleKind::Domain => {
            let d = match &row.details {
                Some(d) => domain_of(d.as_str()),
                None => None,
            };
            match d {
                Some(h) => Ok(h),
                None => Err("event has no URL to key a domain rule on".to_owned()),
            }
        },
        RuleKind::SlackChannel => Ok(row.title.clone()),
        RuleKind::Container => match &row.container {
            Some(c) => Ok(c.clone()),
            None => Err("event has no container to key a rule on".to_owned()),
        },
    }
}

/// A hand label must name an existing project: the folder, trimmed, must
/// be one of `keys`.
pub fn check_label_folder(folder: &str, keys: &Vec<String>) -> (r: Result<String, String>)
    ensures
        (trim(folder@).len() > 0 && exists|i: int| 0 <= i < keys@.len() && #[trigger] keys@[i]@ == trim(folder@))
            ==> (r matches Ok(f) && f@ == trim(folder@)),
        !(trim(folder@).len() > 0 && exists|i: int| 0 <= i < keys@.len() && #[trigger] keys@[i]@ == trim(folder@))
            ==> (r matches Err(m) && m@ == "Project no longer exists"@),
{
    let f = crate::text::trim_owned(folder);
    if f.as_str().is_empty() {
        return Err("Project no longer exists".to_owned());
    }
    let mut i: usize = 0;
    while i < keys.len()
        invariant
            i <= keys@.len(),
            f@ == trim(folder@),
            f@.len() > 0,
            forall|j: int| 0 <= j < i ==> #[trigger] keys@[j]@ != f@,
        decreases keys@.len() - i,
    {
        if str_eq(keys[i].as_str(), f.as_str()) {
            assert(keys@[i as int]@ == trim(folder@));
            return Ok(f);
        }
        i = i + 1;
    }
    Err("Project no longer exists".to_owned())
}

/// Counts from a routing pass that applied `rule_hits` rule labels and
/// `guesses` model guesses.
pub fn route_stats(rule_hits: usize, guesses: usize) -> (s: RouteStats)
    ensures
        s.rules_applied == rule_hits,
        s.guesses_applied == guesses,
{
    RouteStats { rules_applied: rule_hits, guesses_applied: guesses }
}

/// How far (5 minutes) a work event may lie from an unlabelled one and
/// still bracket it.
pub const STRETCH: i128 = 300_000_000_000;

/// Whether some work activity lies at or before `t` and some at or after
/// it, each within `STRETCH`: `t` sits inside a stretch of work, not at
/// its edge.
pub open spec fn bracketed(t: int, activity: Seq<i128>) -> bool {
    &&& exists|i: int| 0 <= i < activity.len() && #[trigger] activity[i] <= t && t - activity[i] <= STRETCH
    &&& exists|j: int| 0 <= j < activity.len() && #[trigger] activity[j] >= t && activity[j] - t <= STRETCH
}

/// Whether instant `t` (nanoseconds) sits inside a stretch of the work
/// activity at instants `activity`.
pub fn brackets(t: i128, activity: &Vec<i128>) -> (r: bool)
    requires
        crate::instant::in_range(t as int),
        forall|i: int| 0 <= i < activity@.len() ==> crate::instant::in_range(#[trigger] activity@[i] as int),
    ensures
        r == bracketed(t as int, activity@),
{
    let mut before = false;
    let mut after = false;
    let mut i: usize = 0;
    while i < activity.len()
        invariant
            i <= activity@.len(),
            crate::instant::in_range(t as int),
            forall|x: int| 0 <= x < activity@.len() ==> crate::instant::in_range(#[trigger] activity@[x] as int),
            before == exists|x: int| 0 <= x < i && #[trigger] activity@[x] <= t && t - activity@[x] <= STRETCH,
            after == exists|x: int| 0 <= x < i && #[trigger] activity@[x] >= t && activity@[x] - t <= STRETCH,
        decreases activity@.len() - i,
    {
        let a = activity[i];
        assert(crate::instant::in_range(activity@[i as int] as int));
        if a <= t && t - a <= STRETCH {
            before = true;
        }
        if a >= t && a - t <= STRETCH {
            after = true;
        }
        i = i + 1;
    }
    before && after
}


/// A project folder pinned to a customer (or to none).
#[derive(Debug, Clone)]
pub struct FolderPin {
    pub folder: String,
    pub customer: Option<String>,
}

/// Whether `pin` belongs to customer `c`.
pub open spec fn pinned_to(pin: FolderPin, c: Seq<char>) -> bool {
    pin.customer matches Some(x) && x@ == c
}

/// The folders pinned to customer `c`, in registry order.
pub open spec fn folders_of(pins: Seq<FolderPin>, c: Seq<char>) -> Seq<Seq<char>> {
    pins.filter(|p: FolderPin| pinned_to(p, c)).map_values(|p: FolderPin| p.folder@)
}

pub open spec fn texts(v: Seq<String>) -> Seq<Seq<char>> {
    v.map_values(|s: String| s@)
}

/// The folders a model may pick for an event: when the event's container
/// names exactly one customer (`customer`), that customer's pinned
/// folders; otherwise every project key in `all`.
pub fn narrowed_options(pins: &Vec<FolderPin>, customer: Option<&str>, all: &Vec<String>) -> (r: Vec<
    String,
>)
    ensures
        texts(r@) == match customer {
            Some(c) => folders_of(pins@, c@),
            None => texts(all@),
        },
{
    let mut out: Vec<String> = Vec::new();
    match customer {
        Some(c) => {
            let ghost f = |p: FolderPin| pinned_to(p, c@);
            let mut i: usize = 0;
            while i < pins.len()
                invariant
                    i <= pins@.len(),
                    f == (|p: FolderPin| pinned_to(p, c@)),
                    texts(out@) == pins@.take(i as int).filter(f).map_values(
                        |p: FolderPin| p.folder@,
                    ),
                decreases pins@.len() - i,
            {
                proof {
                    assert(pins@.take(i + 1) =~= pins@.take(i as int).push(pins@[i as int]));
                    pins@.take(i as int).lemma_filter_push(pins@[i as int], f);
                }
                let ghost before = out@;
                let hit = match &pins[i].customer {
                    Some(x) => str_eq(x.as_str(), c),
                    None => false,
                };
                if hit {
                    out.push(pins[i].folder.clone());
                    assert(texts(out@) =~= texts(before).push(pins@[i as int].folder@));
                } else {
                    assert(texts(out@) =~= texts(before));
                }
                i = i + 1;
            }
            assert(pins@.take(pins@.len() as int) =~= pins@);
        },
        None => {
            let mut i: usize = 0;
            while i < all.len()
                invariant
                    i <= all@.len(),
                    texts(out@) == texts(all@.take(i as int)),
                decreases all@.len() - i,
            {
                let ghost before = out@;
                out.push(all[i].clone());
                assert(texts(out@) =~= texts(before).push(all@[i as int]@));
                assert(all@.take(i + 1) =~= all@.take(i as int).push(all@[i as int]));
                assert(texts(all@.take(i + 1)) =~= texts(all@.take(i as int)).push(
                    all@[i as int]@,
                ));
                i = i + 1;
            }
            assert(all@.take(all@.len() as int) =~= all@);
        },
    }
    out
}

/// The `project_path` an event routed to `folder` is given: the work
/// prefix, a slash and the folder; the bare folder when no prefix is set.
pub fn folder_path(prefix: Option<&str>, folder: &str) -> (r: String)
    ensures
        r@ == match prefix {
            Some(p) => p@ + "/"@ + folder@,
            None => folder@,
        },
{
    match prefix {
        Some(p) => {
            let head = concat(p, "/");
            proof {
                reveal_strlit("/");
            }
            concat(head.as_str(), folder)
        },
        None => folder.to_owned(),
    }
}

/// Where an event still unlabelled at the end of a day's routing goes:
/// to `dominant`, the project the work activity around `t` most often
/// names, when `t` sits inside a stretch of that activity and the project
/// is one of the event's `options`; otherwise nowhere, and the event
/// becomes noise.
pub fn absorb_target(
    t: i128,
    activity: &Vec<i128>,
    dominant: Option<String>,
    options: &Vec<String>,
) -> (r: Option<String>)
    requires
        crate::instant::in_range(t as int),
        forall|i: int| 0 <= i < activity@.len() ==> crate::instant::in_range(#[trigger] activity@[i] as int),
    ensures
        r == (if bracketed(t as int, activity@) && (dominant matches Some(k) && texts(
            options@,
        ).contains(k@)) {
            dominant
        } else {
            None
        }),
{
    if !brackets(t, activity) {
        return None;
    }
    match dominant {
        Some(k) => {
            let mut i: usize = 0;
            while i < options.len()
                invariant
                    i <= options@.len(),
                    dominant == Some(k),
                    bracketed(t as int, activity@),
                    forall|j: int| 0 <= j < i ==> options@[j]@ != k@,
                decreases options@.len() - i,
            {
                if str_eq(options[i].as_str(), k.as_str()) {
                    assert(texts(options@)[i as int] == k@);
                    return Some(k);
                }
                i = i + 1;
            }
            assert(!texts(options@).contains(k@)) by {
                if texts(options@).contains(k@) {
                    let j = choose|j: int| 0 <= j < texts(options@).len() && texts(options@)[j] == k@;
                    assert(options@[j]@ == k@);
                }
            }
            None
        },
        None => None,
    }
}

} // verus!
