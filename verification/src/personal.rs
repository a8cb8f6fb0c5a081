//! Personal/work classification for blocks.
//!
//! At infer time a block's dominant `project_path` decides whether the
//! block is personal. Personal blocks are dimmed in review, skipped by the
//! estimator and kept out of the Tempo sync.
//!
//! The rules (`personal.toml`) hold `work` and `personal` patterns.
//! Resolution order, first match wins:
//!
//! 1. no `project_path` → **work** (calendar, GitHub and Jira blocks carry
//!    no working directory but are billable);
//! 2. matches a `work` pattern → **work**;
//! 3. matches a `personal` pattern → **personal**;
//! 4. default: under `~/Desktop/Work` → **work**, else **personal**.
//!
//! Patterns are a tiny glob dialect: a literal prefix optionally followed
//! by `/**` (any depth) or `/*` (exactly one segment); `~/` expands to the
//! home directory.
use vstd::prelude::*;

use crate::paths::{home_dir, join, join_path, opt_view};
use crate::text::{
    chars_of, concat, ends_with, starts_with, str_eq, string_of, trim_end_char, trim_start_char,
    window_ends_with, window_starts_with,
};

verus! {

/// On-disk shape of `personal.toml`.
#[derive(Debug, Clone, Default)]
pub struct ConfigFile {
    pub work: Vec<String>,
    pub personal: Vec<String>,
}

/// Loaded classification rules. Cheap to clone; load once per pass.
#[derive(Debug, Clone)]
pub struct PersonalConfig {
    pub work_patterns: Vec<String>,
    pub personal_patterns: Vec<String>,
    /// Built-in default: anything under this prefix counts as work even
    /// without a config file.
    pub default_work_prefix: Option<String>,
}

/// `s` without its first `n` characters (empty when it has fewer).
pub open spec fn skip(s: Seq<char>, n: int) -> Seq<char> {
    if n <= s.len() {
        s.subrange(n, s.len() as int)
    } else {
        Seq::<char>::empty()
    }
}

/// Whether `c` occurs in `s`.
pub open spec fn has_char(s: Seq<char>, c: char) -> bool {
    exists|i: int| 0 <= i < s.len() && s[i] == c
}

/// `~/rest` expanded under the home directory; anything else unchanged.
pub open spec fn expand_home(p: Seq<char>, home: Option<Seq<char>>) -> Seq<char> {
    match home {
        Some(h) if starts_with(p, "~/"@) => join(h, p.subrange(2, p.len() as int)),
        _ => p,
    }
}

/// Path-aware prefix test: `prefix` (trailing `/` ignored) must end at a
/// segment boundary of `path`, so `/foo/bar` is not under `/foo/ba`.
pub open spec fn path_under(path: Seq<char>, prefix: Seq<char>) -> bool {
    let p = trim_end_char(prefix, '/');
    path == prefix || (starts_with(path, p) && path.len() > p.len() && path[p.len() as int] == '/')
}

/// Whether an already expanded pattern matches `path`.
pub open spec fn pattern_matches(pat: Seq<char>, path: Seq<char>) -> bool {
    if ends_with(pat, "/**"@) {
        path_under(path, pat.subrange(0, pat.len() - 3))
    } else if ends_with(pat, "/*"@) {
        let prefix = pat.subrange(0, pat.len() - 2);
        let rest = trim_start_char(skip(path, prefix.len() as int), '/');
        path_under(path, prefix) && rest.len() > 0 && !has_char(rest, '/')
    } else {
        path == pat || path_under(path, pat)
    }
}

/// Whether `pattern`, with `~/` expanded under `home`, matches `path`.
pub open spec fn glob_matches(pattern: Seq<char>, path: Seq<char>, home: Option<Seq<char>>) -> bool {
    pattern_matches(expand_home(pattern, home), path)
}

pub open spec fn strings_view(v: Seq<String>) -> Seq<Seq<char>> {
    v.map_values(|s: String| s@)
}

/// Whether some pattern of `pats` matches `path`.
pub open spec fn any_matches(pats: Seq<Seq<char>>, path: Seq<char>, home: Option<Seq<char>>) -> bool {
    exists|i: int| 0 <= i < pats.len() && glob_matches(#[trigger] pats[i], path, home)
}

/// Whether a block whose dominant working directory is `project_path` is
/// personal, under rules `cfg` and home directory `home`.
pub open spec fn is_personal(
    cfg: PersonalConfig,
    project_path: Option<Seq<char>>,
    home: Option<Seq<char>>,
) -> bool {
    match project_path {
        None => false,
        Some(p) => {
            let path = expand_home(p, home);
            if any_matches(strings_view(cfg.work_patterns@), path, home) {
                false
            } else if any_matches(strings_view(cfg.personal_patterns@), path, home) {
                true
            } else {
                match cfg.default_work_prefix {
                    Some(prefix) => !path_under(path, prefix@),
                    None => false,
                }
            }
        },
    }
}

/// The built-in work prefix: `Desktop/Work` under the home directory.
pub open spec fn default_prefix(home: Option<Seq<char>>) -> Option<Seq<char>> {
    match home {
        Some(h) => Some(join(h, "Desktop/Work"@)),
        None => None,
    }
}

pub open spec fn opt_string_view(o: Option<String>) -> Option<Seq<char>> {
    match o {
        Some(s) => Some(s@),
        None => None,
    }
}

/// `p` with `~/` expanded under `home`.
pub fn expand_home_in(p: &str, home: Option<&str>) -> (r: String)
    ensures
        r@ == expand_home(p@, opt_view(home)),
{
    match home {
        Some(h) => {
            let v = chars_of(p);
            if v.len() >= 2 && v[0] == '~' && v[1] == '/' {
                proof {
                    reveal_strlit("~/");
                    assert(v@.subrange(0, 2) =~= "~/"@);
                }
                let rest = string_of(v.as_slice(), 2, v.len());
                join_path(h, rest.as_str())
            } else {
                proof {
                    reveal_strlit("~/");
                    if starts_with(p@, "~/"@) {
                        assert(p@.subrange(0, 2)[0] == '~');
                        assert(p@.subrange(0, 2)[1] == '/');
                    }
                }
                p.to_owned()
            }
        },
        None => p.to_owned(),
    }
}

/// The length of `v[0..hi]` once trailing `c`s are dropped.
fn trim_end_char_len(v: &Vec<char>, hi: usize, c: char) -> (r: usize)
    requires
        hi <= v@.len(),
    ensures
        r <= hi,
        v@.subrange(0, r as int) == trim_end_char(v@.subrange(0, hi as int), c),
{
    let mut b = hi;
    while b > 0 && v[b - 1] == c
        invariant
            b <= hi <= v@.len(),
            trim_end_char(v@.subrange(0, hi as int), c) == trim_end_char(v@.subrange(0, b as int), c),
        decreases b,
    {
        assert(v@.subrange(0, b as int).drop_last() =~= v@.subrange(0, b - 1));
        b = b - 1;
    }
    proof {
        r_end_fixed(v@.subrange(0, b as int), c);
    }
    b
}

proof fn r_end_fixed(s: Seq<char>, c: char)
    requires
        s.len() == 0 || s.last() != c,
    ensures
        trim_end_char(s, c) == s,
{
}

/// The start of `v[lo..hi]` once leading `c`s are dropped.
fn trim_start_char_from(v: &Vec<char>, lo: usize, hi: usize, c: char) -> (r: usize)
    requires
        lo <= hi <= v@.len(),
    ensures
        lo <= r <= hi,
        v@.subrange(r as int, hi as int) == trim_start_char(v@.subrange(lo as int, hi as int), c),
{
    let mut a = lo;
    while a < hi && v[a] == c
        invariant
            lo <= a <= hi <= v@.len(),
            trim_start_char(v@.subrange(lo as int, hi as int), c) == trim_start_char(
                v@.subrange(a as int, hi as int),
                c,
            ),
        decreases hi - a,
    {
        assert(v@.subrange(a as int, hi as int).drop_first() =~= v@.subrange(a + 1, hi as int));
        a = a + 1;
    }
    a
}

/// Whether `path` is `prefix` or lies under it at a segment boundary.
#[verifier::loop_isolation(false)]
pub fn path_starts_with(path: &str, prefix: &str) -> (r: bool)
    ensures
        r == path_under(path@, prefix@),
{
    if str_eq(path, prefix) {
        return true;
    }
    let v = chars_of(path);
    let q = chars_of(prefix);
    let n = trim_end_char_len(&q, q.len(), '/');
    assert(q@.subrange(0, q@.len() as int) =~= q@);
    let ghost p = q@.subrange(0, n as int);
    if n >= v.len() {
        return false;
    }
    let mut k: usize = 0;
    while k < n
        invariant
            k <= n < v@.len(),
            n <= q@.len(),
            v@ == path@,
            q@ == prefix@,
            p == q@.subrange(0, n as int),
            forall|j: int| 0 <= j < k ==> v@[j] == q@[j],
        decreases n - k,
    {
        if v[k] != q[k] {
            assert(v@.subrange(0, n as int)[k as int] != p[k as int]);
            return false;
        }
        k = k + 1;
    }
    assert(v@.subrange(0, n as int) =~= p);
    v[n] == '/'
}

/// Whether an already expanded pattern matches `path`.
#[verifier::loop_isolation(false)]
fn pattern_matches_exec(pat: &str, path: &str) -> (r: bool)
    ensures
        r == pattern_matches(pat@, path@),
{
    let v = chars_of(pat);
    proof {
        reveal_strlit("/**");
        reveal_strlit("/*");
    }
    let stars2 = chars_of("/**");
    let stars1 = chars_of("/*");
    assert(v@.subrange(0, v@.len() as int) =~= v@);
    if window_ends_with(&v, 0, v.len(), &stars2) {
        let prefix = string_of(v.as_slice(), 0, v.len() - 3);
        return path_starts_with(path, prefix.as_str());
    }
    if window_ends_with(&v, 0, v.len(), &stars1) {
        let prefix = string_of(v.as_slice(), 0, v.len() - 2);
        if !path_starts_with(path, prefix.as_str()) {
            return false;
        }
        let w = chars_of(path);
        let plen = v.len() - 2;
        let lo = if plen <= w.len() {
            plen
        } else {
            w.len()
        };
        assert(skip(path@, plen as int) =~= w@.subrange(lo as int, w@.len() as int));
        let a = trim_start_char_from(&w, lo, w.len(), '/');
        assert(!ends_with(pat@, "/**"@));
        assert(ends_with(pat@, "/*"@));
        assert(prefix@ == pat@.subrange(0, pat@.len() - 2));
        assert(path_under(path@, prefix@));
        assert(w@.subrange(a as int, w@.len() as int) == trim_start_char(
            skip(path@, prefix@.len() as int),
            '/',
        ));
        if a == w.len() {
            return false;
        }
        let mut k = a;
        while k < w.len()
            invariant
                a <= k <= w@.len(),
                forall|j: int| a <= j < k ==> w@[j] != '/',
            decreases w@.len() - k,
        {
            if w[k] == '/' {
                assert(w@.subrange(a as int, w@.len() as int)[k - a] == '/');
                return false;
            }
            k = k + 1;
        }
        let ghost rest = w@.subrange(a as int, w@.len() as int);
        assert(!has_char(rest, '/')) by {
            if has_char(rest, '/') {
                let i = choose|i: int| 0 <= i < rest.len() && rest[i] == '/';
                assert(w@[a + i] == '/');
            }
        }
        return true;
    }
    str_eq(path, pat) || path_starts_with(path, pat)
}

/// Whether `pattern` (with `~/` expanded under `home`) matches `path`.
pub fn matches_in(pattern: &str, path: &str, home: Option<&str>) -> (r: bool)
    ensures
        r == glob_matches(pattern@, path@, opt_view(home)),
{
    let pat = expand_home_in(pattern, home);
    pattern_matches_exec(pat.as_str(), path)
}

/// Whether `pattern` matches `path`, with `~/` expanded under the home
/// directory the system reports.
pub fn matches(pattern: &str, path: &str) -> (r: bool)
    ensures
        exists|h: Option<Seq<char>>| r == #[trigger] glob_matches(pattern@, path@, h),
{
    let home = home_dir();
    match &home {
        Some(h) => matches_in(pattern, path, Some(h.as_str())),
        None => matches_in(pattern, path, None),
    }
}

/// Whether some pattern of `pats` matches `path`.
fn any_matches_in(pats: &Vec<String>, path: &str, home: Option<&str>) -> (r: bool)
    ensures
        r == any_matches(strings_view(pats@), path@, opt_view(home)),
{
    let ghost sv = strings_view(pats@);
    let mut i: usize = 0;
    while i < pats.len()
        invariant
            i <= pats@.len(),
            sv == strings_view(pats@),
            forall|j: int| 0 <= j < i ==> !glob_matches(#[trigger] sv[j], path@, opt_view(home)),
        decreases pats@.len() - i,
    {
        if matches_in(pats[i].as_str(), path, home) {
            assert(glob_matches(sv[i as int], path@, opt_view(home)));
            return true;
        }
        i = i + 1;
    }
    false
}

impl PersonalConfig {
    /// Rules with no patterns: the built-in default does the work.
    pub fn default_only_in(home: Option<&str>) -> (c: PersonalConfig)
        ensures
            c.work_patterns@.len() == 0,
            c.personal_patterns@.len() == 0,
            opt_string_view(c.default_work_prefix) == default_prefix(opt_view(home)),
    {
        PersonalConfig {
            work_patterns: Vec::new(),
            personal_patterns: Vec::new(),
            default_work_prefix: match home {
                Some(h) => Some(join_path(h, "Desktop/Work")),
                None => None,
            },
        }
    }

    /// Rules with no patterns, under the home directory the system
    /// reports.
    pub fn default_only() -> (c: PersonalConfig)
        ensures
            c.work_patterns@.len() == 0,
            c.personal_patterns@.len() == 0,
            exists|h: Option<Seq<char>>|
                opt_string_view(c.default_work_prefix) == #[trigger] default_prefix(h),
    {
        let home = home_dir();
        match &home {
            Some(h) => PersonalConfig::default_only_in(Some(h.as_str())),
            None => PersonalConfig::default_only_in(None),
        }
    }

    /// Rules read from the config file; `None` (missing, unreadable or
    /// malformed file) falls back to the built-in default. The caller
    /// reads and parses the file.
    pub fn load(parsed: Option<ConfigFile>) -> (c: PersonalConfig)
        ensures
            match parsed {
                Some(f) => c.work_patterns@ == f.work@ && c.personal_patterns@ == f.personal@,
                None => c.work_patterns@.len() == 0 && c.personal_patterns@.len() == 0,
            },
            exists|h: Option<Seq<char>>|
                opt_string_view(c.default_work_prefix) == #[trigger] default_prefix(h),
    {
        let d = PersonalConfig::default_only();
        match parsed {
            Some(f) => PersonalConfig {
                work_patterns: f.work,
                personal_patterns: f.personal,
                default_work_prefix: d.default_work_prefix,
            },
            None => d,
        }
    }

    /// Whether a block whose dominant working directory is `project_path`
    /// is personal, with `~/` expanded under `home`.
    pub fn classify_in(&self, project_path: Option<&str>, home: Option<&str>) -> (r: bool)
        ensures
            r == is_personal(*self, opt_view(project_path), opt_view(home)),
    {
        let p = match project_path {
            None => {
                return false;
            },
            Some(p) => p,
        };
        let path = expand_home_in(p, home);
        if any_matches_in(&self.work_patterns, path.as_str(), home) {
            return false;
        }
        if any_matches_in(&self.personal_patterns, path.as_str(), home) {
            return true;
        }
        match &self.default_work_prefix {
            Some(prefix) => !path_starts_with(path.as_str(), prefix.as_str()),
            None => false,
        }
    }

    /// Classify a block by its dominant working directory, with `~/`
    /// expanded under the home directory the system reports. No working
    /// directory means work.
    pub fn classify(&self, project_path: Option<&str>) -> (r: bool)
        ensures
            project_path is None ==> !r,
            exists|h: Option<Seq<char>>|
                r == #[trigger] is_personal(*self, opt_view(project_path), h),
    {
        let home = home_dir();
        match &home {
            Some(h) => self.classify_in(project_path, Some(h.as_str())),
            None => self.classify_in(project_path, None),
        }
    }
}

/// Where the rules live: `personal.toml` in the worklog root.
pub fn config_path(env_home: Option<&str>) -> (r: Option<String>)
    ensures
        exists|h: Option<Seq<char>>|
            match #[trigger] crate::paths::root_for(opt_view(env_home), h) {
                Some(root) => r matches Some(s) && s@ == join(root, "personal.toml"@),
                None => r is None,
            },
{
    match crate::paths::Paths::resolve(env_home) {
        Ok(p) => Some(join_path(p.root.as_str(), "personal.toml")),
        Err(_) => None,
    }
}

/// Summary of a reclassify pass: what changed and what did not.
#[derive(Debug, Default)]
pub struct ReclassifyStats {
    pub total: u32,
    pub changed_to_personal: u32,
    pub changed_to_work: u32,
    pub unchanged: u32,
}

/// Count one block of a reclassify pass whose flag was `was_personal`
/// and is now `now_personal`.
pub fn tally(stats: &mut ReclassifyStats, was_personal: bool, now_personal: bool)
    requires
        old(stats).changed_to_personal < u32::MAX,
        old(stats).changed_to_work < u32::MAX,
        old(stats).unchanged < u32::MAX,
    ensures
        final(stats).total == old(stats).total,
        final(stats).unchanged == old(stats).unchanged + (if was_personal == now_personal {
            1int
        } else {
            0
        }),
        final(stats).changed_to_personal == old(stats).changed_to_personal + (if !was_personal
            && now_personal {
            1int
        } else {
            0
        }),
        final(stats).changed_to_work == old(stats).changed_to_work + (if was_personal
            && !now_personal {
            1int
        } else {
            0
        }),
{
    if was_personal == now_personal {
        stats.unchanged = stats.unchanged + 1;
    } else if now_personal {
        stats.changed_to_personal = stats.changed_to_personal + 1;
    } else {
        stats.changed_to_work = stats.changed_to_work + 1;
    }
}

} // verus!
