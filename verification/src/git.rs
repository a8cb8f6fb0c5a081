//! Parsing for the per-block git sidecar: the output of
//! `git log --pretty=format:<RS>%H<FS>%h<FS>%s<FS>%aE<FS>%cI --shortstat`
//! and the GitHub commit link derived from a repo's `origin` URL.
//!
//! Running `git` itself is the caller's job; everything here is a pure
//! function of the text it is handed.
use vstd::prelude::*;

use crate::text::{
    char_index, chars_of, contains, find, find_char, is_ascii_digit, is_digit, is_whitespace,
    lemma_lines_at, lemma_lines_none, lemma_split_char_at, lemma_split_char_none,
    lemma_trim_end_step, lines, split_char, splitn_char, starts_with, string_of, trim, trim_end,
    trim_end_matches, trim_end_matches_window, trim_window, window_contains, window_find,
    window_starts_with,
};

verus! {

/// Field separator inside one commit's header line.
pub const FS: char = '\x1f';

/// Record separator in front of every commit.
pub const RS: char = '\x1e';

/// One commit inside a block's window.
#[derive(Debug, Clone, PartialEq, Eq)]
pub struct CommitEntry {
    pub sha: String,
    pub short_sha: String,
    pub subject: String,
    pub author_email: String,
    /// ISO-8601 with offset (`%cI` from git).
    pub committed_at: String,
    pub files_changed: u32,
    pub insertions: u32,
    pub deletions: u32,
    pub github_url: Option<String>,
}

/// The mathematical content of a [`CommitEntry`].
pub struct CommitView {
    pub sha: Seq<char>,
    pub short_sha: Seq<char>,
    pub subject: Seq<char>,
    pub author_email: Seq<char>,
    pub committed_at: Seq<char>,
    pub files_changed: u32,
    pub insertions: u32,
    pub deletions: u32,
    pub github_url: Option<Seq<char>>,
}

impl View for CommitEntry {
    type V = CommitView;

    open spec fn view(&self) -> CommitView {
        CommitView {
            sha: self.sha@,
            short_sha: self.short_sha@,
            subject: self.subject@,
            author_email: self.author_email@,
            committed_at: self.committed_at@,
            files_changed: self.files_changed,
            insertions: self.insertions,
            deletions: self.deletions,
            github_url: match self.github_url {
                Some(u) => Some(u@),
                None => None,
            },
        }
    }
}

/// The longest run of ASCII digits that ends `s`.
pub open spec fn digit_suffix(s: Seq<char>) -> Seq<char>
    decreases s.len(),
{
    if s.len() > 0 && is_digit(s.last()) {
        digit_suffix(s.drop_last()).push(s.last())
    } else {
        Seq::<char>::empty()
    }
}

/// The decimal value of a run of ASCII digits.
pub open spec fn digits_value(d: Seq<char>) -> nat
    decreases d.len(),
{
    if d.len() == 0 {
        0
    } else {
        digits_value(d.drop_last()) * 10 + ((d.last() as u32) - 48) as nat
    }
}

/// `str::parse::<u32>` on a run of digits, defaulting to 0 when it is
/// empty or does not fit.
pub open spec fn parse_u32_or_zero(d: Seq<char>) -> u32 {
    if d.len() > 0 && digits_value(d) <= u32::MAX {
        digits_value(d) as u32
    } else {
        0
    }
}

/// The count written right before the first `needle` in a shortstat
/// line (`3 files changed` → `3` for `"file"`), or 0.
pub open spec fn count_before(line: Seq<char>, needle: Seq<char>) -> u32 {
    match find(line, needle) {
        Some(idx) => parse_u32_or_zero(digit_suffix(trim_end(line.take(idx)))),
        None => 0,
    }
}

pub open spec fn is_shortstat_line(l: Seq<char>) -> bool {
    contains(l, "file"@) && contains(l, "changed"@)
}

/// The first line that reads like a shortstat, or the empty line.
pub open spec fn first_shortstat(ls: Seq<Seq<char>>) -> Seq<char>
    decreases ls.len(),
{
    if ls.len() == 0 {
        Seq::<char>::empty()
    } else if is_shortstat_line(ls[0]) {
        ls[0]
    } else {
        first_shortstat(ls.drop_first())
    }
}

/// `(files changed, insertions, deletions)` of the shortstat in `tail`.
pub open spec fn shortstat(tail: Seq<char>) -> (u32, u32, u32) {
    let line = first_shortstat(lines(tail));
    (count_before(line, "file"@), count_before(line, "insertion"@), count_before(line, "deletion"@))
}

/// One `RS`-delimited chunk of `git log` output read as a commit, or
/// `None` when it is blank or its header lacks one of the five fields.
pub open spec fn parse_chunk(chunk: Seq<char>) -> Option<CommitView> {
    if trim(chunk).len() == 0 {
        None
    } else {
        let head = match char_index(chunk, '\n') {
            Some(i) => chunk.take(i),
            None => chunk,
        };
        let tail = match char_index(chunk, '\n') {
            Some(i) => chunk.skip(i + 1),
            None => Seq::<char>::empty(),
        };
        let fields = splitn_char(head, FS, 5);
        if fields.len() != 5 {
            None
        } else {
            let (f, i, d) = shortstat(tail);
            Some(
                CommitView {
                    sha: fields[0],
                    short_sha: fields[1],
                    subject: fields[2],
                    author_email: fields[3],
                    committed_at: fields[4],
                    files_changed: f,
                    insertions: i,
                    deletions: d,
                    github_url: None,
                },
            )
        }
    }
}

/// Every chunk that reads as a commit, in order.
pub open spec fn parse_chunks(cs: Seq<Seq<char>>) -> Seq<CommitView>
    decreases cs.len(),
{
    if cs.len() == 0 {
        Seq::<CommitView>::empty()
    } else {
        match parse_chunk(cs[0]) {
            Some(e) => seq![e] + parse_chunks(cs.drop_first()),
            None => parse_chunks(cs.drop_first()),
        }
    }
}

/// The commits listed in a `git log` output.
pub open spec fn parse_log(out: Seq<char>) -> Seq<CommitView> {
    parse_chunks(split_char(out, RS))
}

proof fn lemma_parse_chunks_cons(c: Seq<char>, rest: Seq<Seq<char>>)
    ensures
        parse_chunks(seq![c] + rest) == (match parse_chunk(c) {
            Some(e) => seq![e] + parse_chunks(rest),
            None => parse_chunks(rest),
        }),
{
    assert((seq![c] + rest).drop_first() =~= rest);
}

proof fn lemma_digit_suffix_step(v: Seq<char>, lo: int, d: int, b: int)
    requires
        0 <= lo < d <= b <= v.len(),
        is_digit(v[d - 1]),
    ensures
        digit_suffix(v.subrange(lo, d)) + v.subrange(d, b) == digit_suffix(v.subrange(lo, d - 1))
            + v.subrange(d - 1, b),
{
    assert(v.subrange(lo, d).drop_last() =~= v.subrange(lo, d - 1));
    assert(digit_suffix(v.subrange(lo, d)) == digit_suffix(v.subrange(lo, d - 1)).push(v[d - 1]));
    assert(digit_suffix(v.subrange(lo, d - 1)).push(v[d - 1]) + v.subrange(d, b) =~= digit_suffix(
        v.subrange(lo, d - 1),
    ) + v.subrange(d - 1, b));
}

proof fn lemma_digits_value_step(v: Seq<char>, d: int, k: int)
    requires
        0 <= d <= k < v.len(),
    ensures
        digits_value(v.subrange(d, k + 1)) == digits_value(v.subrange(d, k)) * 10 + ((v[k] as u32)
            - 48) as nat,
{
    assert(v.subrange(d, k + 1).drop_last() =~= v.subrange(d, k));
}

proof fn lemma_first_shortstat_cons(l: Seq<char>, rest: Seq<Seq<char>>)
    ensures
        first_shortstat(seq![l] + rest) == (if is_shortstat_line(l) {
            l
        } else {
            first_shortstat(rest)
        }),
{
    assert((seq![l] + rest).drop_first() =~= rest);
}

/// The end of `v[lo..idx]` once its trailing whitespace is dropped.
fn skip_ws_back(v: &Vec<char>, lo: usize, idx: usize) -> (b: usize)
    requires
        lo <= idx <= v@.len(),
    ensures
        lo <= b <= idx,
        trim_end(v@.subrange(lo as int, idx as int)) == v@.subrange(lo as int, b as int),
{
    let mut b = idx;
    while b > lo && is_whitespace(v[b - 1])
        invariant
            lo <= b <= idx <= v@.len(),
            trim_end(v@.subrange(lo as int, idx as int)) == trim_end(
                v@.subrange(lo as int, b as int),
            ),
        decreases b - lo,
    {
        proof {
            lemma_trim_end_step(v@, lo as int, b as int);
        }
        b = b - 1;
    }
    b
}

/// The start of the run of digits that ends `v[lo..b]`.
fn digit_run_back(v: &Vec<char>, lo: usize, b: usize) -> (d: usize)
    requires
        lo <= b <= v@.len(),
    ensures
        lo <= d <= b,
        digit_suffix(v@.subrange(lo as int, b as int)) == v@.subrange(d as int, b as int),
        forall|j: int| d <= j < b ==> is_digit(#[trigger] v@[j]),
{
    let mut d = b;
    assert(v@.subrange(b as int, b as int) =~= Seq::<char>::empty());
    assert(digit_suffix(v@.subrange(lo as int, b as int)) =~= digit_suffix(
        v@.subrange(lo as int, d as int),
    ) + v@.subrange(d as int, b as int));
    while d > lo && is_ascii_digit(v[d - 1])
        invariant
            lo <= d <= b <= v@.len(),
            digit_suffix(v@.subrange(lo as int, b as int)) == digit_suffix(
                v@.subrange(lo as int, d as int),
            ) + v@.subrange(d as int, b as int),
            forall|j: int| d <= j < b ==> is_digit(#[trigger] v@[j]),
        decreases d - lo,
    {
        proof {
            lemma_digit_suffix_step(v@, lo as int, d as int, b as int);
        }
        d = d - 1;
    }
    assert(digit_suffix(v@.subrange(lo as int, d as int)) =~= Seq::<char>::empty());
    assert(digit_suffix(v@.subrange(lo as int, b as int)) =~= v@.subrange(d as int, b as int));
    d
}

/// `parse_u32_or_zero` of the digits `v[d..b]`.
fn parse_digits(v: &Vec<char>, d: usize, b: usize) -> (r: u32)
    requires
        d <= b <= v@.len(),
        forall|j: int| d <= j < b ==> is_digit(#[trigger] v@[j]),
    ensures
        r == parse_u32_or_zero(v@.subrange(d as int, b as int)),
{
    let mut acc: u64 = 0;
    let mut over = false;
    let mut k = d;
    assert(v@.subrange(d as int, d as int) =~= Seq::<char>::empty());
    while k < b
        invariant
            d <= k <= b <= v@.len(),
            forall|j: int| d <= j < b ==> is_digit(#[trigger] v@[j]),
            !over ==> acc == digits_value(v@.subrange(d as int, k as int)) && acc <= u32::MAX,
            over ==> digits_value(v@.subrange(d as int, k as int)) > u32::MAX,
        decreases b - k,
    {
        proof {
            lemma_digits_value_step(v@, d as int, k as int);
        }
        assert(is_digit(v@[k as int]));
        if !over {
            let digit = (v[k] as u32) - 48;
            acc = acc * 10 + (digit as u64);
            if acc > 4294967295 {
                over = true;
            }
        }
        k = k + 1;
    }
    if over || d == b {
        0
    } else {
        acc as u32
    }
}

/// `count_before` over the window `v[lo..hi]`.
#[verifier::rlimit(40)]
fn extract_count(v: &Vec<char>, lo: usize, hi: usize, needle: &Vec<char>) -> (r: u32)
    requires
        lo <= hi <= v@.len(),
    ensures
        r == count_before(v@.subrange(lo as int, hi as int), needle@),
{
    let ghost line = v@.subrange(lo as int, hi as int);
    let idx = match window_find(v, lo, hi, needle) {
        Some(i) => i,
        None => {
            return 0;
        },
    };
    assert(line.take(idx - lo) =~= v@.subrange(lo as int, idx as int));
    let b = skip_ws_back(v, lo, idx);
    let d = digit_run_back(v, lo, b);
    parse_digits(v, d, b)
}

/// The first line of `v[pos..hi]` as a window `[pos, e)` (a `"\r\n"`
/// ending counting as one break), and where the next line starts.
pub(crate) fn next_line(v: &Vec<char>, pos: usize, hi: usize) -> (r: (usize, usize))
    requires
        pos < hi <= v@.len(),
    ensures
        pos <= r.0 <= r.1 <= hi,
        pos < r.1,
        lines(v@.subrange(pos as int, hi as int)) == seq![v@.subrange(pos as int, r.0 as int)]
            + lines(v@.subrange(r.1 as int, hi as int)),
{
    let ghost s = v@.subrange(pos as int, hi as int);
    match find_char(v, '\n', pos, hi) {
        Some(i) => {
            proof {
                lemma_lines_at(s, i - pos);
                assert(s.take(i - pos) =~= v@.subrange(pos as int, i as int));
                assert(s.skip(i - pos + 1) =~= v@.subrange(i + 1, hi as int));
            }
            if i > pos && v[i - 1] == '\r' {
                assert(v@.subrange(pos as int, i as int).drop_last() =~= v@.subrange(
                    pos as int,
                    i - 1,
                ));
                (i - 1, i + 1)
            } else {
                (i, i + 1)
            }
        },
        None => {
            proof {
                lemma_lines_none(s);
                assert(v@.subrange(hi as int, hi as int) =~= Seq::<char>::empty());
                lemma_lines_none(v@.subrange(hi as int, hi as int));
                assert(lines(v@.subrange(hi as int, hi as int)) =~= Seq::<Seq<char>>::empty());
                assert(seq![s] + Seq::<Seq<char>>::empty() =~= seq![s]);
            }
            (hi, hi)
        },
    }
}

/// The first shortstat-looking line of `v[lo..hi]`, as a window.
fn shortstat_line(v: &Vec<char>, lo: usize, hi: usize) -> (r: (usize, usize))
    requires
        lo <= hi <= v@.len(),
    ensures
        lo <= r.0 <= r.1 <= hi,
        v@.subrange(r.0 as int, r.1 as int) == first_shortstat(
            lines(v@.subrange(lo as int, hi as int)),
        ),
{
    let file = chars_of("file");
    let changed = chars_of("changed");
    let mut pos = lo;
    while pos < hi
        invariant
            lo <= pos <= hi <= v@.len(),
            file@ == "file"@,
            changed@ == "changed"@,
            first_shortstat(lines(v@.subrange(lo as int, hi as int))) == first_shortstat(
                lines(v@.subrange(pos as int, hi as int)),
            ),
        decreases hi - pos,
    {
        let (e, next) = next_line(v, pos, hi);
        proof {
            lemma_first_shortstat_cons(
                v@.subrange(pos as int, e as int),
                lines(v@.subrange(next as int, hi as int)),
            );
        }
        if window_contains(v, pos, e, &file) && window_contains(v, pos, e, &changed) {
            return (pos, e);
        }
        pos = next;
    }
    assert(v@.subrange(pos as int, hi as int) =~= Seq::<char>::empty());
    proof {
        lemma_lines_none(v@.subrange(pos as int, hi as int));
    }
    assert(v@.subrange(hi as int, hi as int) =~= Seq::<char>::empty());
    (hi, hi)
}

/// `(files changed, insertions, deletions)` of the shortstat in `v[lo..hi]`.
fn parse_shortstat(v: &Vec<char>, lo: usize, hi: usize) -> (r: (u32, u32, u32))
    requires
        lo <= hi <= v@.len(),
    ensures
        r == shortstat(v@.subrange(lo as int, hi as int)),
{
    let (a, b) = shortstat_line(v, lo, hi);
    let file = chars_of("file");
    let ins = chars_of("insertion");
    let del = chars_of("deletion");
    (extract_count(v, a, b, &file), extract_count(v, a, b, &ins), extract_count(v, a, b, &del))
}

/// The four `FS` positions of the header `v[lo..he]`, when it has the
/// five fields a commit needs.
fn header_fields(v: &Vec<char>, lo: usize, he: usize) -> (r: Option<(usize, usize, usize, usize)>)
    requires
        lo <= he <= v@.len(),
    ensures
        match r {
            Some((f1, f2, f3, f4)) => lo <= f1 && f1 < f2 && f2 < f3 && f3 < f4 && f4 < he
                && splitn_char(v@.subrange(lo as int, he as int), FS, 5) == seq![
                v@.subrange(lo as int, f1 as int),
                v@.subrange(f1 + 1, f2 as int),
                v@.subrange(f2 + 1, f3 as int),
                v@.subrange(f3 + 1, f4 as int),
                v@.subrange(f4 + 1, he as int),
            ],
            None => splitn_char(v@.subrange(lo as int, he as int), FS, 5).len() != 5,
        },
{
    let ghost head = v@.subrange(lo as int, he as int);
    let f1 = match find_char(v, FS, lo, he) {
        Some(i) => i,
        None => {
            assert(splitn_char(head, FS, 5) =~= seq![head]);
            return None;
        },
    };
    let ghost h1 = v@.subrange(f1 + 1, he as int);
    assert(head.skip(f1 - lo + 1) =~= h1);
    assert(head.take(f1 - lo) =~= v@.subrange(lo as int, f1 as int));
    let f2 = match find_char(v, FS, f1 + 1, he) {
        Some(i) => i,
        None => {
            assert(splitn_char(h1, FS, 4) =~= seq![h1]);
            assert(splitn_char(head, FS, 5).len() == 2);
            return None;
        },
    };
    let ghost h2 = v@.subrange(f2 + 1, he as int);
    assert(h1.skip(f2 - f1) =~= h2);
    assert(h1.take(f2 - f1 - 1) =~= v@.subrange(f1 + 1, f2 as int));
    let f3 = match find_char(v, FS, f2 + 1, he) {
        Some(i) => i,
        None => {
            assert(splitn_char(h2, FS, 3) =~= seq![h2]);
            assert(splitn_char(h1, FS, 4).len() == 2);
            assert(splitn_char(head, FS, 5).len() == 3);
            return None;
        },
    };
    let ghost h3 = v@.subrange(f3 + 1, he as int);
    assert(h2.skip(f3 - f2) =~= h3);
    assert(h2.take(f3 - f2 - 1) =~= v@.subrange(f2 + 1, f3 as int));
    let f4 = match find_char(v, FS, f3 + 1, he) {
        Some(i) => i,
        None => {
            assert(splitn_char(h3, FS, 2) =~= seq![h3]);
            assert(splitn_char(h2, FS, 3).len() == 2);
            assert(splitn_char(h1, FS, 4).len() == 3);
            assert(splitn_char(head, FS, 5).len() == 4);
            return None;
        },
    };
    let ghost h4 = v@.subrange(f4 + 1, he as int);
    assert(h3.skip(f4 - f3) =~= h4);
    assert(h3.take(f4 - f3 - 1) =~= v@.subrange(f3 + 1, f4 as int));
    assert(splitn_char(h4, FS, 1) =~= seq![h4]);
    assert(splitn_char(h3, FS, 2) =~= seq![v@.subrange(f3 + 1, f4 as int), h4]);
    assert(splitn_char(h2, FS, 3) =~= seq![
        v@.subrange(f2 + 1, f3 as int),
        v@.subrange(f3 + 1, f4 as int),
        h4,
    ]);
    assert(splitn_char(h1, FS, 4) =~= seq![
        v@.subrange(f1 + 1, f2 as int),
        v@.subrange(f2 + 1, f3 as int),
        v@.subrange(f3 + 1, f4 as int),
        h4,
    ]);
    assert(splitn_char(head, FS, 5) =~= seq![
        v@.subrange(lo as int, f1 as int),
        v@.subrange(f1 + 1, f2 as int),
        v@.subrange(f2 + 1, f3 as int),
        v@.subrange(f3 + 1, f4 as int),
        h4,
    ]);
    Some((f1, f2, f3, f4))
}

/// One chunk `v[lo..hi]` read as a commit.
#[verifier::rlimit(40)]
fn parse_chunk_window(v: &Vec<char>, lo: usize, hi: usize) -> (r: Option<CommitEntry>)
    requires
        lo <= hi <= v@.len(),
    ensures
        match r {
            Some(e) => parse_chunk(v@.subrange(lo as int, hi as int)) == Some(e@),
            None => parse_chunk(v@.subrange(lo as int, hi as int)) is None,
        },
{
    let ghost chunk = v@.subrange(lo as int, hi as int);
    let (ta, tb) = trim_window(v, lo, hi);
    if ta == tb {
        return None;
    }
    let (head_end, tail_start) = match find_char(v, '\n', lo, hi) {
        Some(i) => {
            assert(chunk.take(i - lo) =~= v@.subrange(lo as int, i as int));
            assert(chunk.skip(i - lo + 1) =~= v@.subrange(i + 1, hi as int));
            (i, i + 1)
        },
        None => {
            assert(v@.subrange(hi as int, hi as int) =~= Seq::<char>::empty());
            (hi, hi)
        },
    };
    let (f1, f2, f3, f4) = match header_fields(v, lo, head_end) {
        Some(f) => f,
        None => {
            return None;
        },
    };
    let (files_changed, insertions, deletions) = parse_shortstat(v, tail_start, hi);
    let e = CommitEntry {
        sha: string_of(v.as_slice(), lo, f1),
        short_sha: string_of(v.as_slice(), f1 + 1, f2),
        subject: string_of(v.as_slice(), f2 + 1, f3),
        author_email: string_of(v.as_slice(), f3 + 1, f4),
        committed_at: string_of(v.as_slice(), f4 + 1, head_end),
        files_changed,
        insertions,
        deletions,
        github_url: None,
    };
    Some(e)
}

/// Parse the raw stdout of
/// `git log --pretty=format:<RS>%H<FS>%h<FS>%s<FS>%aE<FS>%cI --shortstat`.
/// Blank chunks and chunks whose header lacks one of the five fields are
/// skipped; a missing shortstat (an empty merge) reads as zero counts.
pub fn parse_log_output(stdout: &str) -> (out: Vec<CommitEntry>)
    ensures
        out@.map_values(|e: CommitEntry| e@) == parse_log(stdout@),
{
    let v = chars_of(stdout);
    let n = v.len();
    let mut out: Vec<CommitEntry> = Vec::new();
    let mut pos: usize = 0;
    assert(v@.subrange(0, n as int) =~= v@);
    assert(out@.map_values(|e: CommitEntry| e@) =~= Seq::<CommitView>::empty());
    assert(Seq::<CommitView>::empty() + parse_log(stdout@) =~= parse_log(stdout@));
    loop
        invariant
            n == v@.len(),
            v@ == stdout@,
            pos <= n,
            out@.map_values(|e: CommitEntry| e@) + parse_chunks(
                split_char(v@.subrange(pos as int, n as int), RS),
            ) == parse_log(stdout@),
        decreases n - pos,
    {
        let ghost s = v@.subrange(pos as int, n as int);
        let ghost before = out@.map_values(|e: CommitEntry| e@);
        match find_char(&v, RS, pos, n) {
            Some(i) => {
                let ghost rest = parse_chunks(split_char(v@.subrange(i + 1, n as int), RS));
                proof {
                    lemma_split_char_at(s, RS, i - pos);
                    assert(s.take(i - pos) =~= v@.subrange(pos as int, i as int));
                    assert(s.skip(i - pos + 1) =~= v@.subrange(i + 1, n as int));
                    lemma_parse_chunks_cons(
                        v@.subrange(pos as int, i as int),
                        split_char(v@.subrange(i + 1, n as int), RS),
                    );
                }
                match parse_chunk_window(&v, pos, i) {
                    Some(e) => {
                        out.push(e);
                        assert(out@.map_values(|e: CommitEntry| e@) =~= before.push(e@));
                        assert(before.push(e@) + rest =~= before + (seq![e@] + rest));
                    },
                    None => {},
                }
                pos = i + 1;
            },
            None => {
                proof {
                    lemma_split_char_none(s, RS);
                    lemma_parse_chunks_cons(s, Seq::<Seq<char>>::empty());
                    assert(parse_chunks(Seq::<Seq<char>>::empty()) =~= Seq::<CommitView>::empty());
                    assert(seq![s] + Seq::<Seq<char>>::empty() =~= seq![s]);
                }
                match parse_chunk_window(&v, pos, n) {
                    Some(e) => {
                        out.push(e);
                        assert(out@.map_values(|e: CommitEntry| e@) =~= before.push(e@));
                        assert(before.push(e@) =~= before + (seq![e@] + Seq::<CommitView>::empty()));
                    },
                    None => {
                        assert(before =~= before + Seq::<CommitView>::empty());
                    },
                }
                return out;
            },
        }
    }
}

/// `s` with `p` stripped from its front, when it starts with it.
pub open spec fn strip_prefix(s: Seq<char>, p: Seq<char>) -> Option<Seq<char>> {
    if starts_with(s, p) {
        Some(s.skip(p.len() as int))
    } else {
        None
    }
}

/// The `OWNER/REPO...` part of a GitHub remote URL in one of the forms
/// `git@github.com:`, `https://github.com/`, `http://github.com/` or
/// `ssh://git@github.com/`, with trailing `/` and `.git` stripped.
pub open spec fn github_owner_repo(remote: Seq<char>) -> Option<Seq<char>> {
    let t = trim(remote);
    let rest = if starts_with(t, "git@github.com:"@) {
        strip_prefix(t, "git@github.com:"@)
    } else if starts_with(t, "https://github.com/"@) {
        strip_prefix(t, "https://github.com/"@)
    } else if starts_with(t, "http://github.com/"@) {
        strip_prefix(t, "http://github.com/"@)
    } else {
        strip_prefix(t, "ssh://git@github.com/"@)
    };
    match rest {
        Some(r) => Some(trim_end_matches(trim_end_matches(r, "/"@), ".git"@)),
        None => None,
    }
}

/// The GitHub commit URL for `sha` in the repo `remote` points at.
pub open spec fn github_commit_url(remote: Seq<char>, sha: Seq<char>) -> Option<Seq<char>> {
    match github_owner_repo(remote) {
        None => None,
        Some(or) => {
            let parts = splitn_char(or, '/', 3);
            if parts.len() < 2 || parts[0].len() == 0 || parts[1].len() == 0 {
                None
            } else {
                Some(
                    "https://github.com/"@ + parts[0] + "/"@ + parts[1] + "/commit/"@ + sha,
                )
            }
        },
    }
}

/// The window of `v` holding `github_owner_repo(v)`.
fn owner_repo_window(v: &Vec<char>) -> (r: Option<(usize, usize)>)
    ensures
        match r {
            Some((a, b)) => a <= b <= v@.len() && github_owner_repo(v@) == Some(
                v@.subrange(a as int, b as int),
            ),
            None => github_owner_repo(v@) is None,
        },
{
    let (a, b) = trim_window(v, 0, v.len());
    assert(v@.subrange(0, v@.len() as int) =~= v@);
    let ghost t = v@.subrange(a as int, b as int);
    let p1 = chars_of("git@github.com:");
    let p2 = chars_of("https://github.com/");
    let p3 = chars_of("http://github.com/");
    let p4 = chars_of("ssh://git@github.com/");
    let start = if window_starts_with(v, a, b, &p1) {
        a + p1.len()
    } else if window_starts_with(v, a, b, &p2) {
        a + p2.len()
    } else if window_starts_with(v, a, b, &p3) {
        a + p3.len()
    } else if window_starts_with(v, a, b, &p4) {
        a + p4.len()
    } else {
        return None;
    };
    assert(t.skip(start - a) =~= v@.subrange(start as int, b as int));
    let slash = chars_of("/");
    let dot_git = chars_of(".git");
    let e1 = trim_end_matches_window(v, start, b, &slash);
    let e2 = trim_end_matches_window(v, start, e1, &dot_git);
    Some((start, e2))
}

/// Build a GitHub commit URL from a remote URL string, or `None` if the
/// remote isn't a GitHub repo.
pub fn derive_github_url(remote_url: &str, sha: &str) -> (r: Option<String>)
    ensures
        match r {
            Some(u) => github_commit_url(remote_url@, sha@) == Some(u@),
            None => github_commit_url(remote_url@, sha@) is None,
        },
{
    let v = chars_of(remote_url);
    let (start, e2) = match owner_repo_window(&v) {
        Some(w) => w,
        None => {
            return None;
        },
    };
    let ghost or = v@.subrange(start as int, e2 as int);
    let f1 = match find_char(&v, '/', start, e2) {
        Some(i) => i,
        None => {
            assert(splitn_char(or, '/', 3) =~= seq![or]);
            return None;
        },
    };
    let ghost o1 = v@.subrange(f1 + 1, e2 as int);
    assert(or.skip(f1 - start + 1) =~= o1);
    assert(or.take(f1 - start) =~= v@.subrange(start as int, f1 as int));
    assert(splitn_char(or, '/', 3) == seq![or.take(f1 - start)] + splitn_char(o1, '/', 2));
    let repo_end = match find_char(&v, '/', f1 + 1, e2) {
        Some(i) => {
            assert(o1.take(i - f1 - 1) =~= v@.subrange(f1 + 1, i as int));
            assert(splitn_char(o1, '/', 2) == seq![o1.take(i - f1 - 1)] + splitn_char(
                o1.skip(i - f1),
                '/',
                1,
            ));
            i
        },
        None => {
            assert(splitn_char(o1, '/', 2) =~= seq![o1]);
            e2
        },
    };
    assert(splitn_char(or, '/', 3)[1] == v@.subrange(f1 + 1, repo_end as int));
    assert(splitn_char(or, '/', 3)[0] == v@.subrange(start as int, f1 as int));
    if f1 == start || repo_end == f1 + 1 {
        return None;
    }
    let owner = string_of(v.as_slice(), start, f1);
    let repo = string_of(v.as_slice(), f1 + 1, repo_end);
    let mut url = String::from_str("https://github.com/");
    url.append(owner.as_str());
    url.append("/");
    url.append(repo.as_str());
    url.append("/commit/");
    url.append(sha);
    Some(url)
}

} // verus!
