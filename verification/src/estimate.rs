//! Estimator input hygiene and reply checking.
//!
//! The estimator (the assistant CLI or a LiteLLM proxy) fills `jira_issue`,
//! `minutes` and `description` for a block. What it is shown and what is
//! accepted back are decided here:
//! * event text is redacted before it leaves the machine — the model needs
//!   work intent, never source code;
//! * a claimed ticket is only accepted when it is a cached open ticket, or
//!   a literal seen in the block's events under a known project prefix;
//! * `estimated_by = 'manual'` and already-estimated blocks are skipped,
//!   personal blocks are never sent;
//! * same-ticket neighbours are folded back together afterwards, never
//!   touching a synced or hand-edited block.
use vstd::prelude::*;

use crate::api::ApiError;
use crate::text::{
    concat, i64_string, signed_decimal, chars_of, contains, ends_with, find, has_ws, is_whitespace, lemma_find, push_window, str_eq,
    string_of, trim, trim_window, window_contains, window_ends_with, window_find,
};

verus! {

/// The estimator's instructions.
pub const SYSTEM_PROMPT: &'static str = "You are a Jira/Tempo worklog assistant. Given a JSON array of work events that\nhappened inside one contiguous time block, plus a candidate list of the user's\nopen Jira tickets, produce exactly one Tempo worklog entry.\n\nRules:\n- jira_issue: pick a candidate ticket when the block's `project_name` or\n  event content clearly maps to one of the candidate ticket summaries.\n  Match on MEANING, not just literal strings: ticket summaries are often\n  in Icelandic while project paths/repos are in English (e.g.\n  `sjukra` ↔ a ticket mentioning \"Sjúkra\"; `pdf-flipbook` /\n  `flipbook-generator` ↔ a ticket mentioning \"flettibók\"; `agent` /\n  `chatbot` ↔ \"spjallmenni\"). If a candidate ticket plausibly describes\n  the same product/feature/repo as the events, prefer it. Return null only\n  when:\n    * the work is generic infra / CLI / dotfiles / worklog tooling / build\n      tweaks that doesn't belong to any product ticket;\n    * the events span multiple unrelated tickets with no clear majority;\n    * you'd be guessing between several mediocre matches.\n  Wrong tickets are worse than no ticket — never pick the \"closest\" of\n  several weak matches. You may also pick a key from literal_matches\n  (keys that appeared verbatim in event content) but only if those events\n  dominate the block.\n- description: Jira-style imperative (e.g. \"Implement OAuth token refresh\",\n  \"Review PR for billing module\"). Avoid first-person (\"I\", \"we\"). For\n  meetings, \"Attend <topic> sync\".\n- minutes: prefer block_duration_minutes; only deviate if the events clearly\n  don't fill the block (e.g. a single 2-min commit in a 60-min gap). Round to\n  the nearest 15.\n- Output ONLY a JSON object matching the schema. No prose, no code fences.\n";

/// Minutes are rounded up to this grain.
pub const ROUND_MINUTES: i64 = 15;

/// Per-event details char cap for events of the coding assistant.
pub const DETAILS_CAP_CLAUDE: usize = 800;

/// Per-event details char cap for every other source.
pub const DETAILS_CAP_OTHER: usize = 200;

/// Counts from one estimate run.
#[derive(Debug, Clone, Default, PartialEq, Eq)]
pub struct EstimateStats {
    pub estimated: usize,
    pub skipped: usize,
    pub failed: usize,
}

/// A cached open ticket the estimator may pick.
#[derive(Debug, Clone)]
pub struct Candidate {
    pub key: String,
    pub summary: String,
    pub status: Option<String>,
}

/// Round a minute count up to the next multiple of 15 (at least 15).
pub fn round_up_minutes(m: i64) -> (r: i64)
    requires
        m <= i64::MAX - 14,
    ensures
        r == 15 * (((if m < 1 {
            1int
        } else {
            m as int
        }) + 14) / 15),
{
    let m = if m < 1 {
        1
    } else {
        m
    };
    let q = (m + (ROUND_MINUTES - 1)) / ROUND_MINUTES;
    assert(q <= i64::MAX / 15) by (nonlinear_arith)
        requires
            q == (m + 14) / 15,
            1 <= m <= i64::MAX - 14,
    ;
    ROUND_MINUTES * q
}

/// The `KEY` of a `KEY-N` ticket: everything before the first `-`.
pub open spec fn ticket_prefix(key: Seq<char>) -> Option<Seq<char>> {
    match crate::text::char_index(key, '-') {
        Some(i) => Some(key.take(i)),
        None => None,
    }
}

/// Whether a claimed ticket may be written onto a block.
pub open spec fn ticket_is_valid(claimed: Seq<char>, candidates: Seq<Candidate>, literals: Seq<
    String,
>) -> bool {
    ||| exists|i: int| 0 <= i < candidates.len() && candidates[i].key@ == claimed
    ||| {
        &&& ticket_prefix(claimed) is Some
        &&& exists|i: int|
            0 <= i < candidates.len() && ticket_prefix(candidates[i].key@) == ticket_prefix(
                claimed,
            )
        &&& exists|i: int| 0 <= i < literals.len() && literals[i]@ == claimed
    }
}

/// The prefix of `key` before its first `-`, as a string.
fn prefix_of(key: &str) -> (r: Option<String>)
    ensures
        match r {
            Some(p) => ticket_prefix(key@) == Some(p@),
            None => ticket_prefix(key@) is None,
        },
{
    let v = chars_of(key);
    match crate::text::find_char(&v, '-', 0, v.len()) {
        Some(i) => {
            assert(v@.subrange(0, v@.len() as int) =~= v@);
            assert(v@.take(i as int) =~= v@.subrange(0, i as int));
            Some(string_of(v.as_slice(), 0, i))
        },
        None => {
            assert(v@.subrange(0, v@.len() as int) =~= v@);
            None
        },
    }
}

/// Keep a claimed ticket only when it is a cached candidate, or a literal
/// from the block's events whose project prefix is a real (cached) one.
/// Noise like `UTF-8`, `GPT-4` or `CRIT-1` is never accepted.
pub fn validate_ticket(claimed: Option<&str>, candidates: &[Candidate], literals: &[String]) -> (r:
    Option<String>)
    ensures
        match claimed {
            None => r is None,
            Some(c) => match r {
                Some(t) => t@ == c@ && ticket_is_valid(c@, candidates@, literals@),
                None => !ticket_is_valid(c@, candidates@, literals@),
            },
        },
{
    if claimed.is_none() {
        return None;
    }
    let c = claimed.unwrap();
    let mut i: usize = 0;
    while i < candidates.len()
        invariant
            claimed == Some(c),
            i <= candidates@.len(),
            forall|j: int| 0 <= j < i ==> candidates@[j].key@ != c@,
        decreases candidates@.len() - i,
    {
        if str_eq(candidates[i].key.as_str(), c) {
            return Some(String::from_str(c));
        }
        i = i + 1;
    }
    let prefix = match prefix_of(c) {
        Some(p) => p,
        None => {
            return None;
        },
    };
    let mut known = false;
    let mut i: usize = 0;
    while i < candidates.len()
        invariant
            i <= candidates@.len(),
            ticket_prefix(c@) == Some(prefix@),
            known == exists|j: int|
                0 <= j < i && ticket_prefix(candidates@[j].key@) == ticket_prefix(c@),
        decreases candidates@.len() - i,
    {
        match prefix_of(candidates[i].key.as_str()) {
            Some(p) => {
                if str_eq(p.as_str(), prefix.as_str()) {
                    known = true;
                }
            },
            None => {},
        }
        i = i + 1;
    }
    if !known {
        return None;
    }
    let mut i: usize = 0;
    while i < literals.len()
        invariant
            claimed == Some(c),
            known,
            ticket_prefix(c@) is Some,
            exists|j: int|
                0 <= j < candidates@.len() && ticket_prefix(candidates@[j].key@) == ticket_prefix(
                    c@,
                ),
            i <= literals@.len(),
            forall|j: int| 0 <= j < i ==> literals@[j]@ != c@,
        decreases literals@.len() - i,
    {
        if str_eq(literals[i].as_str(), c) {
            return Some(String::from_str(c));
        }
        i = i + 1;
    }
    None
}

/// The details cap for an event of `source`.
pub fn event_details_cap(source: &str) -> (r: usize)
    ensures
        r == (if source@ == crate::sources::assistant() {
            DETAILS_CAP_CLAUDE
        } else {
            DETAILS_CAP_OTHER
        }),
{
    if str_eq(source, crate::sources::assistant_source().as_str()) {
        DETAILS_CAP_CLAUDE
    } else {
        DETAILS_CAP_OTHER
    }
}

/// The first `n` characters of `s`.
pub fn trunc(s: &str, n: usize) -> (r: String)
    ensures
        r@ == s@.take(if n < s@.len() {
            n as int
        } else {
            s@.len() as int
        }),
{
    let v = chars_of(s);
    let k = if n < v.len() {
        n
    } else {
        v.len()
    };
    string_of(v.as_slice(), 0, k)
}

/// The triple-backtick code fence.
pub open spec fn fence() -> Seq<char> {
    seq!['`', '`', '`']
}

/// Every fenced code block replaced with `[code omitted]`; an
/// unterminated fence drops everything after it.
#[verifier::opaque]
pub open spec fn strip_fences(s: Seq<char>) -> Seq<char>
    decreases s.len(),
{
    match find(s, fence()) {
        None => s,
        Some(o) => {
            let after = s.skip(o + 3);
            match find(after, fence()) {
                None => s.take(o) + "[code omitted]"@,
                Some(c) => {
                    proof {
                        lemma_find(s, fence());
                        lemma_find(after, fence());
                    }
                    s.take(o) + "[code omitted]"@ + strip_fences(after.skip(c + 3))
                },
            }
        },
    }
}

proof fn lemma_strip_fences_none(s: Seq<char>)
    requires
        find(s, fence()) is None,
    ensures
        strip_fences(s) == s,
{
    reveal(strip_fences);
}

proof fn lemma_strip_fences_open(s: Seq<char>, o: int)
    requires
        find(s, fence()) == Some(o),
        find(s.skip(o + 3), fence()) is None,
    ensures
        strip_fences(s) == s.take(o) + "[code omitted]"@,
{
    reveal(strip_fences);
}

proof fn lemma_strip_fences_closed(s: Seq<char>, o: int, c: int)
    requires
        find(s, fence()) == Some(o),
        find(s.skip(o + 3), fence()) == Some(c),
    ensures
        strip_fences(s) == s.take(o) + "[code omitted]"@ + strip_fences(s.skip(o + 3).skip(c + 3)),
{
    reveal(strip_fences);
}

/// Inner text of the first `<tag>…</tag>` in `s`.
pub open spec fn xml_tag(s: Seq<char>, tag: Seq<char>) -> Option<Seq<char>> {
    let open = "<"@ + tag + ">"@;
    let close = "</"@ + tag + ">"@;
    match find(s, open) {
        None => None,
        Some(i) => {
            let rest = s.skip(i + open.len());
            match find(rest, close) {
                None => None,
                Some(e) => Some(rest.take(e)),
            }
        },
    }
}

/// What the estimator may see of an event field: blank for a bare
/// transcript path, the one-line summary of a background-task
/// notification (its code fences removed too), otherwise the text with its
/// code fences removed.
pub open spec fn redacted(raw: Seq<char>) -> Seq<char> {
    let t = trim(raw);
    if t.len() == 0 {
        Seq::<char>::empty()
    } else if ends_with(t, ".jsonl"@) && !has_ws(t) {
        Seq::<char>::empty()
    } else if contains(t, "<task-notification>"@) {
        match xml_tag(t, "summary"@) {
            Some(x) => "background task: "@ + strip_fences(trim(x)),
            None => "background task completed"@,
        }
    } else {
        strip_fences(raw)
    }
}

/// Inner text of the first `<tag>…</tag>` in `s`.
#[verifier::rlimit(40)]
pub fn extract_xml_tag(s: &str, tag: &str) -> (r: Option<String>)
    ensures
        match r {
            Some(x) => xml_tag(s@, tag@) == Some(x@),
            None => xml_tag(s@, tag@) is None,
        },
{
    let mut open = String::from_str("<");
    open.append(tag);
    open.append(">");
    let mut close = String::from_str("</");
    close.append(tag);
    close.append(">");
    let v = chars_of(s);
    let ov = chars_of(open.as_str());
    let cv = chars_of(close.as_str());
    assert(v@.subrange(0, v@.len() as int) =~= v@);
    let i = match window_find(&v, 0, v.len(), &ov) {
        Some(i) => i,
        None => {
            return None;
        },
    };
    let start = i + ov.len();
    assert(v@.skip(start as int) =~= v@.subrange(start as int, v@.len() as int));
    let e = match window_find(&v, start, v.len(), &cv) {
        Some(e) => e,
        None => {
            return None;
        },
    };
    assert(v@.skip(start as int).take(e - start) =~= v@.subrange(start as int, e as int));
    Some(string_of(v.as_slice(), start, e))
}

/// `strip_fences` of the window `v[pos..n]`, appended to `out`.
fn strip_code_fences_window(v: &Vec<char>, pos: usize, out: &mut Vec<char>)
    requires
        pos <= v@.len(),
    ensures
        final(out)@ == old(out)@ + strip_fences(v@.subrange(pos as int, v@.len() as int)),
    decreases v@.len() - pos,
{
    let n = v.len();
    let f: Vec<char> = vec!['`', '`', '`'];
    assert(f@ =~= fence());
    let marker = chars_of("[code omitted]");
    let ghost s = v@.subrange(pos as int, n as int);
    let o = match window_find(v, pos, n, &f) {
        Some(o) => o,
        None => {
            proof {
                lemma_strip_fences_none(s);
            }
            push_window(out, v, pos, n);
            return;
        },
    };
    assert(s.take(o - pos) =~= v@.subrange(pos as int, o as int));
    assert(s.skip(o - pos + 3) =~= v@.subrange(o + 3, n as int));
    push_window(out, v, pos, o);
    push_window(out, &marker, 0, marker.len());
    assert(marker@.subrange(0, marker@.len() as int) =~= marker@);
    let ghost mid = out@;
    assert(mid =~= old(out)@ + (v@.subrange(pos as int, o as int) + "[code omitted]"@));
    let c = match window_find(v, o + 3, n, &f) {
        Some(c) => c,
        None => {
            proof {
                lemma_strip_fences_open(s, o - pos);
            }
            return;
        },
    };
    assert(v@.subrange(o + 3, n as int).skip(c - (o + 3) + 3) =~= v@.subrange(
        c + 3,
        n as int,
    ));
    proof {
        lemma_strip_fences_closed(s, o - pos, c - (o + 3));
    }
    strip_code_fences_window(v, c + 3, out);
    assert(out@ =~= old(out)@ + (v@.subrange(pos as int, o as int) + "[code omitted]"@
        + strip_fences(v@.subrange(c + 3, n as int))));
}

/// Replace every triple-backtick fenced block with `[code omitted]`. An
/// unterminated fence redacts to end-of-string.
pub fn strip_code_fences(s: &str) -> (r: String)
    ensures
        r@ == strip_fences(s@),
{
    let v = chars_of(s);
    let mut out: Vec<char> = Vec::new();
    strip_code_fences_window(&v, 0, &mut out);
    assert(v@.subrange(0, v@.len() as int) =~= v@);
    assert(out@ =~= strip_fences(s@));
    let n = out.len();
    assert(out@.subrange(0, n as int) =~= out@);
    string_of(out.as_slice(), 0, n)
}

/// Whether no code fence occurs anywhere in `x`.
pub open spec fn fence_free(x: Seq<char>) -> bool {
    forall|i: int| !crate::text::occurs_at(x, fence(), i)
}

proof fn lemma_fence_chars(x: Seq<char>, i: int, k: int)
    requires
        crate::text::occurs_at(x, fence(), i),
        0 <= k < 3,
    ensures
        x[i + k] == '`',
{
    assert(x.subrange(i, i + 3)[k] == fence()[k]);
}

proof fn lemma_fence_free_concat(a: Seq<char>, b: Seq<char>)
    requires
        fence_free(a),
        fence_free(b),
        a.len() == 0 || b.len() == 0 || a.last() != '`' || b[0] != '`',
    ensures
        fence_free(a + b),
{
    let x = a + b;
    assert forall|i: int| !crate::text::occurs_at(x, fence(), i) by {
        if crate::text::occurs_at(x, fence(), i) {
            if i + 3 <= a.len() {
                assert(x.subrange(i, i + 3) =~= a.subrange(i, i + 3));
                assert(crate::text::occurs_at(a, fence(), i));
            } else if i >= a.len() {
                assert(x.subrange(i, i + 3) =~= b.subrange(i - a.len(), i - a.len() + 3));
                assert(crate::text::occurs_at(b, fence(), i - a.len()));
            } else {
                lemma_fence_chars(x, i, a.len() - 1 - i);
                lemma_fence_chars(x, i, a.len() - i);
                assert(x[a.len() - 1] == a.last());
                assert(x[a.len() as int] == b[0]);
            }
        }
    }
}

proof fn lemma_marker()
    ensures
        fence_free("[code omitted]"@),
        "[code omitted]"@.len() == 14,
        "[code omitted]"@[0] == '[',
        "[code omitted]"@.last() == ']',
{
    reveal_strlit("[code omitted]");
    let m = "[code omitted]"@;
    assert forall|i: int| !crate::text::occurs_at(m, fence(), i) by {
        if crate::text::occurs_at(m, fence(), i) {
            lemma_fence_chars(m, i, 0);
        }
    }
}

proof fn lemma_before_first_fence(s: Seq<char>, o: int)
    requires
        find(s, fence()) == Some(o),
    ensures
        fence_free(s.take(o)),
{
    lemma_find(s, fence());
    assert forall|j: int| !crate::text::occurs_at(s.take(o), fence(), j) by {
        if crate::text::occurs_at(s.take(o), fence(), j) {
            assert(s.take(o).subrange(j, j + 3) =~= s.subrange(j, j + 3));
            assert(crate::text::occurs_at(s, fence(), j));
        }
    }
}

proof fn lemma_strip_fences_free(s: Seq<char>)
    ensures
        fence_free(strip_fences(s)),
    decreases s.len(),
{
    lemma_find(s, fence());
    lemma_marker();
    let m = "[code omitted]"@;
    match find(s, fence()) {
        None => {
            lemma_strip_fences_none(s);
        },
        Some(o) => {
            let after = s.skip(o + 3);
            lemma_find(after, fence());
            lemma_before_first_fence(s, o);
            lemma_fence_free_concat(s.take(o), m);
            match find(after, fence()) {
                None => {
                    lemma_strip_fences_open(s, o);
                },
                Some(c) => {
                    let rest = after.skip(c + 3);
                    lemma_strip_fences_free(rest);
                    lemma_strip_fences_closed(s, o, c);
                    assert((s.take(o) + m).last() == ']');
                    lemma_fence_free_concat(s.take(o) + m, strip_fences(rest));
                },
            }
        },
    }
}

/// No code fence survives fence stripping, so a second pass changes
/// nothing: stripping fences is idempotent.
pub proof fn law_strip_code_fences_idempotent(s: Seq<char>)
    ensures
        !contains(strip_fences(s), fence()),
        strip_fences(strip_fences(s)) == strip_fences(s),
{
    lemma_strip_fences_free(s);
    let out = strip_fences(s);
    lemma_find(out, fence());
    if find(out, fence()) is Some {
        assert(crate::text::occurs_at(out, fence(), find(out, fence())->0));
    }
    lemma_strip_fences_none(out);
}

/// Where `str::trim` cuts `s`: every non-whitespace character lies in the
/// kept window `[a, b)`.
proof fn lemma_trim_bounds(s: Seq<char>) -> (r: (int, int))
    ensures
        0 <= r.0 <= r.1 <= s.len(),
        trim(s) == s.subrange(r.0, r.1),
        forall|i: int| 0 <= i < s.len() && !crate::text::is_ws(#[trigger] s[i]) ==> r.0 <= i < r.1,
{
    let a = lemma_trim_start_at(s);
    let t = s.skip(a);
    let b = lemma_trim_end_at(t);
    assert(t.take(b) =~= s.subrange(a, a + b));
    assert forall|i: int| 0 <= i < s.len() && !crate::text::is_ws(#[trigger] s[i]) implies a <= i < a + b by {
        if i >= a {
            assert(t[i - a] == s[i]);
        }
    }
    (a, a + b)
}

proof fn lemma_trim_start_at(s: Seq<char>) -> (a: int)
    ensures
        0 <= a <= s.len(),
        crate::text::trim_start(s) == s.skip(a),
        forall|i: int| 0 <= i < a ==> crate::text::is_ws(#[trigger] s[i]),
    decreases s.len(),
{
    if s.len() > 0 && crate::text::is_ws(s[0]) {
        let a = lemma_trim_start_at(s.drop_first());
        assert(s.drop_first().skip(a) =~= s.skip(a + 1));
        assert forall|i: int| 0 <= i < a + 1 implies crate::text::is_ws(#[trigger] s[i]) by {
            if i > 0 {
                assert(s[i] == s.drop_first()[i - 1]);
            }
        }
        a + 1
    } else {
        assert(s.skip(0) =~= s);
        0
    }
}

proof fn lemma_trim_end_at(s: Seq<char>) -> (b: int)
    ensures
        0 <= b <= s.len(),
        crate::text::trim_end(s) == s.take(b),
        forall|i: int| b <= i < s.len() ==> crate::text::is_ws(#[trigger] s[i]),
    decreases s.len(),
{
    if s.len() > 0 && crate::text::is_ws(s.last()) {
        let b = lemma_trim_end_at(s.drop_last());
        assert(s.drop_last().take(b) =~= s.take(b));
        assert forall|i: int| b <= i < s.len() implies crate::text::is_ws(#[trigger] s[i]) by {
            if i < s.len() - 1 {
                assert(s[i] == s.drop_last()[i]);
            }
        }
        b
    } else {
        assert(s.take(s.len() as int) =~= s);
        s.len() as int
    }
}

/// What a pass of [`redacted`] keeps of `y` when `y` has no code fence
/// and no task notification, and `y[i]` is whitespace between two
/// non-whitespace characters: `y` itself.
proof fn lemma_redacted_keeps(y: Seq<char>, i: int, j: int, k: int)
    requires
        fence_free(y),
        !contains(y, "<task-notification>"@),
        0 <= i < j < k < y.len(),
        !crate::text::is_ws(y[i]),
        crate::text::is_ws(y[j]),
        !crate::text::is_ws(y[k]),
    ensures
        redacted(y) == y,
{
    let (a, b) = lemma_trim_bounds(y);
    let t = trim(y);
    assert(a <= i && k < b);
    assert(t[j - a] == y[j]);
    assert(has_ws(t));
    assert(t.len() > 0);
    if contains(t, "<task-notification>"@) {
        let n = "<task-notification>"@;
        let w = choose|w: int| crate::text::occurs_at(t, n, w);
        assert(y.subrange(a + w, a + w + n.len()) =~= t.subrange(w, w + n.len()));
        assert(crate::text::occurs_at(y, n, a + w));
    }
    lemma_find(y, fence());
    lemma_strip_fences_none(y);
}

proof fn lemma_background_prefix()
    ensures
        fence_free("background task: "@),
        "background task: "@.len() == 17,
        "background task: "@[0] == 'b',
        "background task: "@[10] == ' ',
        "background task: "@[11] == 't',
        "background task: "@.last() == ' ',
        fence_free("background task completed"@),
        "background task completed"@.len() == 25,
        "background task completed"@[0] == 'b',
        "background task completed"@[10] == ' ',
        "background task completed"@[11] == 't',
{
    reveal_strlit("background task: ");
    reveal_strlit("background task completed");
    let p = "background task: "@;
    let q = "background task completed"@;
    assert forall|i: int| !crate::text::occurs_at(p, fence(), i) by {
        if crate::text::occurs_at(p, fence(), i) {
            lemma_fence_chars(p, i, 0);
        }
    }
    assert forall|i: int| !crate::text::occurs_at(q, fence(), i) by {
        if crate::text::occurs_at(q, fence(), i) {
            lemma_fence_chars(q, i, 0);
        }
    }
}

/// Redaction is idempotent: a second pass changes nothing, for every text
/// whose redaction does not itself hold a task notification (as when a
/// notification's summary quotes another one).
pub proof fn law_redaction_is_idempotent(raw: Seq<char>)
    requires
        !contains(redacted(raw), "<task-notification>"@),
    ensures
        redacted(redacted(raw)) == redacted(raw),
{
    let y = redacted(raw);
    let t = trim(raw);
    assert(crate::text::is_ws(' ') && !crate::text::is_ws('b') && !crate::text::is_ws('t')
        && !crate::text::is_ws('[') && !crate::text::is_ws('o'));
    if y.len() == 0 {
        assert(trim(y).len() == 0);
    } else if t.len() == 0 || (ends_with(t, ".jsonl"@) && !has_ws(t)) {
    } else if contains(t, "<task-notification>"@) {
        lemma_background_prefix();
        match xml_tag(t, "summary"@) {
            Some(x) => {
                let p = "background task: "@;
                let body = strip_fences(trim(x));
                lemma_strip_fences_free(trim(x));
                lemma_fence_free_concat(p, body);
                assert(y == p + body);
                assert(y[0] == 'b' && y[10] == ' ' && y[11] == 't');
                lemma_redacted_keeps(y, 0, 10, 11);
            },
            None => {
                lemma_redacted_keeps(y, 0, 10, 11);
            },
        }
    } else {
        lemma_find(raw, fence());
        lemma_strip_fences_free(raw);
        match find(raw, fence()) {
            None => {
                lemma_strip_fences_none(raw);
            },
            Some(o) => {
                lemma_marker();
                reveal_strlit("[code omitted]");
                let m = "[code omitted]"@;
                let after = raw.skip(o + 3);
                lemma_find(after, fence());
                match find(after, fence()) {
                    None => {
                        lemma_strip_fences_open(raw, o);
                    },
                    Some(c) => {
                        lemma_strip_fences_closed(raw, o, c);
                    },
                }
                assert(y[o] == m[0]);
                assert(y[o + 5] == m[5]);
                assert(y[o + 6] == m[6]);
                lemma_redacted_keeps(y, o, o + 5, o + 6);
            },
        }
    }
}

/// Strip source code and file-path leakage out of an event field before
/// it is handed to the estimator: a bare `….jsonl` transcript path is
/// dropped, a `<task-notification>` collapses to its `<summary>`, and
/// fenced code blocks become `[code omitted]`.
pub fn redact_code(raw: &str) -> (r: String)
    ensures
        r@ == redacted(raw@),
{
    let v = chars_of(raw);
    let (a, b) = trim_window(&v, 0, v.len());
    assert(v@.subrange(0, v@.len() as int) =~= v@);
    if a == b {
        return String::new();
    }
    let ghost t = v@.subrange(a as int, b as int);
    let jsonl = chars_of(".jsonl");
    if window_ends_with(&v, a, b, &jsonl) {
        let mut k = a;
        let mut ws = false;
        while k < b
            invariant
                a <= k <= b <= v@.len(),
                t == v@.subrange(a as int, b as int),
                ws == exists|j: int| 0 <= j < k - a && crate::text::is_ws(t[j]),
            decreases b - k,
        {
            assert(t[k - a] == v@[k as int]);
            if is_whitespace(v[k]) {
                ws = true;
            }
            k = k + 1;
        }
        if !ws {
            return String::new();
        }
    }
    let notif = chars_of("<task-notification>");
    if window_contains(&v, a, b, &notif) {
        let ts = string_of(v.as_slice(), a, b);
        return match extract_xml_tag(ts.as_str(), "summary") {
            Some(x) => {
                let xv = chars_of(x.as_str());
                let (xa, xb) = trim_window(&xv, 0, xv.len());
                assert(xv@.subrange(0, xv@.len() as int) =~= xv@);
                let inner = string_of(xv.as_slice(), xa, xb);
                let clean = strip_code_fences(inner.as_str());
                let mut out = String::from_str("background task: ");
                out.append(clean.as_str());
                out
            },
            None => String::from_str("background task completed"),
        };
    }
    strip_code_fences(raw)
}


// ───────────────────────── estimate decisions ─────────────────────────

/// A block as the estimator reads it.
#[derive(Debug, Clone)]
pub struct EstimateBlock {
    pub id: i64,
    pub started_at: String,
    pub ended_at: String,
    pub jira_issue: Option<String>,
    pub estimated_by: Option<String>,
    pub is_personal: bool,
}

/// Whether a block goes to the estimator: personal blocks never do, and
/// neither do blocks already estimated or edited by hand (overwriting a
/// hand edit would destroy the owner's work).
pub open spec fn wants_estimate(b: EstimateBlock) -> bool {
    !b.is_personal && match b.estimated_by {
        Some(e) => e@ != crate::sources::assistant_estimate() && e@ != "manual"@,
        None => true,
    }
}

/// Whether `b` goes to the estimator.
pub fn should_estimate(b: &EstimateBlock) -> (r: bool)
    ensures
        r == wants_estimate(*b),
{
    if b.is_personal {
        return false;
    }
    match &b.estimated_by {
        Some(e) => {
            let mark = crate::sources::assistant_estimate_marker();
            !str_eq(e.as_str(), mark.as_str()) && !str_eq(e.as_str(), "manual")
        },
        None => true,
    }
}

/// The answer to re-describing block `id` when no such block exists.
pub open spec fn missing_block_msg(id: i64) -> Seq<char> {
    "block "@ + signed_decimal(id as int) + " not found"@
}

/// The answer to re-describing personal block `bid`.
pub open spec fn personal_block_msg(bid: i64) -> Seq<char> {
    "block "@ + signed_decimal(bid as int)
        + " is personal — toggle it back to work before re-describing it"@
}

/// Whether block `id` may be re-described, given its stored row (its id
/// and whether it is personal; `None` when it is gone): 404 when gone, 400
/// when personal, else its id.
pub fn estimate_precheck(id: i64, row: Option<(i64, bool)>) -> (r: Result<i64, ApiError>)
    ensures
        row is None ==> (r matches Err(ApiError::NotFound(m)) && m@ == missing_block_msg(id)),
        row matches Some((bid, personal)) ==> (if personal {
            r matches Err(ApiError::BadRequest(m)) && m@ == personal_block_msg(bid)
        } else {
            r == Ok::<i64, ApiError>(bid)
        }),
{
    match row {
        None => {
            let n = i64_string(id);
            let a = concat("block ", n.as_str());
            Err(ApiError::NotFound(concat(a.as_str(), " not found")))
        },
        Some((bid, personal)) => {
            if personal {
                let n = i64_string(bid);
                let a = concat("block ", n.as_str());
                Err(ApiError::BadRequest(
                    concat(a.as_str(), " is personal — toggle it back to work before re-describing it"),
                ))
            } else {
                Ok(bid)
            }
        },
    }
}

/// The estimator's reply, once parsed.
#[derive(Debug, Clone)]
pub struct Reply {
    pub jira_issue: Option<String>,
    pub description: Option<String>,
    pub minutes: Option<i64>,
}

/// What an estimate does to a block.
#[derive(Debug, Clone, PartialEq, Eq)]
pub enum EstimateOutcome {
    /// No usable reply: the block is marked as a gap.
    Gap,
    /// The block takes this description, rounded duration and ticket.
    Update { description: String, minutes: i64, ticket: Option<String> },
}

/// How a block came out of an estimate run: `None` when it was not sent,
/// `Some(true)` when it got an estimate, `Some(false)` when it became a gap.
pub open spec fn kind_of(o: Option<EstimateOutcome>) -> Option<bool> {
    match o {
        None => None,
        Some(EstimateOutcome::Gap) => Some(false),
        Some(EstimateOutcome::Update { .. }) => Some(true),
    }
}

/// Counts `(estimated, skipped, failed)` after one more block of kind `k`.
pub open spec fn count_step(t: (nat, nat, nat), k: Option<bool>) -> (nat, nat, nat) {
    match k {
        None => (t.0, t.1 + 1, t.2),
        Some(true) => (t.0 + 1, t.1, t.2),
        Some(false) => (t.0, t.1, t.2 + 1),
    }
}

/// Counts `(estimated, skipped, failed)` of a run whose blocks came out as
/// `ks`, in order.
pub open spec fn tally(ks: Seq<Option<bool>>) -> (nat, nat, nat)
    decreases ks.len(),
{
    if ks.len() == 0 {
        (0, 0, 0)
    } else {
        count_step(tally(ks.drop_last()), ks.last())
    }
}

pub open spec fn stats_of(s: EstimateStats) -> (nat, nat, nat) {
    (s.estimated as nat, s.skipped as nat, s.failed as nat)
}

/// Count one block of an estimate run, `outcome` being what came of it
/// (`None` when it was not sent).
pub fn count_block(stats: &mut EstimateStats, outcome: &Option<EstimateOutcome>)
    requires
        old(stats).estimated + old(stats).skipped + old(stats).failed < usize::MAX,
    ensures
        stats_of(*final(stats)) == count_step(stats_of(*old(stats)), kind_of(*outcome)),
{
    match outcome {
        None => stats.skipped = stats.skipped + 1,
        Some(EstimateOutcome::Gap) => stats.failed = stats.failed + 1,
        Some(EstimateOutcome::Update { .. }) => stats.estimated = stats.estimated + 1,
    }
}

/// Every block of a run is counted once: as estimated, skipped or failed.
pub proof fn law_every_block_is_counted_once(ks: Seq<Option<bool>>)
    ensures
        tally(ks).0 + tally(ks).1 + tally(ks).2 == ks.len(),
        tally(ks).1 == ks.filter(|k: Option<bool>| k is None).len(),
    decreases ks.len(),
{
    if ks.len() > 0 {
        law_every_block_is_counted_once(ks.drop_last());
        assert(ks =~= ks.drop_last().push(ks.last()));
        ks.drop_last().lemma_filter_push(ks.last(), |k: Option<bool>| k is None);
    }
}

/// What `str::parse::<chrono::DateTime<chrono::Utc>>` reads from a stored
/// timestamp, as `(timestamp, subsecond nanos)`; `None` when it does not
/// parse.
pub uninterp spec fn utc_text(s: Seq<char>) -> Option<(i64, u32)>;

/// Calls `str::parse::<chrono::DateTime<chrono::Utc>>` and reads the
/// instant's Unix timestamp and subsecond nanoseconds. The result is
/// named, a function of the text alone; the contract also states the
/// range every `DateTime<Utc>` lies in (years within ±262 143, so under
/// 9 × 10¹² seconds from the epoch) and that the nanoseconds stay under
/// two seconds' worth (a leap second).
#[verifier::external_body]
fn parse_utc(s: &str) -> (r: Option<(i64, u32)>)
    ensures
        r == utc_text(s@),
        r matches Some(t) ==> -9_000_000_000_000 <= t.0 <= 9_000_000_000_000 && t.1 < 2_000_000_000,
{
    s.parse::<chrono::DateTime<chrono::Utc>>().ok().map(|d| (d.timestamp(), d.timestamp_subsec_nanos()))
}

pub open spec fn instant_ok(t: (i64, u32)) -> bool {
    -9_000_000_000_000 <= t.0 <= 9_000_000_000_000 && t.1 < 2_000_000_000
}

/// The whole seconds from `a` to `b`, rounded toward zero (as
/// `TimeDelta::num_seconds`).
pub open spec fn secs_between(a: (i64, u32), b: (i64, u32)) -> int {
    crate::instant::trunc_div((b.0 - a.0) * 1_000_000_000 + (b.1 - a.1), 1_000_000_000)
}

pub open spec fn or_now(o: Option<(i64, u32)>, now: (i64, u32)) -> (i64, u32) {
    match o {
        Some(t) => t,
        None => now,
    }
}

/// The whole seconds between two stored timestamps, an unreadable one
/// taken as `now`.
pub fn span_seconds(start: &str, end: &str, now: (i64, u32)) -> (r: i64)
    requires
        instant_ok(now),
    ensures
        r == secs_between(or_now(utc_text(start@), now), or_now(utc_text(end@), now)),
{
    let a = match parse_utc(start) {
        Some(t) => t,
        None => now,
    };
    let b = match parse_utc(end) {
        Some(t) => t,
        None => now,
    };
    let d: i128 = (b.0 as i128 - a.0 as i128) * 1_000_000_000 + (b.1 as i128 - a.1 as i128);
    assert(-20_000_000_000_000_000_000_000 < d < 20_000_000_000_000_000_000_000);
    let q: i128 = if d >= 0 {
        (d as u128 / 1_000_000_000u128) as i128
    } else {
        -(((-d) as u128 / 1_000_000_000u128) as i128)
    };
    assert(-20_000_000_000_000 < q < 20_000_000_000_000);
    q as i64
}

/// Minutes from a block's own span when the reply gives none: the whole
/// minutes of `span_seconds`, at least 1.
pub open spec fn fallback_minutes_spec(span_seconds: int) -> int {
    let m = crate::instant::trunc_div(span_seconds, 60);
    if m < 1 {
        1
    } else {
        m
    }
}

/// Minutes from a block's own span when the reply gives none.
pub fn fallback_block_minutes(span_seconds: i64) -> (r: i64)
    ensures
        r == fallback_minutes_spec(span_seconds as int),
{
    let s = span_seconds as i128;
    let q: i128 = if s >= 0 {
        s / 60
    } else {
        -((-s) / 60)
    };
    let m = q as i64;
    if m < 1 {
        1
    } else {
        m
    }
}

pub open spec fn round_up_spec(m: int) -> int {
    15 * (((if m < 1 {
        1int
    } else {
        m
    }) + 14) / 15)
}

pub open spec fn opt_str(o: Option<String>) -> Option<Seq<char>> {
    match o {
        Some(s) => Some(s@),
        None => None,
    }
}

/// The ticket a reply leaves on a block: the claimed one when it checks
/// out, else the block's inferred one when that checks out.
pub open spec fn ticket_after(claim: Option<Seq<char>>, inferred: Option<Seq<char>>, candidates: Seq<Candidate>, literals: Seq<String>) -> Option<Seq<char>> {
    match claim {
        Some(c) if ticket_is_valid(c, candidates, literals) => Some(c),
        _ => match inferred {
            Some(i) if ticket_is_valid(i, candidates, literals) => Some(i),
            _ => None,
        },
    }
}

/// The ticket the model claims wins whenever it is valid, whatever was
/// inferred; the inferred ticket stands only in place of a missing or
/// invalid claim, and only when it is valid itself. No invalid ticket is
/// ever kept.
pub proof fn law_valid_claim_wins(
    claim: Option<Seq<char>>,
    inferred: Option<Seq<char>>,
    candidates: Seq<Candidate>,
    literals: Seq<String>,
)
    ensures
        claim is Some && ticket_is_valid(claim->0, candidates, literals) ==> ticket_after(
            claim,
            inferred,
            candidates,
            literals,
        ) == claim,
        !(claim is Some && ticket_is_valid(claim->0, candidates, literals)) ==> ticket_after(
            claim,
            inferred,
            candidates,
            literals,
        ) == (if inferred is Some && ticket_is_valid(inferred->0, candidates, literals) {
            inferred
        } else {
            None
        }),
        ticket_after(claim, inferred, candidates, literals) is Some ==> ticket_is_valid(
            ticket_after(claim, inferred, candidates, literals)->0,
            candidates,
            literals,
        ) && (claim == ticket_after(claim, inferred, candidates, literals) || inferred
            == ticket_after(claim, inferred, candidates, literals)),
{
}

/// What a reply does to a block whose inferred ticket is `inferred` and
/// whose own span gives `fallback` minutes. A missing reply, or one with
/// no (or a blank) description, makes the block a gap.
pub fn outcome_of(
    reply: Option<Reply>,
    inferred: Option<&str>,
    fallback: i64,
    candidates: &[Candidate],
    literals: &[String],
) -> (o: EstimateOutcome)
    requires
        fallback <= i64::MAX - 14,
        reply matches Some(r) ==> (r.minutes matches Some(m) ==> m <= i64::MAX - 14),
    ensures
        match reply {
            None => o == EstimateOutcome::Gap,
            Some(r) => match r.description {
                Some(d) if trim(d@).len() > 0 => match o {
                    EstimateOutcome::Update { description, minutes, ticket } => {
                        &&& description@ == d@
                        &&& minutes == round_up_spec(match r.minutes {
                            Some(m) => m as int,
                            None => fallback as int,
                        })
                        &&& opt_str(ticket) == ticket_after(
                            opt_str(r.jira_issue),
                            match inferred {
                                Some(i) => Some(i@),
                                None => None,
                            },
                            candidates@,
                            literals@,
                        )
                    },
                    EstimateOutcome::Gap => false,
                },
                _ => o == EstimateOutcome::Gap,
            },
        },
        reply is Some && reply->0.jira_issue is Some && ticket_is_valid(
            reply->0.jira_issue->0@,
            candidates@,
            literals@,
        ) && o is Update ==> opt_str(o->ticket) == opt_str(reply->0.jira_issue),
{
    proof {
        match &reply {
            Some(r) => law_valid_claim_wins(
                opt_str(r.jira_issue),
                match inferred {
                    Some(i) => Some(i@),
                    None => None,
                },
                candidates@,
                literals@,
            ),
            None => {},
        }
    }
    let r = match reply {
        None => {
            return EstimateOutcome::Gap;
        },
        Some(r) => r,
    };
    let description = match r.description {
        Some(d) => {
            let v = chars_of(d.as_str());
            let (a, b) = trim_window(&v, 0, v.len());
            assert(v@.subrange(0, v@.len() as int) =~= v@);
            if a == b {
                return EstimateOutcome::Gap;
            }
            d
        },
        None => {
            return EstimateOutcome::Gap;
        },
    };
    let minutes = match r.minutes {
        Some(m) => round_up_minutes(m),
        None => round_up_minutes(fallback),
    };
    let mut ticket = match &r.jira_issue {
        Some(c) => validate_ticket(Some(c.as_str()), candidates, literals),
        None => None,
    };
    if ticket.is_none() && inferred.is_some() {
        ticket = validate_ticket(inferred, candidates, literals);
    }
    EstimateOutcome::Update { description, minutes, ticket }
}

/// Whether a block with this Tempo id is unsynced: none, or blank (both
/// mean "never synced").
pub fn is_unsynced(tempo_worklog_id: Option<&str>) -> (r: bool)
    ensures
        r == match tempo_worklog_id {
            Some(t) => trim(t@).len() == 0,
            None => true,
        },
{
    match tempo_worklog_id {
        Some(t) => {
            let v = chars_of(t);
            let (a, b) = trim_window(&v, 0, v.len());
            assert(v@.subrange(0, v@.len() as int) =~= v@);
            a == b
        },
        None => true,
    }
}

/// A block as the same-ticket merge reads it.
#[derive(Debug, Clone)]
pub struct MergeRow {
    pub jira_issue: Option<String>,
    /// `estimated_by = 'manual'`: hand-edited.
    pub manual: bool,
    /// No Tempo worklog recorded yet.
    pub unsynced: bool,
}

/// Block `b` may be folded into block `a`: both carry the same ticket,
/// neither was edited by hand, and neither is synced.
pub open spec fn mergeable(a: MergeRow, b: MergeRow) -> bool {
    &&& a.jira_issue is Some
    &&& b.jira_issue is Some
    &&& a.jira_issue->0@ == b.jira_issue->0@
    &&& !a.manual && !b.manual
    &&& a.unsynced && b.unsynced
}

/// The merges among the first `n` blocks (in start order) as `(into,
/// from)` index pairs, and the block later ones are compared with: a
/// block absorbs each following block it may take, and the first one it
/// may not take becomes the new anchor.
pub open spec fn merge_scan_spec(rows: Seq<MergeRow>, n: nat) -> (Seq<(int, int)>, int)
    decreases n,
{
    if n <= 1 {
        (Seq::empty(), 0)
    } else {
        let (m, a) = merge_scan_spec(rows, (n - 1) as nat);
        let c = n - 1;
        if mergeable(rows[a], rows[c]) {
            (m.push((a, c as int)), a)
        } else {
            (m, c as int)
        }
    }
}

fn row_mergeable(a: &MergeRow, b: &MergeRow) -> (r: bool)
    ensures
        r == mergeable(*a, *b),
{
    let same = match (&a.jira_issue, &b.jira_issue) {
        (Some(x), Some(y)) => str_eq(x.as_str(), y.as_str()),
        _ => false,
    };
    same && !a.manual && !b.manual && a.unsynced && b.unsynced
}

/// Which adjacent same-ticket blocks fold together, as `(into, from)`
/// index pairs in the order the merges happen.
pub fn merge_plan(rows: &Vec<MergeRow>) -> (r: Vec<(usize, usize)>)
    ensures
        r@.map_values(|p: (usize, usize)| (p.0 as int, p.1 as int)) == merge_scan_spec(rows@, rows@.len() as nat).0,
{
    let mut out: Vec<(usize, usize)> = Vec::new();
    if rows.len() <= 1 {
        assert(out@.map_values(|p: (usize, usize)| (p.0 as int, p.1 as int)) =~= Seq::<(int, int)>::empty());
        return out;
    }
    let mut anchor: usize = 0;
    let mut c: usize = 1;
    assert(out@.map_values(|p: (usize, usize)| (p.0 as int, p.1 as int)) =~= merge_scan_spec(rows@, 1).0);
    while c < rows.len()
        invariant
            1 <= c <= rows@.len(),
            anchor < c,
            out@.map_values(|p: (usize, usize)| (p.0 as int, p.1 as int)) == merge_scan_spec(rows@, c as nat).0,
            anchor == merge_scan_spec(rows@, c as nat).1,
        decreases rows@.len() - c,
    {
        let ghost before = out@;
        if row_mergeable(&rows[anchor], &rows[c]) {
            out.push((anchor, c));
            assert(out@.map_values(|p: (usize, usize)| (p.0 as int, p.1 as int)) =~= before.map_values(|p: (usize, usize)| (p.0 as int, p.1 as int)).push((anchor as int, c as int)));
        } else {
            anchor = c;
        }
        c = c + 1;
    }
    out
}

proof fn lemma_merge_scan(rows: Seq<MergeRow>, n: nat)
    requires
        n <= rows.len(),
    ensures
        0 <= merge_scan_spec(rows, n).1 < (if n == 0 { 1 } else { n as int }),
        forall|k: int| 0 <= k < merge_scan_spec(rows, n).0.len() ==> {
            let p = #[trigger] merge_scan_spec(rows, n).0[k];
            0 <= p.0 < p.1 < n && mergeable(rows[p.0], rows[p.1])
        },
    decreases n,
{
    if n > 1 {
        lemma_merge_scan(rows, (n - 1) as nat);
    }
}

/// The same-ticket merge only ever folds a later block into an earlier
/// one with the same ticket, and never touches a synced or hand-edited
/// block.
pub proof fn law_merge_never_touches_synced_or_manual(rows: Seq<MergeRow>)
    ensures
        forall|k: int| 0 <= k < merge_scan_spec(rows, rows.len() as nat).0.len() ==> {
            let p = #[trigger] merge_scan_spec(rows, rows.len() as nat).0[k];
            &&& 0 <= p.0 < p.1 < rows.len()
            &&& rows[p.0].jira_issue is Some
            &&& rows[p.1].jira_issue is Some
            &&& rows[p.0].jira_issue->0@ == rows[p.1].jira_issue->0@
            &&& !rows[p.0].manual && !rows[p.1].manual
            &&& rows[p.0].unsynced && rows[p.1].unsynced
        },
{
    lemma_merge_scan(rows, rows.len() as nat);
}

/// The span a merged block covers: the earlier start and the later end,
/// compared as stored text (fixed-width, so text order is time order).
pub fn merged_span(dst_start: &str, dst_end: &str, src_start: &str, src_end: &str) -> (r: (String, String))
    ensures
        r.0@ == (if crate::order::lex_lt(src_start@, dst_start@) { src_start@ } else { dst_start@ }),
        r.1@ == (if crate::order::lex_lt(dst_end@, src_end@) { src_end@ } else { dst_end@ }),
{
    let ss = chars_of(src_start);
    let ds = chars_of(dst_start);
    let se = chars_of(src_end);
    let de = chars_of(dst_end);
    let start = if crate::order::str_lt(&ss, &ds) { src_start.to_owned() } else { dst_start.to_owned() };
    let end = if crate::order::str_lt(&de, &se) { src_end.to_owned() } else { dst_end.to_owned() };
    (start, end)
}

/// How often `p` occurs among `paths`.
pub open spec fn path_count(paths: Seq<Option<String>>, p: Seq<char>) -> nat
    decreases paths.len(),
{
    if paths.len() == 0 {
        0
    } else {
        path_count(paths.drop_last(), p) + (match paths.last() {
            Some(x) if x@ == p => 1nat,
            _ => 0nat,
        })
    }
}

pub open spec fn has_path(paths: Seq<Option<String>>, p: Seq<char>) -> bool {
    exists|i: int| 0 <= i < paths.len() && ((#[trigger] paths[i]) matches Some(x) && x@ == p)
}

proof fn lemma_path_count_prefix(paths: Seq<Option<String>>, p: Seq<char>, j: int)
    requires
        0 <= j < paths.len(),
    ensures
        path_count(paths.take(j + 1), p) == path_count(paths.take(j), p) + (match paths[j] {
            Some(x) if x@ == p => 1nat,
            _ => 0nat,
        }),
{
    assert(paths.take(j + 1).drop_last() =~= paths.take(j));
}

fn count_path(paths: &Vec<Option<String>>, p: &String) -> (c: usize)
    ensures
        c == path_count(paths@, p@),
{
    let mut c: usize = 0;
    let mut j: usize = 0;
    while j < paths.len()
        invariant
            j <= paths@.len(),
            c == path_count(paths@.take(j as int), p@),
            c <= j,
        decreases paths@.len() - j,
    {
        proof {
            lemma_path_count_prefix(paths@, p@, j as int);
        }
        match &paths[j] {
            Some(x) => {
                if str_eq(x.as_str(), p.as_str()) {
                    c = c + 1;
                }
            },
            None => {},
        }
        j = j + 1;
    }
    assert(paths@.take(paths@.len() as int) =~= paths@);
    c
}

/// The working directory most of a block's events ran in (sent so the
/// estimator can refuse a ticket from an unrelated codebase): `None` when
/// no event has one, else one with the highest count.
pub fn dominant_project(paths: &Vec<Option<String>>) -> (r: Option<String>)
    ensures
        r is None <==> !exists|i: int| 0 <= i < paths@.len() && (#[trigger] paths@[i]) is Some,
        r matches Some(p) ==> has_path(paths@, p@) && forall|i: int|
            0 <= i < paths@.len() && (#[trigger] paths@[i]) is Some ==> path_count(paths@, paths@[i]->0@)
                <= path_count(paths@, p@),
{
    let mut best: Option<(usize, usize)> = None;
    let mut i: usize = 0;
    while i < paths.len()
        invariant
            i <= paths@.len(),
            best is None ==> forall|j: int| 0 <= j < i ==> (#[trigger] paths@[j]) is None,
            best matches Some(b) ==> b.0 < i && paths@[b.0 as int] is Some && b.1 == path_count(paths@, paths@[b.0 as int]->0@)
                && forall|j: int| 0 <= j < i && (#[trigger] paths@[j]) is Some ==> path_count(paths@, paths@[j]->0@) <= b.1,
        decreases paths@.len() - i,
    {
        match &paths[i] {
            Some(p) => {
                let c = count_path(paths, p);
                match best {
                    None => {
                        best = Some((i, c));
                    },
                    Some((_, bc)) => {
                        if c > bc {
                            best = Some((i, c));
                        }
                    },
                }
            },
            None => {},
        }
        i = i + 1;
    }
    match best {
        None => None,
        Some((bi, _)) => {
            let p = paths[bi].clone();
            proof {
                assert((paths@[bi as int] matches Some(x) && x@ == p->0@));
            }
            p
        },
    }
}

/// The last non-empty `/`-separated segment of `path` (what people
/// recognise: `/Users/me/Desktop/Work/sjukra` gives `sjukra`), or the
/// whole path when it has none.
pub open spec fn project_name_spec(path: Seq<char>) -> Seq<char> {
    let t = crate::text::trim_end_char(path, '/');
    if t.len() == 0 {
        path
    } else {
        match crate::text::last_char_index(t, '/') {
            Some(i) => t.skip(i + 1),
            None => t,
        }
    }
}

/// The name people recognise a project path by.
pub fn project_name(path: &str) -> (r: String)
    ensures
        r@ == project_name_spec(path@),
{
    let v = chars_of(path);
    let mut e = v.len();
    assert(v@.take(e as int) =~= v@);
    while e > 0 && v[e - 1] == '/'
        invariant
            e <= v@.len(),
            crate::text::trim_end_char(v@, '/') == crate::text::trim_end_char(v@.take(e as int), '/'),
        decreases e,
    {
        assert(v@.take(e as int).drop_last() =~= v@.take(e - 1));
        e = e - 1;
    }
    assert(v@.take(e as int) =~= v@.subrange(0, e as int));
    assert(crate::text::trim_end_char(v@.take(e as int), '/') == v@.take(e as int));
    if e == 0 {
        return path.to_owned();
    }
    let mut k = e;
    while k > 0 && v[k - 1] != '/'
        invariant
            k <= e <= v@.len(),
            e > 0,
            crate::text::last_char_index(v@.take(e as int), '/') == crate::text::last_char_index(v@.take(k as int), '/'),
        decreases k,
    {
        assert(v@.take(k as int).drop_last() =~= v@.take(k - 1));
        k = k - 1;
    }
    let ghost t = v@.take(e as int);
    if k == 0 {
        assert(crate::text::last_char_index(v@.take(0), '/') is None);
        let r = string_of(v.as_slice(), 0, e);
        assert(r@ =~= t);
        r
    } else {
        assert(crate::text::last_char_index(v@.take(k as int), '/') == Some(k - 1));
        let r = string_of(v.as_slice(), k, e);
        assert(r@ =~= t.skip(k as int));
        r
    }
}


/// The distinct Jira keys seen in `blobs` (each event's title, then its
/// details, event by event), in order of first appearance.
pub open spec fn literal_matches(blobs: Seq<Option<String>>) -> Seq<Seq<char>>
    decreases blobs.len(),
{
    if blobs.len() == 0 {
        Seq::empty()
    } else {
        let r = literal_matches(blobs.drop_last());
        match blobs.last() {
            Some(b) => add_new(r, crate::pattern::jira_keys(b@)),
            None => r,
        }
    }
}

/// `seen` followed by the keys of `ks` not seen before, first occurrence
/// kept.
pub open spec fn add_new(seen: Seq<Seq<char>>, ks: Seq<Seq<char>>) -> Seq<Seq<char>>
    decreases ks.len(),
{
    if ks.len() == 0 {
        seen
    } else {
        let r = add_new(seen, ks.drop_last());
        if r.contains(ks.last()) {
            r
        } else {
            r.push(ks.last())
        }
    }
}

fn contains_str(v: &Vec<String>, k: &String) -> (r: bool)
    ensures
        r == v@.map_values(|s: String| s@).contains(k@),
{
    let ghost sv = v@.map_values(|s: String| s@);
    let mut i: usize = 0;
    while i < v.len()
        invariant
            i <= v@.len(),
            sv == v@.map_values(|s: String| s@),
            forall|j: int| 0 <= j < i ==> sv[j] != k@,
        decreases v@.len() - i,
    {
        if str_eq(v[i].as_str(), k.as_str()) {
            assert(sv[i as int] == k@);
            return true;
        }
        i = i + 1;
    }
    false
}

/// The Jira keys that appear verbatim in a block's events (`blobs`: each
/// event's title, then its details), distinct, in order of first
/// appearance.
pub fn collect_literal_matches(blobs: &Vec<Option<String>>) -> (r: Vec<String>)
    ensures
        r@.map_values(|s: String| s@) == literal_matches(blobs@),
{
    let mut out: Vec<String> = Vec::new();
    let mut i: usize = 0;
    assert(blobs@.take(0) =~= Seq::<Option<String>>::empty());
    assert(out@.map_values(|s: String| s@) =~= Seq::<Seq<char>>::empty());
    while i < blobs.len()
        invariant
            i <= blobs@.len(),
            out@.map_values(|s: String| s@) == literal_matches(blobs@.take(i as int)),
        decreases blobs@.len() - i,
    {
        assert(blobs@.take(i + 1).drop_last() =~= blobs@.take(i as int));
        assert(blobs@.take(i + 1).last() == blobs@[i as int]);
        match &blobs[i] {
            Some(b) => {
                let keys = crate::pattern::jira_keys_in(b.as_str());
                let ghost ks = keys@.map_values(|s: String| s@);
                let ghost seen = out@.map_values(|s: String| s@);
                let mut j: usize = 0;
                assert(ks.take(0) =~= Seq::<Seq<char>>::empty());
                while j < keys.len()
                    invariant
                        j <= keys@.len(),
                        ks == keys@.map_values(|s: String| s@),
                        out@.map_values(|s: String| s@) == add_new(seen, ks.take(j as int)),
                    decreases keys@.len() - j,
                {
                    assert(ks.take(j + 1).drop_last() =~= ks.take(j as int));
                    assert(ks.take(j + 1).last() == keys@[j as int]@);
                    let ghost before = out@;
                    if !contains_str(&out, &keys[j]) {
                        out.push(keys[j].clone());
                        assert(out@.map_values(|s: String| s@) =~= before.map_values(|s: String| s@).push(keys@[j as int]@));
                    }
                    j = j + 1;
                }
                assert(ks.take(keys@.len() as int) =~= ks);
            },
            None => {},
        }
        i = i + 1;
    }
    assert(blobs@.take(blobs@.len() as int) =~= blobs@);
    out
}


// ───────────────────────── estimator providers ─────────────────────────

/// The model a LiteLLM proxy is asked for when neither the caller nor the
/// configuration names one.
pub open spec fn default_litellm_model() -> Seq<char> {
    "anthropic/"@ + crate::sources::assistant() + "-haiku-4-5"@
}

/// `default_litellm_model()` as a string.
pub fn default_litellm_model_name() -> (s: String)
    ensures
        s@ == default_litellm_model(),
{
    let a = crate::sources::assistant_source();
    let b = crate::text::concat("anthropic/", a.as_str());
    crate::text::concat(b.as_str(), "-haiku-4-5")
}

/// An OpenAI-compatible proxy as configured: where requests go, the key
/// they carry (empty: no `Authorization` header) and the fallback model.
/// The HTTP client that talks to it is held by the caller.
#[derive(Clone)]
pub struct LiteLLMInvoker {
    pub base_url: String,
    pub api_key: String,
    pub default_model: String,
}

/// A configured base URL with trailing `/` and `/v1` suffixes removed, so
/// `http://host:4000` and `http://host:4000/v1/` reach the same endpoint.
pub open spec fn normalized_base(url: Seq<char>) -> Seq<char> {
    crate::text::trim_end_matches(
        crate::text::trim_end_matches(crate::text::trim_end_matches(url, "/"@), "/v1"@),
        "/"@,
    )
}

pub open spec fn http_scheme(url: Seq<char>) -> bool {
    crate::text::starts_with(url, "http://"@) || crate::text::starts_with(url, "https://"@)
}

pub open spec fn bad_scheme_msg(base: Seq<char>) -> Seq<char> {
    "litellm_base_url must start with http:// or https:// (got `"@ + base
        + "`). Run `worklog secret set litellm_base_url <URL>` to fix."@
}

fn strip_suffixes(base_url: &str) -> (r: String)
    ensures
        r@ == normalized_base(base_url@),
{
    let v = chars_of(base_url);
    let slash = chars_of("/");
    let v1 = chars_of("/v1");
    let a = crate::text::trim_end_matches_window(&v, 0, v.len(), &slash);
    let b = crate::text::trim_end_matches_window(&v, 0, a, &v1);
    let c = crate::text::trim_end_matches_window(&v, 0, b, &slash);
    assert(v@.subrange(0, v@.len() as int) =~= v@);
    string_of(v.as_slice(), 0, c)
}

impl LiteLLMInvoker {
    /// A proxy at `base_url` (trailing `/` and `/v1` tolerated). Any
    /// scheme but `http://` or `https://` is refused here, so a
    /// misconfigured URL fails before the first estimate.
    pub fn new(base_url: &str, api_key: &str, model: &str) -> (r: Result<LiteLLMInvoker, String>)
        ensures
            http_scheme(normalized_base(base_url@)) ==> (r matches Ok(i) && i.base_url@
                == normalized_base(base_url@) && i.api_key@ == api_key@ && i.default_model@
                == model@),
            !http_scheme(normalized_base(base_url@)) ==> (r matches Err(m) && m@ == bad_scheme_msg(
                normalized_base(base_url@),
            )),
    {
        let base = strip_suffixes(base_url);
        if !(crate::text::str_starts_with(base.as_str(), "http://") || crate::text::str_starts_with(
            base.as_str(),
            "https://",
        )) {
            let a = crate::text::concat("litellm_base_url must start with http:// or https:// (got `", base.as_str());
            return Err(crate::text::concat(a.as_str(), "`). Run `worklog secret set litellm_base_url <URL>` to fix."));
        }
        Ok(LiteLLMInvoker { base_url: base, api_key: api_key.to_owned(), default_model: model.to_owned() })
    }

    /// Where a request lands: `{base_url}/v1/chat/completions`.
    pub fn endpoint(&self) -> (r: String)
        ensures
            r@ == self.base_url@ + "/v1/chat/completions"@,
    {
        crate::text::concat(self.base_url.as_str(), "/v1/chat/completions")
    }

    /// The model used when a caller names none.
    pub fn configured_model(&self) -> (r: &str)
        ensures
            r@ == self.default_model@,
    {
        self.default_model.as_str()
    }

    /// The model a request runs with: the caller's unless it is blank,
    /// else the configured one.
    pub fn resolve_model(&self, caller: &str) -> (r: String)
        ensures
            r@ == (if trim(caller@).len() == 0 {
                self.default_model@
            } else {
                caller@
            }),
    {
        let t = crate::text::trim_owned(caller);
        if t.as_str().is_empty() {
            self.default_model.clone()
        } else {
            caller.to_owned()
        }
    }

    /// The system message a request carries: the prompt, a blank line and
    /// the reply schema, so a proxy that ignores `response_format` still
    /// sees what shape to answer in.
    pub fn system_with_schema(system: &str, schema: &str) -> (r: String)
        ensures
            r@ == system@ + "\n\nRespond ONLY with JSON matching this schema:\n"@ + schema@,
    {
        let a = crate::text::concat(system, "\n\nRespond ONLY with JSON matching this schema:\n");
        crate::text::concat(a.as_str(), schema)
    }
}

/// Replies larger than this (1 MiB) are refused unread.
pub const MAX_RESPONSE_BYTES: usize = 1_048_576;

/// Whether a reply body of `len` bytes is refused unread.
pub fn body_too_large(len: usize) -> (r: bool)
    ensures
        r == (len > MAX_RESPONSE_BYTES),
{
    len > MAX_RESPONSE_BYTES
}

/// The part of a failed reply's body an error quotes: its first 500
/// characters, so a proxy that echoes the request never puts unbounded
/// event content into a log.
pub fn bounded_body_preview(body: &str) -> (r: String)
    ensures
        r@ == take_chars(body@, 500),
{
    trunc(body, 500)
}

/// Which estimator a run goes through.
pub enum ProviderChoice {
    /// The assistant CLI run as a subprocess: the default.
    ClaudeSubprocess,
    /// A LiteLLM or other OpenAI-compatible proxy.
    LiteLLM(LiteLLMInvoker),
}

/// A setting as read: trimmed, and absent when blank.
pub open spec fn present(o: Option<Seq<char>>) -> Option<Seq<char>> {
    match o {
        Some(s) if trim(s).len() > 0 => Some(trim(s)),
        _ => None,
    }
}

pub open spec fn ostr_ref(o: Option<&str>) -> Option<Seq<char>> {
    match o {
        Some(s) => Some(s@),
        None => None,
    }
}

fn present_of(o: Option<&str>) -> (r: Option<String>)
    ensures
        match r {
            Some(x) => present(ostr_ref(o)) == Some(x@),
            None => present(ostr_ref(o)) is None,
        },
{
    match o {
        Some(s) => {
            let t = crate::text::trim_owned(s);
            if t.as_str().is_empty() {
                None
            } else {
                Some(t)
            }
        },
        None => None,
    }
}

/// The provider selector: the environment's value wins over the stored
/// one; each is trimmed, ignored when blank, and lowercased.
pub open spec fn selector_spec(env: Option<Seq<char>>, stored: Option<Seq<char>>) -> Option<Seq<char>> {
    match present(env) {
        Some(e) => Some(crate::routing::lowercase(e)),
        None => match present(stored) {
            Some(s) => Some(crate::routing::lowercase(s)),
            None => None,
        },
    }
}

/// The provider selector from `WORKLOG_ESTIMATOR_PROVIDER` (`env`) and
/// the stored `worklog_estimator_provider` setting (`stored`).
pub fn provider_selector(env: Option<&str>, stored: Option<&str>) -> (r: Option<String>)
    ensures
        match r {
            Some(x) => selector_spec(ostr_ref(env), ostr_ref(stored)) == Some(x@),
            None => selector_spec(ostr_ref(env), ostr_ref(stored)) is None,
        },
{
    match present_of(env) {
        Some(e) => Some(crate::routing::to_lower(e.as_str())),
        None => match present_of(stored) {
            Some(s) => Some(crate::routing::to_lower(s.as_str())),
            None => None,
        },
    }
}

/// Selector values that pick the subprocess.
pub open spec fn picks_subprocess(sel: Seq<char>) -> bool {
    sel == "claude_subprocess"@ || sel == "subprocess"@ || sel == crate::sources::assistant()
}

pub open spec fn missing_url_msg() -> Seq<char> {
    "estimator provider `litellm` selected, but `litellm_base_url` is not set. Run `worklog setup` or `worklog secret set litellm_base_url <URL>`."@
}

pub open spec fn unknown_provider_msg(sel: Seq<char>) -> Seq<char> {
    "unknown estimator provider `"@ + sel
        + "`. Expected `claude_subprocess` or `litellm` (set via WORKLOG_ESTIMATOR_PROVIDER env or `worklog setup`)."@
}

/// What [`choose_provider`] returns for a selector and the stored
/// LiteLLM settings.
pub open spec fn chose(
    selector: Option<Seq<char>>,
    base_url: Option<Seq<char>>,
    api_key: Option<Seq<char>>,
    model: Option<Seq<char>>,
    r: Result<ProviderChoice, String>,
) -> bool {
    match selector {
        None => r matches Ok(ProviderChoice::ClaudeSubprocess),
        Some(sel) => if picks_subprocess(sel) {
            r matches Ok(ProviderChoice::ClaudeSubprocess)
        } else if sel == "litellm"@ {
            match present(base_url) {
                None => r matches Err(m) && m@ == missing_url_msg(),
                Some(u) => {
                    let m = match present(model) {
                        Some(x) => x,
                        None => default_litellm_model(),
                    };
                    let k = match api_key {
                        Some(k) => k,
                        None => Seq::<char>::empty(),
                    };
                    &&& http_scheme(normalized_base(u)) ==> (r matches Ok(ProviderChoice::LiteLLM(i))
                        && i.base_url@ == normalized_base(u) && i.api_key@ == k && i.default_model@ == m)
                    &&& !http_scheme(normalized_base(u)) ==> (r matches Err(e) && e@ == bad_scheme_msg(
                        normalized_base(u),
                    ))
                },
            }
        } else {
            r matches Err(m) && m@ == unknown_provider_msg(sel)
        },
    }
}

/// Which estimator a run uses. `selector` is what [`provider_selector`]
/// gave; `base_url`, `api_key` and `model` are the stored LiteLLM
/// settings. Nothing selected means the subprocess; `litellm` needs a
/// base URL (the key may be empty, the model falls back to
/// [`default_litellm_model`]); anything else is refused by name.
pub fn choose_provider(
    selector: Option<&str>,
    base_url: Option<&str>,
    api_key: Option<&str>,
    model: Option<&str>,
) -> (r: Result<ProviderChoice, String>)
    ensures
        chose(ostr_ref(selector), ostr_ref(base_url), ostr_ref(api_key), ostr_ref(model), r),
{
    let sel = match selector {
        None => {
            return Ok(ProviderChoice::ClaudeSubprocess);
        },
        Some(s) => s,
    };
    let assistant = crate::sources::assistant_source();
    if str_eq(sel, "claude_subprocess") || str_eq(sel, "subprocess") || str_eq(sel, assistant.as_str()) {
        return Ok(ProviderChoice::ClaudeSubprocess);
    }
    if str_eq(sel, "litellm") {
        let url = match present_of(base_url) {
            Some(u) => u,
            None => {
                return Err("estimator provider `litellm` selected, but `litellm_base_url` is not set. Run `worklog setup` or `worklog secret set litellm_base_url <URL>`.".to_owned());
            },
        };
        let m = match present_of(model) {
            Some(x) => x,
            None => default_litellm_model_name(),
        };
        let k = match api_key {
            Some(k) => k.to_owned(),
            None => String::new(),
        };
        proof {
            reveal_strlit("");
        }
        return match LiteLLMInvoker::new(url.as_str(), k.as_str(), m.as_str()) {
            Ok(i) => Ok(ProviderChoice::LiteLLM(i)),
            Err(e) => Err(e),
        };
    }
    let a = crate::text::concat("unknown estimator provider `", sel);
    Err(crate::text::concat(a.as_str(), "`. Expected `claude_subprocess` or `litellm` (set via WORKLOG_ESTIMATOR_PROVIDER env or `worklog setup`)."))
}

/// Which estimator a run uses, from the environment's selector (`env`)
/// and the stored settings.
pub fn resolve_provider(
    env: Option<&str>,
    stored_selector: Option<&str>,
    base_url: Option<&str>,
    api_key: Option<&str>,
    model: Option<&str>,
) -> (r: Result<ProviderChoice, String>)
    ensures
        chose(
            selector_spec(ostr_ref(env), ostr_ref(stored_selector)),
            ostr_ref(base_url),
            ostr_ref(api_key),
            ostr_ref(model),
            r,
        ),
{
    let sel = provider_selector(env, stored_selector);
    match sel {
        Some(s) => choose_provider(Some(s.as_str()), base_url, api_key, model),
        None => choose_provider(None, base_url, api_key, model),
    }
}


// ───────────────────────── the assistant subprocess ─────────────────────────

/// How long the assistant subprocess may run before it is killed.
pub const SUBPROCESS_TIMEOUT_SECS: u64 = 60;

/// How much of the subprocess's stderr a failure reports.
pub const STDERR_PREVIEW_CHARS: usize = 500;

/// The estimator run as the assistant CLI (`<assistant> -p`): the prompt
/// on stdin, the reply as JSON on stdout. Spawning, polling and reading
/// the pipes are the caller's; what to run and what each poll means are
/// decided here.
pub struct ClaudeSubprocess;

/// What a poll of the running subprocess calls for.
#[derive(Debug, Clone, PartialEq, Eq)]
pub enum PollStep {
    /// Still running, within the time limit: poll again.
    Wait,
    /// Still running past the time limit: kill it and fail with this.
    TimedOut(String),
    /// Exited unsuccessfully: fail with this.
    Failed(String),
    /// Exited successfully: parse stdout.
    Done,
}

pub open spec fn exit_msg(code: Option<i32>, stderr: Seq<char>) -> Seq<char> {
    crate::sources::assistant() + " -p exited "@ + crate::text::signed_decimal(
        match code {
            Some(c) => c as int,
            None => -1,
        },
    ) + " — "@ + stderr.take(
        if STDERR_PREVIEW_CHARS < stderr.len() {
            STDERR_PREVIEW_CHARS as int
        } else {
            stderr.len() as int
        },
    )
}

pub open spec fn timeout_msg() -> Seq<char> {
    crate::sources::assistant() + " -p timed out after "@ + crate::text::decimal(
        SUBPROCESS_TIMEOUT_SECS as nat,
    ) + "s"@
}

pub open spec fn strings_view(v: Seq<String>) -> Seq<Seq<char>> {
    v.map_values(|s: String| s@)
}

impl ClaudeSubprocess {
    /// The program run.
    pub fn program() -> (s: String)
        ensures
            s@ == crate::sources::assistant(),
    {
        crate::sources::assistant_source()
    }

    /// Its arguments: print mode, the model, JSON output checked against
    /// `schema`, and the system prompt.
    pub fn args(model: &str, schema: &str, system: &str) -> (v: Vec<String>)
        ensures
            strings_view(v@) == seq![
                "-p"@,
                "--model"@,
                model@,
                "--output-format"@,
                "json"@,
                "--json-schema"@,
                schema@,
                "--system-prompt"@,
                system@,
            ],
    {
        let v = vec![
            "-p".to_owned(),
            "--model".to_owned(),
            model.to_owned(),
            "--output-format".to_owned(),
            "json".to_owned(),
            "--json-schema".to_owned(),
            schema.to_owned(),
            "--system-prompt".to_owned(),
            system.to_owned(),
        ];
        assert(strings_view(v@) =~= seq![
            "-p"@,
            "--model"@,
            model@,
            "--output-format"@,
            "json"@,
            "--json-schema"@,
            schema@,
            "--system-prompt"@,
            system@,
        ]);
        v
    }

    /// What one poll means. `exit` is `None` while the process runs, else
    /// whether it succeeded and its exit code; `stderr` is what it wrote
    /// there; `elapsed_secs` the whole seconds since it was spawned.
    pub fn poll(exit: Option<(bool, Option<i32>)>, stderr: &str, elapsed_secs: u64) -> (p: PollStep)
        ensures
            match exit {
                None => if elapsed_secs > SUBPROCESS_TIMEOUT_SECS {
                    p matches PollStep::TimedOut(m) && m@ == timeout_msg()
                } else {
                    p == PollStep::Wait
                },
                Some((true, _)) => p == PollStep::Done,
                Some((false, code)) => p matches PollStep::Failed(m) && m@ == exit_msg(code, stderr@),
            },
    {
        match exit {
            None => {
                if elapsed_secs > SUBPROCESS_TIMEOUT_SECS {
                    let a = Self::program();
                    let b = crate::text::concat(a.as_str(), " -p timed out after ");
                    let c = crate::text::concat(b.as_str(), crate::text::u32_string(60).as_str());
                    PollStep::TimedOut(crate::text::concat(c.as_str(), "s"))
                } else {
                    PollStep::Wait
                }
            },
            Some((true, _)) => PollStep::Done,
            Some((false, code)) => {
                let n: i32 = match code {
                    Some(c) => c,
                    None => -1,
                };
                let a = Self::program();
                let b = crate::text::concat(a.as_str(), " -p exited ");
                let c = crate::text::concat(b.as_str(), crate::text::i32_string(n).as_str());
                let d = crate::text::concat(c.as_str(), " — ");
                PollStep::Failed(crate::text::concat(d.as_str(), trunc(stderr, STDERR_PREVIEW_CHARS).as_str()))
            },
        }
    }
}


// ───────────────────────── reading the reply ─────────────────────────

/// A member of a JSON object, told apart as the reply reader needs: an
/// object (with its JSON text), a string (with its value), or anything
/// else.
#[derive(Debug, Clone, PartialEq, Eq)]
pub enum Member {
    Object(String),
    Text(String),
    Other,
}

/// A JSON text, told apart as the reply reader needs.
#[derive(Debug, Clone, PartialEq, Eq)]
pub enum Doc {
    /// Not JSON at all.
    NotJson,
    /// JSON, but not an object.
    NotObject,
    /// An object, with its `structured_output` and `result` members.
    Object { structured_output: Option<Member>, result: Option<Member> },
}

pub enum MemberView {
    Object(Seq<char>),
    Text(Seq<char>),
    Other,
}

pub enum DocView {
    NotJson,
    NotObject,
    Object(Option<MemberView>, Option<MemberView>),
}

pub open spec fn member_view(m: Member) -> MemberView {
    match m {
        Member::Object(t) => MemberView::Object(t@),
        Member::Text(t) => MemberView::Text(t@),
        Member::Other => MemberView::Other,
    }
}

pub open spec fn opt_member_view(m: Option<Member>) -> Option<MemberView> {
    match m {
        Some(x) => Some(member_view(x)),
        None => None,
    }
}

pub open spec fn doc_view(d: Doc) -> DocView {
    match d {
        Doc::NotJson => DocView::NotJson,
        Doc::NotObject => DocView::NotObject,
        Doc::Object { structured_output, result } => DocView::Object(
            opt_member_view(structured_output),
            opt_member_view(result),
        ),
    }
}

/// How `serde_json` reads `text`, told apart as the reply reader needs.
pub uninterp spec fn json_doc(text: Seq<char>) -> DocView;

/// Whether `serde_json` reads `text` as a JSON value.
pub open spec fn json_valid(text: Seq<char>) -> bool {
    !(json_doc(text) is NotJson)
}

/// Calls `serde_json::from_str::<serde_json::Value>` and tells the value
/// apart: not JSON, not an object, or an object with its
/// `structured_output` and `result` members (an object member carries
/// its JSON text, a string member its value). The contract names the
/// result, a function of the text alone.
#[verifier::external_body]
fn read_doc(text: &str) -> (d: Doc)
    ensures
        doc_view(d) == json_doc(text@),
{
    let member = |v: &serde_json::Value| match v {
        serde_json::Value::Object(_) => Member::Object(v.to_string()),
        serde_json::Value::String(s) => Member::Text(s.clone()),
        _ => Member::Other,
    };
    match serde_json::from_str::<serde_json::Value>(text) {
        Err(_) => Doc::NotJson,
        Ok(serde_json::Value::Object(m)) => Doc::Object {
            structured_output: m.get("structured_output").map(member),
            result: m.get("result").map(member),
        },
        Ok(_) => Doc::NotObject,
    }
}

/// Whether `text` is JSON.
fn is_json(text: &str) -> (r: bool)
    ensures
        r == json_valid(text@),
{
    match read_doc(text) {
        Doc::NotJson => false,
        _ => true,
    }
}

/// The text from the first `{` to the last `}` after it, when there is
/// one: what `(?s)\{.*\}` finds.
pub open spec fn brace_span(t: Seq<char>) -> Option<Seq<char>> {
    match crate::text::char_index(t, '{') {
        Some(i) => match crate::text::last_char_index(t, '}') {
            Some(j) if j > i => Some(t.subrange(i, j + 1)),
            _ => None,
        },
        None => None,
    }
}

/// The embedded-object fallback: the brace span when it is JSON.
pub open spec fn embedded(t: Seq<char>) -> Result<Seq<char>, Seq<char>> {
    match brace_span(t) {
        Some(e) => if json_valid(e) {
            Ok(e)
        } else {
            Err("embedded JSON invalid"@)
        },
        None => Err("no JSON object in response"@),
    }
}

/// The reply object in the estimator's output `t` (already trimmed), as
/// JSON text. In order: a `structured_output` object; a
/// `structured_output` string holding JSON; a `result` string holding
/// JSON; a `result` object; the whole text when it is an object with
/// neither member; else the embedded brace span.
pub open spec fn reply_json(t: Seq<char>) -> Result<Seq<char>, Seq<char>> {
    match json_doc(t) {
        DocView::Object(so, res) => {
            if object_of(so) is Some {
                Ok(object_of(so)->0)
            } else if json_text_of(so) is Some {
                Ok(json_text_of(so)->0)
            } else if json_text_of(res) is Some {
                Ok(json_text_of(res)->0)
            } else if object_of(res) is Some {
                Ok(object_of(res)->0)
            } else if so is None && res is None {
                Ok(t)
            } else {
                embedded(t)
            }
        },
        _ => embedded(t),
    }
}

/// The JSON text of an object member.
pub open spec fn object_of(m: Option<MemberView>) -> Option<Seq<char>> {
    match m {
        Some(MemberView::Object(x)) => Some(x),
        _ => None,
    }
}

/// The value of a string member that is itself JSON.
pub open spec fn json_text_of(m: Option<MemberView>) -> Option<Seq<char>> {
    match m {
        Some(MemberView::Text(x)) => if json_valid(x) {
            Some(x)
        } else {
            None
        },
        _ => None,
    }
}

fn brace_fallback(t: &str) -> (r: Result<String, String>)
    ensures
        match embedded(t@) {
            Ok(e) => r matches Ok(x) && x@ == e,
            Err(m) => r matches Err(x) && x@ == m,
        },
{
    let v = chars_of(t);
    let n = v.len();
    assert(v@.subrange(0, n as int) =~= v@);
    let i = match crate::text::find_char(&v, '{', 0, n) {
        Some(i) => i,
        None => {
            return Err("no JSON object in response".to_owned());
        },
    };
    let mut j = n;
    while j > 0 && v[j - 1] != '}'
        invariant
            j <= n == v@.len(),
            crate::text::last_char_index(v@, '}') == crate::text::last_char_index(v@.take(j as int), '}'),
        decreases j,
    {
        assert(v@.take(j as int).drop_last() =~= v@.take(j - 1));
        j = j - 1;
    }
    if j == 0 || j - 1 <= i {
        proof {
            if j > 0 {
                assert(v@.take(j as int).last() == '}');
            } else {
                assert(v@.take(0) =~= Seq::<char>::empty());
            }
        }
        return Err("no JSON object in response".to_owned());
    }
    assert(v@.take(j as int).last() == '}');
    let e = string_of(v.as_slice(), i, j);
    if is_json(e.as_str()) {
        Ok(e)
    } else {
        Err("embedded JSON invalid".to_owned())
    }
}

/// The reply object in the estimator's raw output, as JSON text:
/// [`reply_json`] of the trimmed output. Handles the CLI's envelope
/// (`structured_output` object or JSON string, `result` JSON string or
/// object), a bare object, and JSON wrapped in prose.
pub fn parse_response(raw: &str) -> (r: Result<String, String>)
    ensures
        match reply_json(trim(raw@)) {
            Ok(e) => r matches Ok(x) && x@ == e,
            Err(m) => r matches Err(x) && x@ == m,
        },
{
    let t = crate::text::trim_owned(raw);
    let d = read_doc(t.as_str());
    match d {
        Doc::Object { structured_output, result } => {
            if let Some(Member::Object(x)) = &structured_output {
                return Ok(x.clone());
            }
            if let Some(Member::Text(x)) = &structured_output {
                if is_json(x.as_str()) {
                    return Ok(x.clone());
                }
            }
            if let Some(Member::Text(x)) = &result {
                if is_json(x.as_str()) {
                    return Ok(x.clone());
                }
            }
            if let Some(Member::Object(x)) = &result {
                return Ok(x.clone());
            }
            if structured_output.is_none() && result.is_none() {
                return Ok(t);
            }
            brace_fallback(t.as_str())
        },
        _ => brace_fallback(t.as_str()),
    }
}


// ───────────────────────── what the estimator is shown ─────────────────────────

/// An event of a block, as the estimator's input reads it.
#[derive(Debug, Clone)]
pub struct EventRow {
    pub source: String,
    pub started_at: String,
    pub title: Option<String>,
    pub details: Option<String>,
    pub jira_issue: Option<String>,
    pub project_path: Option<String>,
}

/// One event as the estimator sees it.
#[derive(Debug, Clone, PartialEq, Eq)]
pub struct PromptEvent {
    /// The event's source.
    pub kind: String,
    pub timestamp: String,
    pub summary: String,
    pub details: Option<String>,
    pub jira_issue: Option<String>,
    pub project: Option<String>,
}

/// The first `n` characters of `s`.
pub open spec fn take_chars(s: Seq<char>, n: int) -> Seq<char> {
    s.take(if n < s.len() {
        n
    } else {
        s.len() as int
    })
}

/// The details shown for an event: redacted first, then dropped when
/// nothing is left, then cut to the source's cap. Redacting before
/// cutting means a cut never leaves half a code block behind.
pub open spec fn shown_details(source: Seq<char>, details: Option<Seq<char>>) -> Option<Seq<char>> {
    match details {
        Some(d) => if redacted(d).len() == 0 {
            None
        } else {
            Some(take_chars(
                redacted(d),
                if source == crate::sources::assistant() {
                    DETAILS_CAP_CLAUDE as int
                } else {
                    DETAILS_CAP_OTHER as int
                },
            ))
        },
        None => None,
    }
}

pub open spec fn opt_name(o: Option<String>) -> Option<Seq<char>> {
    match o {
        Some(p) => Some(project_name_spec(p@)),
        None => None,
    }
}

/// What the estimator is shown of `e`.
pub open spec fn prompt_event_spec(e: EventRow, p: PromptEvent) -> bool {
    &&& p.kind@ == e.source@
    &&& p.timestamp@ == e.started_at@
    &&& p.summary@ == take_chars(
        redacted(
            match e.title {
                Some(t) => t@,
                None => Seq::<char>::empty(),
            },
        ),
        DETAILS_CAP_OTHER as int,
    )
    &&& opt_str(p.details) == shown_details(e.source@, opt_str(e.details))
    &&& p.jira_issue == e.jira_issue
    &&& opt_str(p.project) == opt_name(e.project_path)
}

/// What the estimator is shown of one event: its summary (title,
/// redacted, at most 200 characters), its details (see
/// [`shown_details`]), its ticket and its project's name.
pub fn prompt_event(e: &EventRow) -> (p: PromptEvent)
    ensures
        prompt_event_spec(*e, p),
{
    let title = match &e.title {
        Some(t) => t.clone(),
        None => String::new(),
    };
    proof {
        reveal_strlit("");
    }
    let summary = trunc(redact_code(title.as_str()).as_str(), DETAILS_CAP_OTHER);
    let details = match &e.details {
        Some(d) => {
            let r = redact_code(d.as_str());
            if r.as_str().is_empty() {
                None
            } else {
                Some(trunc(r.as_str(), event_details_cap(e.source.as_str())))
            }
        },
        None => None,
    };
    let project = match &e.project_path {
        Some(p) => Some(project_name(p.as_str())),
        None => None,
    };
    PromptEvent {
        kind: e.source.clone(),
        timestamp: e.started_at.clone(),
        summary,
        details,
        jira_issue: crate::infer::copy_opt(&e.jira_issue),
        project,
    }
}

/// The estimator's input for one block.
#[derive(Debug, Clone)]
pub struct UserMessage {
    pub block_duration_minutes: i64,
    pub inferred_jira_issue: Option<String>,
    /// The working directory most of the block's events ran in.
    pub project_path: Option<String>,
    pub project_name: Option<String>,
    pub candidate_tickets: Vec<Candidate>,
    pub literal_matches: Vec<String>,
    pub events: Vec<PromptEvent>,
}

/// The estimator's input for a block of `duration_minutes` whose inferred
/// ticket is `inferred`, made of its events, the open tickets it may pick
/// and the keys seen verbatim in its events.
pub fn build_user_message(
    duration_minutes: i64,
    inferred: Option<String>,
    events: &Vec<EventRow>,
    candidates: Vec<Candidate>,
    literals: Vec<String>,
) -> (m: UserMessage)
    ensures
        m.block_duration_minutes == duration_minutes,
        m.inferred_jira_issue == inferred,
        m.candidate_tickets@ == candidates@,
        m.literal_matches@ == literals@,
        m.events@.len() == events@.len(),
        forall|i: int| 0 <= i < events@.len() ==> prompt_event_spec(#[trigger] events@[i], m.events@[i]),
        ({
            let paths = events@.map_values(|e: EventRow| e.project_path);
            &&& m.project_path is None <==> !exists|i: int| 0 <= i < paths.len() && (#[trigger] paths[i]) is Some
            &&& m.project_path matches Some(p) ==> has_path(paths, p@) && forall|i: int|
                0 <= i < paths.len() && (#[trigger] paths[i]) is Some ==> path_count(paths, paths[i]->0@)
                    <= path_count(paths, p@)
            &&& opt_str(m.project_name) == opt_name(m.project_path)
        }),
{
    let mut paths: Vec<Option<String>> = Vec::new();
    let mut shown: Vec<PromptEvent> = Vec::new();
    let mut i: usize = 0;
    while i < events.len()
        invariant
            i <= events@.len(),
            paths@ == events@.take(i as int).map_values(|e: EventRow| e.project_path),
            shown@.len() == i,
            forall|j: int| 0 <= j < i ==> prompt_event_spec(#[trigger] events@[j], shown@[j]),
        decreases events@.len() - i,
    {
        let ghost before = paths@;
        paths.push(crate::infer::copy_opt(&events[i].project_path));
        assert(paths@ =~= events@.take(i + 1).map_values(|e: EventRow| e.project_path)) by {
            assert(events@.take(i + 1) =~= events@.take(i as int).push(events@[i as int]));
        }
        shown.push(prompt_event(&events[i]));
        i = i + 1;
    }
    assert(events@.take(events@.len() as int) =~= events@);
    let dom = dominant_project(&paths);
    let name = match &dom {
        Some(p) => Some(project_name(p.as_str())),
        None => None,
    };
    UserMessage {
        block_duration_minutes: duration_minutes,
        inferred_jira_issue: inferred,
        project_path: dom,
        project_name: name,
        candidate_tickets: candidates,
        literal_matches: literals,
        events: shown,
    }
}

} // verus!
