//! Prompt snippets for the owner's own review.
//!
//! Prompt text is never stored: when the owner opens a block's events, the
//! first words of each prompt are read from the local transcript and
//! shown. Finding the transcript line is the caller's; which line belongs
//! to which event, and what of it is shown, is decided here.
use vstd::prelude::*;

use crate::models::Event;
use crate::text::{chars_of, is_whitespace, is_ws, str_eq, string_of};

verus! {

/// The longest snippet, in characters (an ellipsis marks a cut).
pub const SNIPPET_CHARS: usize = 160;

/// `s` scanned left to right: the words so far joined by single spaces,
/// and whether whitespace followed the last word.
pub open spec fn squeeze_state(s: Seq<char>) -> (Seq<char>, bool)
    decreases s.len(),
{
    if s.len() == 0 {
        (Seq::empty(), false)
    } else {
        let (o, gap) = squeeze_state(s.drop_last());
        let c = s.last();
        if is_ws(c) {
            (o, o.len() > 0)
        } else if gap {
            (o.push(' ').push(c), false)
        } else {
            (o.push(c), false)
        }
    }
}

/// The words of `s` joined by single spaces
/// (`split_whitespace().collect::<Vec<_>>().join(" ")`).
pub open spec fn squeeze(s: Seq<char>) -> Seq<char> {
    squeeze_state(s).0
}

/// What the review shows of a prompt: its words joined by single spaces,
/// cut to [`SNIPPET_CHARS`] characters and an ellipsis when longer;
/// nothing when it has no words.
pub open spec fn snippet_spec(text: Seq<char>) -> Option<Seq<char>> {
    let f = squeeze(text);
    if f.len() == 0 {
        None
    } else if f.len() > SNIPPET_CHARS {
        Some(f.take(SNIPPET_CHARS as int).push('…'))
    } else {
        Some(f)
    }
}

/// The words of `text` joined by single spaces.
pub fn squeeze_text(text: &str) -> (r: String)
    ensures
        r@ == squeeze(text@),
{
    let v = chars_of(text);
    let mut out: Vec<char> = Vec::new();
    let mut gap = false;
    let mut i: usize = 0;
    assert(v@.take(0) =~= Seq::<char>::empty());
    while i < v.len()
        invariant
            i <= v@.len(),
            (out@, gap) == squeeze_state(v@.take(i as int)),
        decreases v@.len() - i,
    {
        assert(v@.take(i + 1).drop_last() =~= v@.take(i as int));
        assert(v@.take(i + 1).last() == v@[i as int]);
        let c = v[i];
        if is_whitespace(c) {
            gap = out.len() > 0;
        } else {
            if gap {
                out.push(' ');
            }
            out.push(c);
            gap = false;
        }
        i = i + 1;
    }
    assert(v@.take(v@.len() as int) =~= v@);
    let n = out.len();
    assert(out@.subrange(0, n as int) =~= out@);
    string_of(out.as_slice(), 0, n)
}

/// What the review shows of the typed text of a prompt line.
pub fn snippet(text: &str) -> (r: Option<String>)
    ensures
        match r {
            Some(s) => snippet_spec(text@) == Some(s@),
            None => snippet_spec(text@) is None,
        },
{
    let flat = squeeze_text(text);
    let v = chars_of(flat.as_str());
    if v.len() == 0 {
        return None;
    }
    if v.len() > SNIPPET_CHARS {
        let mut cut: Vec<char> = Vec::new();
        crate::text::push_window(&mut cut, &v, 0, SNIPPET_CHARS);
        cut.push('…');
        assert(cut@ =~= v@.take(SNIPPET_CHARS as int).push('…'));
        let n = cut.len();
        assert(cut@.subrange(0, n as int) =~= cut@);
        return Some(string_of(cut.as_slice(), 0, n));
    }
    Some(flat)
}

/// The typed text of a prompt line whose content is a list of parts: the
/// text parts, joined by single spaces.
pub open spec fn join_parts(parts: Seq<Seq<char>>) -> Seq<char>
    decreases parts.len(),
{
    if parts.len() == 0 {
        Seq::empty()
    } else if parts.len() == 1 {
        parts[0]
    } else {
        join_parts(parts.drop_last()) + seq![' '] + parts.last()
    }
}

/// The text parts of a prompt line, joined by single spaces.
pub fn join_text_parts(parts: &Vec<String>) -> (r: String)
    ensures
        r@ == join_parts(parts@.map_values(|p: String| p@)),
{
    let ghost pv = parts@.map_values(|p: String| p@);
    let mut out: Vec<char> = Vec::new();
    let mut i: usize = 0;
    while i < parts.len()
        invariant
            i <= parts@.len(),
            pv == parts@.map_values(|p: String| p@),
            out@ == join_parts(pv.take(i as int)),
        decreases parts@.len() - i,
    {
        assert(pv.take(i + 1).drop_last() =~= pv.take(i as int));
        assert(pv.take(i + 1).last() == parts@[i as int]@);
        if i > 0 {
            out.push(' ');
        }
        let w = chars_of(parts[i].as_str());
        crate::text::push_window(&mut out, &w, 0, w.len());
        assert(w@.subrange(0, w@.len() as int) =~= w@);
        if i == 0 {
            assert(pv.take(1) =~= seq![parts@[0]@]);
        }
        assert(out@ =~= join_parts(pv.take(i + 1)));
        i = i + 1;
    }
    assert(pv.take(parts@.len() as int) =~= pv);
    let n = out.len();
    assert(out@.subrange(0, n as int) =~= out@);
    string_of(out.as_slice(), 0, n)
}

/// `(session, line uuid)` of a prompt event: a stored prompt turn whose
/// `source_id` is `<session>:<uuid>`.
pub open spec fn turn_key_spec(e: Event) -> Option<(Seq<char>, Seq<char>)> {
    if e.source@ == crate::sources::assistant_turn() && e.id is Some {
        match crate::text::char_index(e.source_id@, ':') {
            Some(i) => Some((e.source_id@.take(i), e.source_id@.skip(i + 1))),
            None => None,
        }
    } else {
        None
    }
}

/// Which transcript line a prompt event reads from: its session and line
/// uuid, split at the first `:` of its `source_id`.
pub fn turn_key(e: &Event) -> (r: Option<(String, String)>)
    ensures
        match r {
            Some((s, u)) => turn_key_spec(*e) == Some((s@, u@)),
            None => turn_key_spec(*e) is None,
        },
{
    let turn = crate::sources::assistant_turn_source();
    if !str_eq(e.source.as_str(), turn.as_str()) || e.id.is_none() {
        return None;
    }
    let v = chars_of(e.source_id.as_str());
    let n = v.len();
    assert(v@.subrange(0, n as int) =~= v@);
    match crate::text::find_char(&v, ':', 0, n) {
        Some(i) => {
            let s = string_of(v.as_slice(), 0, i);
            let u = string_of(v.as_slice(), i + 1, n);
            assert(v@.subrange(0, i as int) =~= v@.take(i as int));
            assert(v@.subrange(i + 1, n as int) =~= v@.skip(i + 1));
            Some((s, u))
        },
        None => None,
    }
}


/// What a transcript line's `message.content` holds, as the snippet reads it.
#[derive(Debug, Clone)]
pub enum LineContent {
    /// A string: the typed text itself.
    Text(String),
    /// A list: each item's `type` and `text`, where they are strings.
    Parts(Vec<(Option<String>, Option<String>)>),
    /// Anything else, or no `message.content` at all.
    Other,
}

/// A transcript line as the snippet reads it.
#[derive(Debug, Clone)]
pub struct TranscriptLine {
    /// The line's `uuid`, where it is a string.
    pub uuid: Option<String>,
    pub content: LineContent,
}

pub enum LineContentView {
    Text(Seq<char>),
    Parts(Seq<(Option<Seq<char>>, Option<Seq<char>>)>),
    Other,
}

pub open spec fn ov(o: Option<String>) -> Option<Seq<char>> {
    match o {
        Some(s) => Some(s@),
        None => None,
    }
}

pub open spec fn content_view(c: LineContent) -> LineContentView {
    match c {
        LineContent::Text(t) => LineContentView::Text(t@),
        LineContent::Parts(ps) => LineContentView::Parts(
            ps@.map_values(|p: (Option<String>, Option<String>)| (ov(p.0), ov(p.1))),
        ),
        LineContent::Other => LineContentView::Other,
    }
}

pub open spec fn line_view(l: Option<TranscriptLine>) -> Option<(Option<Seq<char>>, LineContentView)> {
    match l {
        Some(t) => Some((ov(t.uuid), content_view(t.content))),
        None => None,
    }
}

/// How `serde_json` reads a transcript line: its `uuid` and its
/// `message.content`; `None` when the line is not JSON.
pub uninterp spec fn transcript_line(text: Seq<char>) -> Option<(Option<Seq<char>>, LineContentView)>;

/// Calls `serde_json::from_str::<serde_json::Value>` on a transcript line
/// and reads off its `uuid` and `message.content` (a string, or a list
/// of items' `type` and `text` strings). The contract names the result:
/// it is a function of the text alone.
#[verifier::external_body]
fn read_line(text: &str) -> (r: Option<TranscriptLine>)
    ensures
        line_view(r) == transcript_line(text@),
{
    let s = |v: Option<&serde_json::Value>| v.and_then(serde_json::Value::as_str).map(str::to_owned);
    let v: serde_json::Value = serde_json::from_str(text).ok()?;
    let content = match v.pointer("/message/content") {
        Some(serde_json::Value::String(t)) => LineContent::Text(t.clone()),
        Some(serde_json::Value::Array(items)) => LineContent::Parts(
            items.iter().map(|i| (s(i.get("type")), s(i.get("text")))).collect(),
        ),
        _ => LineContent::Other,
    };
    Some(TranscriptLine { uuid: s(v.get("uuid")), content })
}

/// The texts of the items that are text parts, in order.
pub open spec fn text_parts(ps: Seq<(Option<Seq<char>>, Option<Seq<char>>)>) -> Seq<Seq<char>>
    decreases ps.len(),
{
    if ps.len() == 0 {
        Seq::empty()
    } else {
        let r = text_parts(ps.drop_last());
        match ps.last() {
            (Some(t), Some(x)) if t == "text"@ => r.push(x),
            _ => r,
        }
    }
}

/// The typed text of a line's content: the string itself, or its text
/// parts joined by single spaces; nothing for any other content.
pub open spec fn typed_text(c: LineContentView) -> Option<Seq<char>> {
    match c {
        LineContentView::Text(t) => Some(t),
        LineContentView::Parts(ps) => Some(join_parts(text_parts(ps))),
        LineContentView::Other => None,
    }
}

/// What a transcript line shows: its uuid and its snippet, when it is JSON
/// with a string `uuid` and typed text that has words.
pub open spec fn line_snippet_spec(text: Seq<char>) -> Option<(Seq<char>, Seq<char>)> {
    match transcript_line(text) {
        Some((Some(u), c)) => match typed_text(c) {
            Some(t) => match snippet_spec(t) {
                Some(s) => Some((u, s)),
                None => None,
            },
            None => None,
        },
        _ => None,
    }
}

fn text_parts_of(ps: &Vec<(Option<String>, Option<String>)>) -> (r: Vec<String>)
    ensures
        r@.map_values(|p: String| p@) == text_parts(
            ps@.map_values(|p: (Option<String>, Option<String>)| (ov(p.0), ov(p.1))),
        ),
{
    let ghost pv = ps@.map_values(|p: (Option<String>, Option<String>)| (ov(p.0), ov(p.1)));
    let mut out: Vec<String> = Vec::new();
    let mut i: usize = 0;
    while i < ps.len()
        invariant
            i <= ps@.len(),
            pv == ps@.map_values(|p: (Option<String>, Option<String>)| (ov(p.0), ov(p.1))),
            out@.map_values(|p: String| p@) == text_parts(pv.take(i as int)),
        decreases ps@.len() - i,
    {
        assert(pv.take(i + 1).drop_last() =~= pv.take(i as int));
        assert(pv.take(i + 1).last() == pv[i as int]);
        let ghost before = out@;
        match &ps[i] {
            (Some(t), Some(x)) => {
                if str_eq(t.as_str(), "text") {
                    out.push(x.clone());
                    assert(out@.map_values(|p: String| p@) =~= before.map_values(|p: String| p@).push(x@));
                }
            },
            _ => {},
        }
        i = i + 1;
    }
    assert(pv.take(ps@.len() as int) =~= pv);
    out
}

/// The uuid and snippet of a transcript line, when it is JSON with a
/// string `uuid` and typed text that has words.
pub fn line_snippet(text: &str) -> (r: Option<(String, String)>)
    ensures
        match r {
            Some((u, s)) => line_snippet_spec(text@) == Some((u@, s@)),
            None => line_snippet_spec(text@) is None,
        },
{
    let line = match read_line(text) {
        Some(l) => l,
        None => {
            return None;
        },
    };
    let uuid = match line.uuid {
        Some(u) => u,
        None => {
            return None;
        },
    };
    let typed = match &line.content {
        LineContent::Text(t) => t.clone(),
        LineContent::Parts(ps) => join_text_parts(&text_parts_of(ps)),
        LineContent::Other => {
            return None;
        },
    };
    match snippet(typed.as_str()) {
        Some(s) => Some((uuid, s)),
        None => None,
    }
}

} // verus!
