//! A minimal `.env` reader and writer for the few plain-text settings
//! that are neither secrets nor worth a config format.
//!
//! The file is shared with other tools, so writing one key keeps every
//! other line as it was. Reading `NAME` gives the value of the first
//! `NAME=value` line (comments and blank lines skipped), trimmed and
//! stripped of one pair of surrounding quotes. The caller reads and
//! writes the file; the text is decided here.
use vstd::prelude::*;

use crate::git::next_line;
use crate::text::{
    char_index, chars_of, find_char, is_ws, lemma_char_index_of, lemma_lines_at, lemma_lines_none,
    lines, push_window, starts_with, strip_cr, string_of, trim, trim_end, trim_start, trim_window,
};

verus! {

/// `s` without one pair of surrounding `"` or `'` quotes.
pub open spec fn strip_quotes(s: Seq<char>) -> Seq<char> {
    if s.len() >= 2 && ((s[0] == '"' && s.last() == '"') || (s[0] == '\'' && s.last() == '\'')) {
        s.subrange(1, s.len() - 1)
    } else {
        s
    }
}

/// The value line `line` gives `name`: for a non-blank, non-comment line
/// `KEY=VALUE` whose trimmed key is `name`, the trimmed value without
/// quotes.
pub open spec fn entry(line: Seq<char>, name: Seq<char>) -> Option<Seq<char>> {
    let t = trim(line);
    if t.len() == 0 || t[0] == '#' {
        None
    } else {
        match char_index(t, '=') {
            Some(i) => if trim(t.take(i)) == name {
                Some(strip_quotes(trim(t.skip(i + 1))))
            } else {
                None
            },
            None => None,
        }
    }
}

/// The value the first line that gives `name` one gives it.
pub open spec fn lookup(ls: Seq<Seq<char>>, name: Seq<char>) -> Option<Seq<char>>
    decreases ls.len(),
{
    if ls.len() == 0 {
        None
    } else {
        match entry(ls[0], name) {
            Some(v) => Some(v),
            None => lookup(ls.drop_first(), name),
        }
    }
}

/// The value of `name` in the file text `text`.
pub open spec fn read_spec(text: Seq<char>, name: Seq<char>) -> Option<Seq<char>> {
    lookup(lines(text), name)
}

/// Whether `line` is a `name=...` line an upsert replaces.
pub open spec fn target(line: Seq<char>, name: Seq<char>) -> bool {
    let t = trim(line);
    !starts_with(t, "#"@) && match char_index(t, '=') {
        Some(i) => trim(t.take(i)) == name,
        None => false,
    }
}

pub open spec fn kv_line(name: Seq<char>, value: Seq<char>) -> Seq<char> {
    name + seq!['='] + value
}

/// The lines kept or replaced: each `name` line becomes `name=value`, or
/// goes when `value` is empty.
pub open spec fn up(ls: Seq<Seq<char>>, name: Seq<char>, value: Seq<char>) -> Seq<Seq<char>>
    decreases ls.len(),
{
    if ls.len() == 0 {
        Seq::empty()
    } else {
        let r = up(ls.drop_last(), name, value);
        if target(ls.last(), name) {
            if value.len() == 0 {
                r
            } else {
                r.push(kv_line(name, value))
            }
        } else {
            r.push(ls.last())
        }
    }
}

pub open spec fn any_target(ls: Seq<Seq<char>>, name: Seq<char>) -> bool {
    exists|i: int| 0 <= i < ls.len() && target(#[trigger] ls[i], name)
}

/// The lines after setting `name` to `value` (an empty value removes it).
pub open spec fn upsert_lines(ls: Seq<Seq<char>>, name: Seq<char>, value: Seq<char>) -> Seq<Seq<char>> {
    up(ls, name, value) + (if value.len() > 0 && !any_target(ls, name) {
        seq![kv_line(name, value)]
    } else {
        Seq::empty()
    })
}

/// Every line followed by a newline.
pub open spec fn join_nl(ls: Seq<Seq<char>>) -> Seq<char>
    decreases ls.len(),
{
    if ls.len() == 0 {
        Seq::empty()
    } else {
        ls[0] + seq!['\n'] + join_nl(ls.drop_first())
    }
}

/// The file text after setting `name` to `value`.
pub open spec fn upsert_spec(text: Seq<char>, name: Seq<char>, value: Seq<char>) -> Seq<char> {
    join_nl(upsert_lines(lines(text), name, value))
}

// ───────────────────────── reading ─────────────────────────

/// The value `v[lo..hi]`, read as one line, gives `name`.
#[verifier::loop_isolation(false)]
fn entry_in(v: &Vec<char>, lo: usize, hi: usize, name: &Vec<char>) -> (r: Option<String>)
    requires
        lo <= hi <= v@.len(),
    ensures
        match r {
            Some(x) => entry(v@.subrange(lo as int, hi as int), name@) == Some(x@),
            None => entry(v@.subrange(lo as int, hi as int), name@) is None,
        },
{
    let ghost line = v@.subrange(lo as int, hi as int);
    let (a, b) = trim_window(v, lo, hi);
    let ghost t = v@.subrange(a as int, b as int);
    if a == b {
        return None;
    }
    assert(t[0] == v@[a as int]);
    if v[a] == '#' {
        return None;
    }
    let eq = match find_char(v, '=', a, b) {
        Some(i) => i,
        None => {
            return None;
        },
    };
    assert(t.take(eq - a) =~= v@.subrange(a as int, eq as int));
    assert(t.skip(eq - a + 1) =~= v@.subrange(eq + 1, b as int));
    let (ka, kb) = trim_window(v, a, eq);
    if kb - ka != name.len() {
        return None;
    }
    let mut k: usize = 0;
    while k < name.len()
        invariant
            ka <= kb <= v@.len(),
            kb - ka == name@.len(),
            k <= name@.len(),
            forall|j: int| 0 <= j < k ==> v@[ka + j] == name@[j],
        decreases name@.len() - k,
    {
        if v[ka + k] != name[k] {
            assert(v@.subrange(ka as int, kb as int)[k as int] != name@[k as int]);
            return None;
        }
        k = k + 1;
    }
    assert(v@.subrange(ka as int, kb as int) =~= name@);
    let (va, vb) = trim_window(v, eq + 1, b);
    let ghost val = v@.subrange(va as int, vb as int);
    if vb - va >= 2 && ((v[va] == '"' && v[vb - 1] == '"') || (v[va] == '\'' && v[vb - 1] == '\'')) {
        assert(val[0] == v@[va as int] && val.last() == v@[vb - 1]);
        let s = string_of(v.as_slice(), va + 1, vb - 1);
        assert(s@ =~= val.subrange(1, val.len() - 1));
        Some(s)
    } else {
        proof {
            if val.len() >= 2 {
                assert(val[0] == v@[va as int] && val.last() == v@[vb - 1]);
            }
        }
        Some(string_of(v.as_slice(), va, vb))
    }
}

/// The value of `name` in the file text `text`, if any line gives one.
pub fn read_value(text: &str, name: &str) -> (r: Option<String>)
    ensures
        match r {
            Some(x) => read_spec(text@, name@) == Some(x@),
            None => read_spec(text@, name@) is None,
        },
{
    let v = chars_of(text);
    let nm = chars_of(name);
    let n = v.len();
    let mut pos: usize = 0;
    assert(v@.subrange(0, n as int) =~= v@);
    while pos < n
        invariant
            pos <= n == v@.len(),
            v@ == text@,
            nm@ == name@,
            read_spec(text@, name@) == lookup(lines(v@.subrange(pos as int, n as int)), name@),
        decreases n - pos,
    {
        let (e, next) = next_line(&v, pos, n);
        let ghost rest = lines(v@.subrange(next as int, n as int));
        assert(lines(v@.subrange(pos as int, n as int)).drop_first() =~= rest);
        match entry_in(&v, pos, e, &nm) {
            Some(x) => {
                return Some(x);
            },
            None => {},
        }
        pos = next;
    }
    proof {
        assert(v@.subrange(n as int, n as int) =~= Seq::<char>::empty());
        lemma_lines_none(v@.subrange(n as int, n as int));
    }
    None
}

// ───────────────────────── writing ─────────────────────────

/// Whether `v[lo..hi]`, as one line, is a `name` line an upsert replaces.
#[verifier::loop_isolation(false)]
fn target_in(v: &Vec<char>, lo: usize, hi: usize, name: &Vec<char>) -> (r: bool)
    requires
        lo <= hi <= v@.len(),
    ensures
        r == target(v@.subrange(lo as int, hi as int), name@),
{
    let (a, b) = trim_window(v, lo, hi);
    let ghost t = v@.subrange(a as int, b as int);
    proof {
        reveal_strlit("#");
    }
    if a < b && v[a] == '#' {
        assert(t.subrange(0, 1) =~= "#"@);
        return false;
    }
    proof {
        if starts_with(t, "#"@) {
            assert(t.subrange(0, 1)[0] == '#');
        }
    }
    let eq = match find_char(v, '=', a, b) {
        Some(i) => i,
        None => {
            return false;
        },
    };
    assert(t.take(eq - a) =~= v@.subrange(a as int, eq as int));
    let (ka, kb) = trim_window(v, a, eq);
    if kb - ka != name.len() {
        return false;
    }
    let mut k: usize = 0;
    while k < name.len()
        invariant
            ka <= kb <= v@.len(),
            kb - ka == name@.len(),
            k <= name@.len(),
            forall|j: int| 0 <= j < k ==> v@[ka + j] == name@[j],
        decreases name@.len() - k,
    {
        if v[ka + k] != name[k] {
            assert(v@.subrange(ka as int, kb as int)[k as int] != name@[k as int]);
            return false;
        }
        k = k + 1;
    }
    assert(v@.subrange(ka as int, kb as int) =~= name@);
    true
}

proof fn lemma_join_nl_push(ls: Seq<Seq<char>>, l: Seq<char>)
    ensures
        join_nl(ls.push(l)) == join_nl(ls) + l + seq!['\n'],
    decreases ls.len(),
{
    if ls.len() == 0 {
        assert(ls.push(l).drop_first() =~= Seq::<Seq<char>>::empty());
        assert(join_nl(ls.push(l).drop_first()) == Seq::<char>::empty());
        assert(ls.push(l)[0] == l);
        assert(join_nl(ls) == Seq::<char>::empty());
        assert(join_nl(ls.push(l)) =~= l + seq!['\n']);
    } else {
        lemma_join_nl_push(ls.drop_first(), l);
        assert(ls.push(l).drop_first() =~= ls.drop_first().push(l));
        assert(join_nl(ls.push(l)) =~= join_nl(ls) + l + seq!['\n']);
    }
}

/// Append `l` and a newline to `out`.
fn push_line(out: &mut Vec<char>, l: &Vec<char>)
    ensures
        final(out)@ == old(out)@ + l@ + seq!['\n'],
{
    push_window(out, l, 0, l.len());
    assert(l@.subrange(0, l@.len() as int) =~= l@);
    out.push('\n');
}

/// The file text after setting `name` to `value` in `existing`: every
/// `name=...` line (not a comment) becomes `name=value`, or goes when
/// `value` is empty; every other line is kept; a missing key is appended.
pub fn upsert_text(existing: &str, name: &str, value: &str) -> (r: String)
    ensures
        r@ == upsert_spec(existing@, name@, value@),
{
    let v = chars_of(existing);
    let nm = chars_of(name);
    let val = chars_of(value);
    let mut kv: Vec<char> = Vec::new();
    push_window(&mut kv, &nm, 0, nm.len());
    kv.push('=');
    push_window(&mut kv, &val, 0, val.len());
    assert(nm@.subrange(0, nm@.len() as int) =~= nm@);
    assert(val@.subrange(0, val@.len() as int) =~= val@);
    assert(kv@ =~= kv_line(name@, value@));
    let n = v.len();
    let ghost all = lines(v@);
    let mut out: Vec<char> = Vec::new();
    let mut replaced = false;
    let mut found = false;
    let mut pos: usize = 0;
    let ghost mut done: Seq<Seq<char>> = Seq::empty();
    assert(v@.subrange(0, n as int) =~= v@);
    assert(out@ =~= join_nl(up(done, name@, value@)));
    while pos < n
        invariant
            pos <= n == v@.len(),
            v@ == existing@,
            nm@ == name@,
            val@ == value@,
            kv@ == kv_line(name@, value@),
            all == lines(v@),
            all == done + lines(v@.subrange(pos as int, n as int)),
            out@ == join_nl(up(done, name@, value@)),
            found == any_target(done, name@),
            replaced == (found && value@.len() > 0),
        decreases n - pos,
    {
        let (e, next) = next_line(&v, pos, n);
        let ghost l = v@.subrange(pos as int, e as int);
        let ghost done2 = done.push(l);
        assert(done2.drop_last() =~= done);
        assert(done + lines(v@.subrange(pos as int, n as int)) =~= done2 + lines(v@.subrange(next as int, n as int)));
        let t = target_in(&v, pos, e, &nm);
        if t {
            if val.len() > 0 {
                let ghost o = out@;
                push_line(&mut out, &kv);
                proof {
                    lemma_join_nl_push(up(done, name@, value@), kv_line(name@, value@));
                }
                replaced = true;
            }
            found = true;
        } else {
            let mut line: Vec<char> = Vec::new();
            push_window(&mut line, &v, pos, e);
            assert(line@ =~= l);
            push_line(&mut out, &line);
            proof {
                lemma_join_nl_push(up(done, name@, value@), l);
            }
        }
        proof {
            assert(any_target(done2, name@) == (any_target(done, name@) || target(l, name@))) by {
                if target(l, name@) {
                    assert(target(done2[done.len() as int], name@));
                }
                if any_target(done2, name@) {
                    let i = choose|i: int| 0 <= i < done2.len() && target(#[trigger] done2[i], name@);
                    if i < done.len() {
                        assert(done2[i] == done[i]);
                    }
                }
                if any_target(done, name@) {
                    let i = choose|i: int| 0 <= i < done.len() && target(#[trigger] done[i], name@);
                    assert(done2[i] == done[i]);
                }
            }
            done = done2;
        }
        pos = next;
    }
    proof {
        assert(v@.subrange(n as int, n as int) =~= Seq::<char>::empty());
        lemma_lines_none(v@.subrange(n as int, n as int));
        assert(done =~= all);
    }
    if !replaced && val.len() > 0 {
        push_line(&mut out, &kv);
        proof {
            lemma_join_nl_push(up(all, name@, value@), kv_line(name@, value@));
            assert(upsert_lines(all, name@, value@) =~= up(all, name@, value@).push(kv_line(name@, value@)));
        }
    } else {
        assert(upsert_lines(all, name@, value@) =~= up(all, name@, value@));
    }
    let m = out.len();
    let r = string_of(out.as_slice(), 0, m);
    assert(out@.subrange(0, m as int) =~= out@);
    r
}


// ───────────────────────── laws ─────────────────────────

/// A key the file can hold as written: not blank, no surrounding
/// whitespace, not a comment, no `=` and no newline in it.
pub open spec fn key_ok(name: Seq<char>) -> bool {
    &&& name.len() > 0
    &&& !is_ws(name[0])
    &&& !is_ws(name.last())
    &&& name[0] != '#'
    &&& forall|i: int| 0 <= i < name.len() ==> name[i] != '=' && name[i] != '\n'
}

pub open spec fn no_nl(s: Seq<char>) -> bool {
    forall|i: int| 0 <= i < s.len() ==> s[i] != '\n'
}

proof fn lemma_trim_push_ws(y: Seq<char>, c: char)
    requires
        is_ws(c),
    ensures
        trim(y.push(c)) == trim(y),
    decreases y.len(),
{
    if y.len() == 0 {
        assert(seq![c].drop_first() =~= Seq::<char>::empty());
        assert(trim_start(y.push(c)) == trim_start(y.push(c).drop_first()));
        assert(y.push(c).drop_first() =~= y);
    } else if is_ws(y[0]) {
        lemma_trim_push_ws(y.drop_first(), c);
        assert(y.push(c).drop_first() =~= y.drop_first().push(c));
    } else {
        assert(trim_start(y.push(c)) == y.push(c));
        assert(trim_start(y) == y);
        assert(y.push(c).drop_last() =~= y);
    }
}

proof fn lemma_trim_of_trim_end(x: Seq<char>)
    ensures
        trim(trim_end(x)) == trim(x),
    decreases x.len(),
{
    if x.len() > 0 && is_ws(x.last()) {
        lemma_trim_of_trim_end(x.drop_last());
        assert(x =~= x.drop_last().push(x.last()));
        lemma_trim_push_ws(x.drop_last(), x.last());
    }
}

proof fn lemma_trim_end_after(a: Seq<char>, b: Seq<char>)
    requires
        a.len() > 0,
        !is_ws(a.last()),
    ensures
        trim_end(a + b) == a + trim_end(b),
    decreases b.len(),
{
    if b.len() == 0 {
        assert(a + b =~= a);
        assert(a + trim_end(b) =~= a);
    } else if is_ws(b.last()) {
        lemma_trim_end_after(a, b.drop_last());
        assert((a + b).drop_last() =~= a + b.drop_last());
    } else {
        assert((a + b).last() == b.last());
    }
}

proof fn lemma_entry_of_kv(name: Seq<char>, value: Seq<char>)
    requires
        key_ok(name),
    ensures
        entry(kv_line(name, value), name) == Some(strip_quotes(trim(value))),
        target(kv_line(name, value), name),
        forall|other: Seq<char>| other != name ==> entry(kv_line(name, value), other) is None,
{
    let a = name + seq!['='];
    let l = kv_line(name, value);
    assert(l =~= a + value);
    lemma_trim_end_after(a, value);
    assert(trim_start(l) == l);
    let t = trim(l);
    assert(t == a + trim_end(value));
    assert(t[0] == name[0]);
    lemma_char_index_of(t, '=', name.len() as int);
    assert(t.take(name.len() as int) =~= name);
    assert(trim_start(name) == name);
    assert(trim_end(name) == name);
    assert(t.skip(name.len() as int + 1) =~= trim_end(value));
    lemma_trim_of_trim_end(value);
    assert(!starts_with(t, "#"@)) by {
        reveal_strlit("#");
        if starts_with(t, "#"@) {
            assert(t.subrange(0, 1)[0] == '#');
        }
    }
}

proof fn lemma_entry_implies_target(l: Seq<char>, name: Seq<char>)
    requires
        entry(l, name) is Some,
    ensures
        target(l, name),
{
    let t = trim(l);
    assert(!starts_with(t, "#"@)) by {
        reveal_strlit("#");
        if starts_with(t, "#"@) {
            assert(t.subrange(0, 1)[0] == '#');
        }
    }
}

proof fn lemma_target_key(l: Seq<char>, name: Seq<char>, other: Seq<char>)
    requires
        target(l, name),
        other != name,
    ensures
        entry(l, other) is None,
{
}

proof fn lemma_entry_strip_cr(l: Seq<char>, name: Seq<char>)
    ensures
        entry(strip_cr(l), name) == entry(l, name),
        target(strip_cr(l), name) == target(l, name),
{
    if l.len() > 0 && l.last() == '\r' {
        assert(l =~= l.drop_last().push('\r'));
        lemma_trim_push_ws(l.drop_last(), '\r');
    }
}

proof fn lemma_char_index_props(s: Seq<char>, c: char)
    ensures
        match char_index(s, c) {
            Some(i) => 0 <= i < s.len() && s[i] == c && forall|j: int| 0 <= j < i ==> s[j] != c,
            None => forall|j: int| 0 <= j < s.len() ==> s[j] != c,
        },
    decreases s.len(),
{
    if s.len() > 0 && s[0] != c {
        lemma_char_index_props(s.drop_first(), c);
        match char_index(s.drop_first(), c) {
            Some(i) => {
                assert forall|j: int| 0 <= j < i + 1 implies s[j] != c by {
                    if j > 0 {
                        assert(s[j] == s.drop_first()[j - 1]);
                    }
                }
            },
            None => {
                assert forall|j: int| 0 <= j < s.len() implies s[j] != c by {
                    if j > 0 {
                        assert(s[j] == s.drop_first()[j - 1]);
                    }
                }
            },
        }
    }
}

proof fn lemma_lines_no_nl(s: Seq<char>)
    ensures
        forall|k: int| 0 <= k < lines(s).len() ==> no_nl(#[trigger] lines(s)[k]),
    decreases s.len(),
{
    lemma_char_index_props(s, '\n');
    match char_index(s, '\n') {
        Some(i) => {
            lemma_lines_at(s, i);
            lemma_lines_no_nl(s.skip(i + 1));
            let head = strip_cr(s.take(i));
            assert(no_nl(head)) by {
                assert forall|j: int| 0 <= j < head.len() implies head[j] != '\n' by {
                    assert(head[j] == s[j]);
                }
            }
            assert forall|k: int| 0 <= k < lines(s).len() implies no_nl(#[trigger] lines(s)[k]) by {
                if k > 0 {
                    assert(lines(s)[k] == lines(s.skip(i + 1))[k - 1]);
                }
            }
        },
        None => {
            lemma_lines_none(s);
        },
    }
}

proof fn lemma_lines_join(ls: Seq<Seq<char>>)
    requires
        forall|k: int| 0 <= k < ls.len() ==> no_nl(#[trigger] ls[k]),
    ensures
        lines(join_nl(ls)) == ls.map_values(|l: Seq<char>| strip_cr(l)),
    decreases ls.len(),
{
    if ls.len() == 0 {
        lemma_lines_none(join_nl(ls));
        assert(ls.map_values(|l: Seq<char>| strip_cr(l)) =~= Seq::<Seq<char>>::empty());
    } else {
        let rest = ls.drop_first();
        assert forall|k: int| 0 <= k < rest.len() implies no_nl(#[trigger] rest[k]) by {
            assert(rest[k] == ls[k + 1]);
        }
        lemma_lines_join(rest);
        let s = join_nl(ls);
        let i = ls[0].len() as int;
        assert(no_nl(ls[0]));
        assert(s[i] == '\n');
        assert forall|j: int| 0 <= j < i implies s[j] != '\n' by {
            assert(s[j] == ls[0][j]);
        }
        lemma_lines_at(s, i);
        assert(s.take(i) =~= ls[0]);
        assert(s.skip(i + 1) =~= join_nl(rest));
        assert(ls.map_values(|l: Seq<char>| strip_cr(l)) =~= seq![strip_cr(ls[0])] + rest.map_values(|l: Seq<char>| strip_cr(l)));
    }
}

proof fn lemma_lookup_concat(a: Seq<Seq<char>>, b: Seq<Seq<char>>, name: Seq<char>)
    ensures
        lookup(a + b, name) == match lookup(a, name) {
            Some(v) => Some(v),
            None => lookup(b, name),
        },
    decreases a.len(),
{
    if a.len() == 0 {
        assert(a + b =~= b);
    } else {
        lemma_lookup_concat(a.drop_first(), b, name);
        assert((a + b).drop_first() =~= a.drop_first() + b);
        assert((a + b)[0] == a[0]);
    }
}

proof fn lemma_lookup_strip_cr(ls: Seq<Seq<char>>, name: Seq<char>)
    ensures
        lookup(ls.map_values(|l: Seq<char>| strip_cr(l)), name) == lookup(ls, name),
    decreases ls.len(),
{
    if ls.len() > 0 {
        lemma_lookup_strip_cr(ls.drop_first(), name);
        lemma_entry_strip_cr(ls[0], name);
        assert(ls.map_values(|l: Seq<char>| strip_cr(l)).drop_first() =~= ls.drop_first().map_values(|l: Seq<char>| strip_cr(l)));
    }
}

proof fn lemma_lookup_up_own(ls: Seq<Seq<char>>, name: Seq<char>, value: Seq<char>, tail: Seq<Seq<char>>)
    requires
        key_ok(name),
    ensures
        lookup(up(ls, name, value) + tail, name) == (if value.len() > 0 && any_target(ls, name) {
            Some(strip_quotes(trim(value)))
        } else {
            lookup(tail, name)
        }),
    decreases ls.len(),
{
    if ls.len() == 0 {
        assert(up(ls, name, value) + tail =~= tail);
    } else {
        let p = ls.drop_last();
        let x = ls.last();
        lemma_entry_of_kv(name, value);
        assert(any_target(ls, name) == (any_target(p, name) || target(x, name))) by {
            if target(x, name) {
                assert(target(ls[ls.len() - 1], name));
            }
            if any_target(ls, name) {
                let i = choose|i: int| 0 <= i < ls.len() && target(#[trigger] ls[i], name);
                if i < p.len() {
                    assert(p[i] == ls[i]);
                }
            }
            if any_target(p, name) {
                let i = choose|i: int| 0 <= i < p.len() && target(#[trigger] p[i], name);
                assert(ls[i] == p[i]);
            }
        }
        if target(x, name) {
            if value.len() == 0 {
                lemma_lookup_up_own(p, name, value, tail);
            } else {
                let t2 = seq![kv_line(name, value)] + tail;
                lemma_lookup_up_own(p, name, value, t2);
                assert(up(ls, name, value) + tail =~= up(p, name, value) + t2);
                assert(t2.drop_first() =~= tail);
            }
        } else {
            let t2 = seq![x] + tail;
            lemma_lookup_up_own(p, name, value, t2);
            assert(up(ls, name, value) + tail =~= up(p, name, value) + t2);
            assert(t2.drop_first() =~= tail);
            if entry(x, name) is Some {
                lemma_entry_implies_target(x, name);
            }
        }
    }
}

proof fn lemma_lookup_up_other(ls: Seq<Seq<char>>, name: Seq<char>, value: Seq<char>, other: Seq<char>, tail: Seq<Seq<char>>)
    requires
        key_ok(name),
        other != name,
    ensures
        lookup(up(ls, name, value) + tail, other) == lookup(ls + tail, other),
    decreases ls.len(),
{
    if ls.len() == 0 {
        assert(up(ls, name, value) + tail =~= tail);
        assert(ls + tail =~= tail);
    } else {
        let p = ls.drop_last();
        let x = ls.last();
        lemma_entry_of_kv(name, value);
        assert(ls + tail =~= p + (seq![x] + tail));
        if target(x, name) {
            lemma_target_key(x, name, other);
            let t1 = seq![x] + tail;
            assert(t1.drop_first() =~= tail);
            if value.len() == 0 {
                lemma_lookup_up_other(p, name, value, other, tail);
                lemma_lookup_up_other(p, name, value, other, t1);
                lemma_lookup_concat(up(p, name, value), tail, other);
                lemma_lookup_concat(up(p, name, value), t1, other);
                lemma_lookup_concat(p, tail, other);
                lemma_lookup_concat(p, t1, other);
            } else {
                let t2 = seq![kv_line(name, value)] + tail;
                assert(t2.drop_first() =~= tail);
                lemma_lookup_up_other(p, name, value, other, t2);
                assert(up(ls, name, value) + tail =~= up(p, name, value) + t2);
                lemma_lookup_concat(p, t2, other);
                lemma_lookup_concat(p, t1, other);
            }
        } else {
            let t2 = seq![x] + tail;
            lemma_lookup_up_other(p, name, value, other, t2);
            assert(up(ls, name, value) + tail =~= up(p, name, value) + t2);
        }
    }
}

proof fn lemma_upsert_lines_no_nl(text: Seq<char>, name: Seq<char>, value: Seq<char>)
    requires
        key_ok(name),
        no_nl(value),
    ensures
        forall|k: int| 0 <= k < upsert_lines(lines(text), name, value).len() ==> no_nl(#[trigger] upsert_lines(lines(text), name, value)[k]),
{
    lemma_lines_no_nl(text);
    lemma_up_no_nl(lines(text), name, value);
    let u = up(lines(text), name, value);
    let r = upsert_lines(lines(text), name, value);
    assert(no_nl(kv_line(name, value))) by {
        let l = kv_line(name, value);
        assert forall|j: int| 0 <= j < l.len() implies l[j] != '\n' by {
            if j < name.len() {
                assert(l[j] == name[j]);
            } else if j > name.len() {
                assert(l[j] == value[j - name.len() - 1]);
            }
        }
    }
    assert forall|k: int| 0 <= k < r.len() implies no_nl(#[trigger] r[k]) by {
        if k < u.len() {
            assert(r[k] == u[k]);
        }
    }
}

proof fn lemma_up_no_nl(ls: Seq<Seq<char>>, name: Seq<char>, value: Seq<char>)
    requires
        forall|k: int| 0 <= k < ls.len() ==> no_nl(#[trigger] ls[k]),
        key_ok(name),
        no_nl(value),
    ensures
        forall|k: int| 0 <= k < up(ls, name, value).len() ==> no_nl(#[trigger] up(ls, name, value)[k]),
    decreases ls.len(),
{
    if ls.len() > 0 {
        let p = ls.drop_last();
        assert forall|k: int| 0 <= k < p.len() implies no_nl(#[trigger] p[k]) by {
            assert(p[k] == ls[k]);
        }
        lemma_up_no_nl(p, name, value);
        let l = kv_line(name, value);
        assert(no_nl(l)) by {
            assert forall|j: int| 0 <= j < l.len() implies l[j] != '\n' by {
                if j < name.len() {
                    assert(l[j] == name[j]);
                } else if j > name.len() {
                    assert(l[j] == value[j - name.len() - 1]);
                }
            }
        }
        assert(no_nl(ls[ls.len() - 1]));
        let u = up(ls, name, value);
        let q = up(p, name, value);
        assert forall|k: int| 0 <= k < u.len() implies no_nl(#[trigger] u[k]) by {
            if k < q.len() {
                assert(u[k] == q[k]);
            }
        }
    }
}

/// Reading a key back after writing it gives what was written, trimmed
/// and unquoted; writing an empty value removes the key.
pub proof fn law_read_after_upsert(text: Seq<char>, name: Seq<char>, value: Seq<char>)
    requires
        key_ok(name),
        no_nl(value),
    ensures
        read_spec(upsert_spec(text, name, value), name) == (if value.len() == 0 {
            None
        } else {
            Some(strip_quotes(trim(value)))
        }),
{
    let ls = lines(text);
    let out = upsert_lines(ls, name, value);
    lemma_upsert_lines_no_nl(text, name, value);
    lemma_lines_join(out);
    lemma_lookup_strip_cr(out, name);
    lemma_entry_of_kv(name, value);
    let tail = if value.len() > 0 && !any_target(ls, name) {
        seq![kv_line(name, value)]
    } else {
        Seq::<Seq<char>>::empty()
    };
    lemma_lookup_up_own(ls, name, value, tail);
    if value.len() > 0 && !any_target(ls, name) {
        assert(tail.drop_first() =~= Seq::<Seq<char>>::empty());
    }
}

/// Writing one key leaves what every other key reads unchanged.
pub proof fn law_upsert_keeps_other_keys(text: Seq<char>, name: Seq<char>, value: Seq<char>, other: Seq<char>)
    requires
        key_ok(name),
        no_nl(value),
        other != name,
    ensures
        read_spec(upsert_spec(text, name, value), other) == read_spec(text, other),
{
    let ls = lines(text);
    let out = upsert_lines(ls, name, value);
    lemma_upsert_lines_no_nl(text, name, value);
    lemma_lines_join(out);
    lemma_lookup_strip_cr(out, other);
    lemma_entry_of_kv(name, value);
    let tail = if value.len() > 0 && !any_target(ls, name) {
        seq![kv_line(name, value)]
    } else {
        Seq::<Seq<char>>::empty()
    };
    lemma_lookup_up_other(ls, name, value, other, tail);
    lemma_lookup_concat(ls, tail, other);
    assert(entry(kv_line(name, value), other) is None);
    if value.len() > 0 && !any_target(ls, name) {
        let kv = kv_line(name, value);
        assert(tail[0] == kv);
        assert(tail.drop_first() =~= Seq::<Seq<char>>::empty());
        assert(lookup(tail.drop_first(), other) is None);
        assert(entry(tail[0], other) is None);
        assert(lookup(tail, other) is None);
    } else {
        assert(tail =~= Seq::<Seq<char>>::empty());
        assert(lookup(tail, other) is None);
    }
    assert(ls + Seq::<Seq<char>>::empty() =~= ls);
}

} // verus!
