//! The coding assistant's hook registration.
//!
//! worklog registers one command handler for each event it listens for in
//! the assistant's `settings.json`. A handler is recognised as worklog's
//! by the substring `worklog` in its command, loosely on purpose, so that
//! every historical binary name is swept on reinstall.
use vstd::prelude::*;

use crate::models::Event;
use crate::text::{concat, contains, str_contains, str_eq};

verus! {

/// The events worklog listens for. The tool-use pair are the heartbeats
/// that keep a long autonomous turn visible to block inference.
pub open spec fn events() -> Seq<Seq<char>> {
    seq![
        "SessionStart"@,
        "UserPromptSubmit"@,
        "PreToolUse"@,
        "PostToolUse"@,
        "Stop"@,
        "SubagentStop"@,
        "SessionEnd"@,
    ]
}

/// The event names, in registration order.
pub fn event_names() -> (v: Vec<String>)
    ensures
        v@.map_values(|s: String| s@) == events(),
{
    let v = vec![
        "SessionStart".to_owned(),
        "UserPromptSubmit".to_owned(),
        "PreToolUse".to_owned(),
        "PostToolUse".to_owned(),
        "Stop".to_owned(),
        "SubagentStop".to_owned(),
        "SessionEnd".to_owned(),
    ];
    assert(v@.map_values(|s: String| s@) =~= events());
    v
}

/// A view of the installation state, used by `status`.
#[derive(Debug, Clone)]
pub struct HookStatus {
    pub settings_path: String,
    pub installed: bool,
    pub events: Vec<String>,
    pub command: Option<String>,
}

/// Whether a registered command is one of worklog's.
pub fn is_worklog_command(cmd: &str) -> (r: bool)
    ensures
        r == contains(cmd@, "worklog"@),
{
    str_contains(cmd, "worklog")
}

/// The command registered in the hook handler, preferring the old
/// standalone `worklog-hook` binary, then `worklog-rs`, then `worklog`
/// (each as found on `$PATH` by the caller), else the bare
/// `worklog hook-run`.
pub fn default_command(
    worklog_hook: Option<&str>,
    worklog_rs: Option<&str>,
    worklog: Option<&str>,
) -> (r: String)
    ensures
        r@ == match (worklog_hook, worklog_rs, worklog) {
            (Some(p), _, _) => p@,
            (None, Some(p), _) => p@ + " hook-run"@,
            (None, None, Some(p)) => p@ + " hook-run"@,
            (None, None, None) => "worklog hook-run"@,
        },
{
    if let Some(p) = worklog_hook {
        return p.to_owned();
    }
    if let Some(p) = worklog_rs {
        return concat(p, " hook-run");
    }
    if let Some(p) = worklog {
        return concat(p, " hook-run");
    }
    "worklog hook-run".to_owned()
}


// ───────────────────────── settings.json edits ─────────────────────────

/// One event key of the settings' `hooks` map, as install, uninstall and
/// status read it: for each handler in order, the first of its commands
/// that names worklog (`None` for someone else's handler).
#[derive(Debug, Clone)]
pub struct HookEntry {
    pub event: String,
    pub handlers: Vec<Option<String>>,
}

/// A handler in an edited event list.
#[derive(Debug, Clone, Copy, PartialEq, Eq)]
pub enum Slot {
    /// The existing handler at this index, unchanged.
    Keep(usize),
    /// worklog's own handler, running the installed command.
    Ours,
}

/// An event key of the edited `hooks` map and its handlers.
#[derive(Debug, Clone)]
pub struct PlannedEntry {
    pub event: String,
    pub slots: Vec<Slot>,
}

/// The handlers that are not worklog's, by index, in order.
pub open spec fn others(hs: Seq<Option<String>>) -> Seq<Slot>
    decreases hs.len(),
{
    if hs.len() == 0 {
        Seq::empty()
    } else {
        let r = others(hs.drop_last());
        if hs.last() is None {
            r.push(Slot::Keep((hs.len() - 1) as usize))
        } else {
            r
        }
    }
}

pub open spec fn planned_view(p: PlannedEntry) -> (Seq<char>, Seq<Slot>) {
    (p.event@, p.slots@)
}

/// Every event key with worklog's handlers swept out, keys left empty
/// dropped, in the given order.
pub open spec fn swept(es: Seq<HookEntry>) -> Seq<(Seq<char>, Seq<Slot>)>
    decreases es.len(),
{
    if es.len() == 0 {
        Seq::empty()
    } else {
        let r = swept(es.drop_last());
        let e = es.last();
        if others(e.handlers@).len() > 0 {
            r.push((e.event@, others(e.handlers@)))
        } else {
            r
        }
    }
}

/// The first entry for event `ev`.
pub open spec fn entry_for(es: Seq<HookEntry>, ev: Seq<char>) -> Option<int>
    decreases es.len(),
{
    if es.len() == 0 {
        None
    } else {
        match entry_for(es.drop_last(), ev) {
            Some(i) => Some(i),
            None => if es.last().event@ == ev {
                Some(es.len() - 1)
            } else {
                None
            },
        }
    }
}

/// The event keys worklog does not listen for, swept.
pub open spec fn swept_foreign(es: Seq<HookEntry>) -> Seq<(Seq<char>, Seq<Slot>)>
    decreases es.len(),
{
    if es.len() == 0 {
        Seq::empty()
    } else {
        let r = swept_foreign(es.drop_last());
        let e = es.last();
        if !events().contains(e.event@) && others(e.handlers@).len() > 0 {
            r.push((e.event@, others(e.handlers@)))
        } else {
            r
        }
    }
}

/// The handlers an event worklog listens for ends up with on install: the
/// others it had, then worklog's.
pub open spec fn installed_for(es: Seq<HookEntry>, ev: Seq<char>) -> Seq<Slot> {
    match entry_for(es, ev) {
        Some(i) => others(es[i].handlers@).push(Slot::Ours),
        None => seq![Slot::Ours],
    }
}

/// The `hooks` map after an install: worklog's handlers swept off every
/// key (so those of events it no longer listens for go too), then one
/// worklog handler on each event it listens for, after the others.
pub open spec fn install_spec(es: Seq<HookEntry>) -> Seq<(Seq<char>, Seq<Slot>)> {
    swept_foreign(es) + events().map_values(|ev: Seq<char>| (ev, installed_for(es, ev)))
}

pub open spec fn planned(v: Seq<PlannedEntry>) -> Seq<(Seq<char>, Seq<Slot>)> {
    v.map_values(|p: PlannedEntry| planned_view(p))
}

fn others_of(hs: &Vec<Option<String>>) -> (r: Vec<Slot>)
    ensures
        r@ == others(hs@),
{
    let mut out: Vec<Slot> = Vec::new();
    let mut i: usize = 0;
    assert(hs@.take(0) =~= Seq::<Option<String>>::empty());
    while i < hs.len()
        invariant
            i <= hs@.len(),
            out@ == others(hs@.take(i as int)),
        decreases hs@.len() - i,
    {
        assert(hs@.take(i + 1).drop_last() =~= hs@.take(i as int));
        assert(hs@.take(i + 1).last() == hs@[i as int]);
        if hs[i].is_none() {
            out.push(Slot::Keep(i));
        }
        i = i + 1;
    }
    assert(hs@.take(hs@.len() as int) =~= hs@);
    out
}

/// The `hooks` map after an uninstall: worklog's handlers swept off every
/// key, keys left empty dropped.
pub fn uninstall_plan(entries: &Vec<HookEntry>) -> (r: Vec<PlannedEntry>)
    ensures
        planned(r@) == swept(entries@),
{
    let ghost es = entries@;
    let mut out: Vec<PlannedEntry> = Vec::new();
    let mut i: usize = 0;
    assert(es.take(0) =~= Seq::<HookEntry>::empty());
    assert(planned(out@) =~= Seq::<(Seq<char>, Seq<Slot>)>::empty());
    while i < entries.len()
        invariant
            i <= es.len(),
            es == entries@,
            planned(out@) == swept(es.take(i as int)),
        decreases es.len() - i,
    {
        assert(es.take(i + 1).drop_last() =~= es.take(i as int));
        assert(es.take(i + 1).last() == es[i as int]);
        let kept = others_of(&entries[i].handlers);
        if kept.len() > 0 {
            let ghost before = out@;
            out.push(PlannedEntry { event: entries[i].event.clone(), slots: kept });
            assert(planned(out@) =~= planned(before).push((es[i as int].event@, others(es[i as int].handlers@))));
        }
        i = i + 1;
    }
    assert(es.take(es.len() as int) =~= es);
    out
}

fn is_listened(ev: &str) -> (b: bool)
    ensures
        b == events().contains(ev@),
{
    let names = event_names();
    let mut i: usize = 0;
    while i < names.len()
        invariant
            i <= names@.len(),
            names@.map_values(|s: String| s@) == events(),
            forall|j: int| 0 <= j < i ==> events()[j] != ev@,
        decreases names@.len() - i,
    {
        assert(names@.map_values(|s: String| s@)[i as int] == names@[i as int]@);
        if str_eq(names[i].as_str(), ev) {
            assert(events()[i as int] == ev@);
            return true;
        }
        i = i + 1;
    }
    assert(!events().contains(ev@)) by {
        if events().contains(ev@) {
            let j = choose|j: int| 0 <= j < events().len() && events()[j] == ev@;
            assert(events()[j] != ev@);
        }
    }
    false
}

fn find_entry(entries: &Vec<HookEntry>, ev: &str) -> (r: Option<usize>)
    ensures
        match r {
            Some(i) => entry_for(entries@, ev@) == Some(i as int) && i < entries@.len(),
            None => entry_for(entries@, ev@) is None,
        },
{
    let ghost es = entries@;
    let mut i: usize = 0;
    assert(es.take(0) =~= Seq::<HookEntry>::empty());
    while i < entries.len()
        invariant
            i <= es.len(),
            es == entries@,
            entry_for(es.take(i as int), ev@) is None,
        decreases es.len() - i,
    {
        assert(es.take(i + 1).drop_last() =~= es.take(i as int));
        assert(es.take(i + 1).last() == es[i as int]);
        if str_eq(entries[i].event.as_str(), ev) {
            proof {
                lemma_entry_for_prefix(es, ev@, i + 1);
            }
            return Some(i);
        }
        i = i + 1;
    }
    assert(es.take(es.len() as int) =~= es);
    None
}

proof fn lemma_entry_for_prefix(es: Seq<HookEntry>, ev: Seq<char>, n: int)
    requires
        0 < n <= es.len(),
        entry_for(es.take(n), ev) is Some,
    ensures
        entry_for(es, ev) == entry_for(es.take(n), ev),
    decreases es.len() - n,
{
    if n < es.len() {
        assert(es.take(n + 1).drop_last() =~= es.take(n));
        lemma_entry_for_prefix(es, ev, n + 1);
    } else {
        assert(es.take(n) =~= es);
    }
}

/// The `hooks` map after an install: see [`install_spec`].
pub fn install_plan(entries: &Vec<HookEntry>) -> (r: Vec<PlannedEntry>)
    ensures
        planned(r@) == install_spec(entries@),
{
    let ghost es = entries@;
    let mut out: Vec<PlannedEntry> = Vec::new();
    let mut i: usize = 0;
    assert(es.take(0) =~= Seq::<HookEntry>::empty());
    assert(planned(out@) =~= Seq::<(Seq<char>, Seq<Slot>)>::empty());
    while i < entries.len()
        invariant
            i <= es.len(),
            es == entries@,
            planned(out@) == swept_foreign(es.take(i as int)),
        decreases es.len() - i,
    {
        assert(es.take(i + 1).drop_last() =~= es.take(i as int));
        assert(es.take(i + 1).last() == es[i as int]);
        let kept = others_of(&entries[i].handlers);
        if !is_listened(entries[i].event.as_str()) && kept.len() > 0 {
            let ghost before = out@;
            out.push(PlannedEntry { event: entries[i].event.clone(), slots: kept });
            assert(planned(out@) =~= planned(before).push((es[i as int].event@, others(es[i as int].handlers@))));
        }
        i = i + 1;
    }
    assert(es.take(es.len() as int) =~= es);
    let ghost head = planned(out@);
    let names = event_names();
    let ghost evs = events();
    let mut k: usize = 0;
    while k < names.len()
        invariant
            k <= names@.len(),
            names@.map_values(|s: String| s@) == evs,
            evs == events(),
            es == entries@,
            head == swept_foreign(es),
            planned(out@) == head + evs.take(k as int).map_values(|ev: Seq<char>| (ev, installed_for(es, ev))),
        decreases names@.len() - k,
    {
        assert(names@.map_values(|s: String| s@)[k as int] == names@[k as int]@);
        let ev = &names[k];
        let mut slots = match find_entry(entries, ev.as_str()) {
            Some(j) => others_of(&entries[j].handlers),
            None => Vec::new(),
        };
        slots.push(Slot::Ours);
        assert(slots@ == installed_for(es, ev@));
        let ghost before = out@;
        out.push(PlannedEntry { event: ev.clone(), slots });
        assert(evs.take(k + 1) =~= evs.take(k as int).push(ev@));
        assert(planned(out@) =~= planned(before).push((ev@, installed_for(es, ev@))));
        assert(evs.take(k + 1).map_values(|ev: Seq<char>| (ev, installed_for(es, ev))) =~= evs.take(
            k as int,
        ).map_values(|ev: Seq<char>| (ev, installed_for(es, ev))).push((ev@, installed_for(es, ev@))));
        k = k + 1;
    }
    assert(evs.take(7) =~= evs);
    out
}

/// The slots that leave an event's handlers as they are: each other
/// handler kept in its place, worklog's written again with the command.
pub open spec fn unchanged(hs: Seq<Option<String>>) -> Seq<Slot> {
    Seq::new(hs.len(), |j: int| if hs[j] is None { Slot::Keep(j as usize) } else { Slot::Ours })
}

/// An event key planned to stay exactly as it is.
pub open spec fn kept_view(e: HookEntry) -> (Seq<char>, Seq<Slot>) {
    (e.event@, unchanged(e.handlers@))
}

/// Whether handler `h`, as read back, is what slot `s` wrote when worklog's
/// handler runs `cmd`: another handler where one was kept, worklog's
/// command where worklog's went.
pub open spec fn slot_fits(s: Slot, h: Option<String>, cmd: Seq<char>) -> bool {
    match s {
        Slot::Keep(_) => h is None,
        Slot::Ours => h matches Some(c) && c@ == cmd,
    }
}

/// Whether entry `e`, as read back, is what planned entry `p` wrote.
pub open spec fn entry_realizes(e: HookEntry, p: (Seq<char>, Seq<Slot>), cmd: Seq<char>) -> bool {
    &&& e.event@ == p.0
    &&& e.handlers@.len() == p.1.len()
    &&& forall|j: int| 0 <= j < p.1.len() ==> slot_fits(p.1[j], #[trigger] e.handlers@[j], cmd)
}

/// Whether the `hooks` map `es`, as read back, is what the edit `plan`
/// wrote with worklog's handler running `cmd`.
pub open spec fn realizes(es: Seq<HookEntry>, plan: Seq<(Seq<char>, Seq<Slot>)>, cmd: Seq<char>) -> bool {
    &&& es.len() == plan.len()
    &&& forall|k: int| 0 <= k < es.len() ==> entry_realizes(#[trigger] es[k], plan[k], cmd)
}

proof fn lemma_others_all_none(hs: Seq<Option<String>>)
    requires
        forall|j: int| 0 <= j < hs.len() ==> (#[trigger] hs[j]) is None,
    ensures
        others(hs) == unchanged(hs),
    decreases hs.len(),
{
    if hs.len() > 0 {
        lemma_others_all_none(hs.drop_last());
        assert(others(hs) =~= unchanged(hs));
    } else {
        assert(others(hs) =~= unchanged(hs));
    }
}

proof fn lemma_others_then_ours(hs: Seq<Option<String>>)
    requires
        hs.len() > 0,
        hs.last() is Some,
        forall|j: int| 0 <= j < hs.len() - 1 ==> (#[trigger] hs[j]) is None,
    ensures
        others(hs).push(Slot::Ours) == unchanged(hs),
{
    lemma_others_all_none(hs.drop_last());
    assert(others(hs).push(Slot::Ours) =~= unchanged(hs));
}

proof fn lemma_others_keep(hs: Seq<Option<String>>)
    ensures
        forall|i: int| 0 <= i < others(hs).len() ==> (#[trigger] others(hs)[i]) is Keep,
    decreases hs.len(),
{
    if hs.len() > 0 {
        lemma_others_keep(hs.drop_last());
    }
}

proof fn lemma_swept_foreign_shape(es: Seq<HookEntry>)
    ensures
        forall|k: int|
            0 <= k < swept_foreign(es).len() ==> {
                &&& !events().contains((#[trigger] swept_foreign(es)[k]).0)
                &&& swept_foreign(es)[k].1.len() > 0
                &&& forall|i: int| 0 <= i < swept_foreign(es)[k].1.len() ==> (#[trigger] swept_foreign(es)[k].1[i]) is Keep
            },
    decreases es.len(),
{
    if es.len() > 0 {
        lemma_swept_foreign_shape(es.drop_last());
        lemma_others_keep(es.last().handlers@);
    }
}

proof fn lemma_swept_foreign_concat(a: Seq<HookEntry>, b: Seq<HookEntry>)
    ensures
        swept_foreign(a + b) == swept_foreign(a) + swept_foreign(b),
    decreases b.len(),
{
    if b.len() == 0 {
        assert(a + b =~= a);
        assert(swept_foreign(a) + swept_foreign(b) =~= swept_foreign(a));
    } else {
        lemma_swept_foreign_concat(a, b.drop_last());
        assert((a + b).drop_last() =~= a + b.drop_last());
        assert((a + b).last() == b.last());
        let r = swept_foreign(a) + swept_foreign(b.drop_last());
        let e = b.last();
        assert(r.push((e.event@, others(e.handlers@))) =~= swept_foreign(a) + swept_foreign(
            b.drop_last(),
        ).push((e.event@, others(e.handlers@))));
    }
}

proof fn lemma_swept_foreign_of_foreign(f: Seq<HookEntry>)
    requires
        forall|k: int| 0 <= k < f.len() ==> !events().contains((#[trigger] f[k]).event@),
        forall|k: int| 0 <= k < f.len() ==> (#[trigger] f[k]).handlers@.len() > 0,
        forall|k: int, j: int|
            0 <= k < f.len() && 0 <= j < f[k].handlers@.len() ==> (#[trigger] f[k].handlers@[j]) is None,
    ensures
        swept_foreign(f) == f.map_values(|e: HookEntry| kept_view(e)),
    decreases f.len(),
{
    if f.len() == 0 {
        assert(swept_foreign(f) =~= f.map_values(|e: HookEntry| kept_view(e)));
    } else {
        let g = f.drop_last();
        assert forall|k: int, j: int| 0 <= k < g.len() && 0 <= j < g[k].handlers@.len() implies (
        #[trigger] g[k].handlers@[j]) is None by {
            assert(g[k] == f[k]);
        }
        lemma_swept_foreign_of_foreign(g);
        let e = f.last();
        assert(e == f[f.len() - 1]);
        assert forall|j: int| 0 <= j < e.handlers@.len() implies (#[trigger] e.handlers@[j]) is None by {
            assert(f[f.len() - 1].handlers@[j] is None);
        }
        lemma_others_all_none(e.handlers@);
        assert(swept_foreign(f) =~= f.map_values(|e: HookEntry| kept_view(e)));
    }
}

proof fn lemma_swept_foreign_of_listened(l: Seq<HookEntry>)
    requires
        forall|k: int| 0 <= k < l.len() ==> events().contains((#[trigger] l[k]).event@),
    ensures
        swept_foreign(l) == Seq::<(Seq<char>, Seq<Slot>)>::empty(),
    decreases l.len(),
{
    if l.len() > 0 {
        let g = l.drop_last();
        assert forall|k: int| 0 <= k < g.len() implies events().contains((#[trigger] g[k]).event@) by {
            assert(g[k] == l[k]);
        }
        lemma_swept_foreign_of_listened(g);
        assert(l.last() == l[l.len() - 1]);
    }
}

proof fn lemma_entry_for_none(es: Seq<HookEntry>, ev: Seq<char>)
    requires
        forall|i: int| 0 <= i < es.len() ==> (#[trigger] es[i]).event@ != ev,
    ensures
        entry_for(es, ev) is None,
    decreases es.len(),
{
    if es.len() > 0 {
        let g = es.drop_last();
        assert forall|i: int| 0 <= i < g.len() implies (#[trigger] g[i]).event@ != ev by {
            assert(g[i] == es[i]);
        }
        lemma_entry_for_none(g, ev);
        assert(es.last() == es[es.len() - 1]);
    }
}

proof fn lemma_entry_for_first(es: Seq<HookEntry>, k: int)
    requires
        0 <= k < es.len(),
        forall|i: int| 0 <= i < k ==> (#[trigger] es[i]).event@ != es[k].event@,
    ensures
        entry_for(es, es[k].event@) == Some(k),
    decreases es.len(),
{
    let g = es.drop_last();
    if k == es.len() - 1 {
        assert forall|i: int| 0 <= i < g.len() implies (#[trigger] g[i]).event@ != es[k].event@ by {
            assert(g[i] == es[i]);
        }
        lemma_entry_for_none(g, es[k].event@);
    } else {
        assert(g[k] == es[k]);
        assert forall|i: int| 0 <= i < k implies (#[trigger] g[i]).event@ != g[k].event@ by {
            assert(g[i] == es[i]);
        }
        lemma_entry_for_first(g, k);
    }
}

proof fn lemma_entry_for_skip(a: Seq<HookEntry>, b: Seq<HookEntry>, ev: Seq<char>)
    requires
        forall|i: int| 0 <= i < a.len() ==> (#[trigger] a[i]).event@ != ev,
    ensures
        entry_for(a + b, ev) == match entry_for(b, ev) {
            Some(i) => Some(i + a.len()),
            None => None::<int>,
        },
    decreases b.len(),
{
    if b.len() == 0 {
        assert(a + b =~= a);
        lemma_entry_for_none(a, ev);
    } else {
        lemma_entry_for_skip(a, b.drop_last(), ev);
        assert((a + b).drop_last() =~= a + b.drop_last());
        assert((a + b).last() == b.last());
    }
}

proof fn lemma_events_distinct()
    ensures
        forall|i: int, j: int| 0 <= i < j < events().len() ==> events()[i] != events()[j],
{
    reveal_strlit("SessionStart");
    reveal_strlit("UserPromptSubmit");
    reveal_strlit("PreToolUse");
    reveal_strlit("PostToolUse");
    reveal_strlit("Stop");
    reveal_strlit("SubagentStop");
    reveal_strlit("SessionEnd");
    let e = events();
    assert(e[0].len() == 12 && e[1].len() == 16 && e[2].len() == 10 && e[3].len() == 11);
    assert(e[4].len() == 4 && e[5].len() == 12 && e[6].len() == 10);
    assert(e[0][1] != e[5][1]);
    assert(e[2][0] != e[6][0]);
    assert forall|i: int, j: int| 0 <= i < j < e.len() implies e[i] != e[j] by {
        if e[i] == e[j] {
            assert(e[i].len() == e[j].len());
            if i == 0 && j == 5 {
                assert(e[i][1] == e[j][1]);
            }
            if i == 2 && j == 6 {
                assert(e[i][0] == e[j][0]);
            }
        }
    }
}

/// What an install reads back as: first the keys of events worklog does
/// not listen for, holding only other handlers; then one key per event it
/// listens for, in order, holding the other handlers and, last, worklog's.
proof fn lemma_install_readback(before: Seq<HookEntry>, after: Seq<HookEntry>, cmd: Seq<char>)
    requires
        realizes(after, install_spec(before), cmd),
    ensures
        ({
            let n = swept_foreign(before).len() as int;
            &&& after.len() == n + events().len()
            &&& forall|k: int| 0 <= k < n ==> !events().contains((#[trigger] after[k]).event@)
            &&& forall|k: int| 0 <= k < n ==> (#[trigger] after[k]).handlers@.len() > 0
            &&& forall|k: int, j: int|
                0 <= k < n && 0 <= j < after[k].handlers@.len() ==> (#[trigger] after[k].handlers@[j]) is None
            &&& forall|k: int| 0 <= k < events().len() ==> (#[trigger] after[n + k]).event@ == events()[k]
            &&& forall|k: int|
                0 <= k < events().len() ==> ({
                    let hs = (#[trigger] after[n + k]).handlers@;
                    &&& hs.len() > 0
                    &&& hs.last() matches Some(c) && c@ == cmd
                    &&& forall|j: int| 0 <= j < hs.len() - 1 ==> (#[trigger] hs[j]) is None
                })
        }),
{
    let sf = swept_foreign(before);
    let lst = events().map_values(|ev: Seq<char>| (ev, installed_for(before, ev)));
    let plan = install_spec(before);
    let n = sf.len() as int;
    assert(plan =~= sf + lst);
    lemma_swept_foreign_shape(before);
    assert forall|k: int| 0 <= k < n implies !events().contains((#[trigger] after[k]).event@)
        && after[k].handlers@.len() > 0 by {
        assert(entry_realizes(after[k], plan[k], cmd));
        assert(plan[k] == sf[k]);
    }
    assert forall|k: int, j: int| 0 <= k < n && 0 <= j < after[k].handlers@.len() implies (
    #[trigger] after[k].handlers@[j]) is None by {
        assert(entry_realizes(after[k], plan[k], cmd));
        assert(plan[k] == sf[k]);
        assert(sf[k].1[j] is Keep);
        assert(slot_fits(plan[k].1[j], after[k].handlers@[j], cmd));
    }
    assert forall|k: int| 0 <= k < events().len() implies (#[trigger] after[n + k]).event@ == events()[k]
        && ({
        let hs = after[n + k].handlers@;
        &&& hs.len() > 0
        &&& hs.last() matches Some(c) && c@ == cmd
        &&& forall|j: int| 0 <= j < hs.len() - 1 ==> (#[trigger] hs[j]) is None
    }) by {
        assert(entry_realizes(after[n + k], plan[n + k], cmd));
        assert(plan[n + k] == lst[k]);
        let ins = installed_for(before, events()[k]);
        assert(lst[k] == (events()[k], ins));
        let hs = after[n + k].handlers@;
        match entry_for(before, events()[k]) {
            Some(i) => lemma_others_keep(before[i].handlers@),
            None => {},
        }
        assert(ins.last() == Slot::Ours);
        assert(slot_fits(ins[ins.len() - 1], hs[hs.len() - 1], cmd));
        assert forall|j: int| 0 <= j < hs.len() - 1 implies (#[trigger] hs[j]) is None by {
            assert(ins[j] is Keep);
            assert(slot_fits(ins[j], hs[j], cmd));
        }
    }
}

/// Where, after an install, each event worklog listens for finds its key.
proof fn lemma_install_entries(before: Seq<HookEntry>, after: Seq<HookEntry>, cmd: Seq<char>)
    requires
        realizes(after, install_spec(before), cmd),
    ensures
        forall|k: int|
            0 <= k < events().len() ==> entry_for(after, #[trigger] events()[k]) == Some(
                swept_foreign(before).len() + k,
            ),
{
    lemma_install_readback(before, after, cmd);
    lemma_events_distinct();
    let n = swept_foreign(before).len() as int;
    let f = after.take(n);
    let l = after.skip(n);
    assert(after =~= f + l);
    assert forall|k: int| 0 <= k < events().len() implies entry_for(after, #[trigger] events()[k])
        == Some(n + k) by {
        let ev = events()[k];
        assert forall|i: int| 0 <= i < f.len() implies (#[trigger] f[i]).event@ != ev by {
            assert(f[i] == after[i]);
            if after[i].event@ == ev {
                assert(events()[k] == ev);
            }
        }
        assert forall|i: int| 0 <= i < l.len() implies (#[trigger] l[i]).event@ == events()[i] by {
            assert(l[i] == after[n + i]);
        }
        assert forall|i: int| 0 <= i < k implies (#[trigger] l[i]).event@ != l[k].event@ by {
            assert(l[i].event@ == events()[i]);
        }
        lemma_entry_for_first(l, k);
        lemma_entry_for_skip(f, l, ev);
    }
}

/// A repeat install changes nothing: once an install is written (worklog's
/// handler running `cmd`) and read back as `after`, installing again with
/// the same command keeps every other handler where it is and writes
/// worklog's handler again, with the same command, where it already is.
pub proof fn law_install_is_idempotent(before: Seq<HookEntry>, after: Seq<HookEntry>, cmd: Seq<char>)
    requires
        realizes(after, install_spec(before), cmd),
    ensures
        install_spec(after) == after.map_values(|e: HookEntry| kept_view(e)),
{
    lemma_install_readback(before, after, cmd);
    lemma_install_entries(before, after, cmd);
    let n = swept_foreign(before).len() as int;
    let f = after.take(n);
    let l = after.skip(n);
    assert(after =~= f + l);
    assert forall|k: int| 0 <= k < f.len() implies !events().contains((#[trigger] f[k]).event@)
        && f[k].handlers@.len() > 0 by {
        assert(f[k] == after[k]);
    }
    assert forall|k: int, j: int| 0 <= k < f.len() && 0 <= j < f[k].handlers@.len() implies (
    #[trigger] f[k].handlers@[j]) is None by {
        assert(f[k] == after[k]);
    }
    lemma_swept_foreign_of_foreign(f);
    assert forall|k: int| 0 <= k < l.len() implies events().contains((#[trigger] l[k]).event@) by {
        assert(l[k] == after[n + k]);
        assert(events()[k] == l[k].event@);
    }
    lemma_swept_foreign_of_listened(l);
    lemma_swept_foreign_concat(f, l);
    assert(swept_foreign(after) =~= f.map_values(|e: HookEntry| kept_view(e)));
    assert forall|k: int| 0 <= k < events().len() implies installed_for(after, #[trigger] events()[k])
        == unchanged(l[k].handlers@) by {
        assert(after[n + k] == l[k]);
        lemma_others_then_ours(l[k].handlers@);
    }
    let tail = events().map_values(|ev: Seq<char>| (ev, installed_for(after, ev)));
    assert forall|k: int| 0 <= k < l.len() implies (#[trigger] l[k]).event@ == events()[k] by {
        assert(l[k] == after[n + k]);
    }
    assert(tail =~= l.map_values(|e: HookEntry| kept_view(e)));
    assert(install_spec(after) =~= after.map_values(|e: HookEntry| kept_view(e)));
}

/// The first worklog command among an event's handlers.
pub open spec fn first_cmd(hs: Seq<Option<String>>) -> Option<Seq<char>>
    decreases hs.len(),
{
    if hs.len() == 0 {
        None
    } else {
        match hs[0] {
            Some(c) => Some(c@),
            None => first_cmd(hs.drop_first()),
        }
    }
}

/// The command worklog registered for `ev`, if it did.
pub open spec fn registered(es: Seq<HookEntry>, ev: Seq<char>) -> Option<Seq<char>> {
    match entry_for(es, ev) {
        Some(i) => first_cmd(es[i].handlers@),
        None => None,
    }
}

/// The events (of those worklog listens for, in order) that carry a
/// worklog handler.
pub open spec fn status_events(es: Seq<HookEntry>, evs: Seq<Seq<char>>) -> Seq<Seq<char>>
    decreases evs.len(),
{
    if evs.len() == 0 {
        Seq::empty()
    } else {
        let r = status_events(es, evs.drop_last());
        if registered(es, evs.last()) is Some {
            r.push(evs.last())
        } else {
            r
        }
    }
}

/// The first worklog command found, event by event.
pub open spec fn status_command(es: Seq<HookEntry>, evs: Seq<Seq<char>>) -> Option<Seq<char>>
    decreases evs.len(),
{
    if evs.len() == 0 {
        None
    } else {
        match status_command(es, evs.drop_last()) {
            Some(c) => Some(c),
            None => registered(es, evs.last()),
        }
    }
}

proof fn lemma_first_cmd_last(hs: Seq<Option<String>>, c: Seq<char>)
    requires
        hs.len() > 0,
        hs.last() matches Some(x) && x@ == c,
        forall|j: int| 0 <= j < hs.len() - 1 ==> (#[trigger] hs[j]) is None,
    ensures
        first_cmd(hs) == Some(c),
    decreases hs.len(),
{
    if hs.len() > 1 {
        let t = hs.drop_first();
        assert forall|j: int| 0 <= j < t.len() - 1 implies (#[trigger] t[j]) is None by {
            assert(t[j] == hs[j + 1]);
        }
        assert(t.last() == hs.last());
        lemma_first_cmd_last(t, c);
    }
}

proof fn lemma_status_events_all(es: Seq<HookEntry>, evs: Seq<Seq<char>>)
    requires
        forall|i: int| 0 <= i < evs.len() ==> registered(es, #[trigger] evs[i]) is Some,
    ensures
        status_events(es, evs) == evs,
    decreases evs.len(),
{
    if evs.len() > 0 {
        let d = evs.drop_last();
        assert forall|i: int| 0 <= i < d.len() implies registered(es, #[trigger] d[i]) is Some by {
            assert(d[i] == evs[i]);
        }
        lemma_status_events_all(es, d);
        assert(evs.last() == evs[evs.len() - 1]);
        assert(d.push(evs.last()) =~= evs);
    }
}

proof fn lemma_status_command_first(es: Seq<HookEntry>, evs: Seq<Seq<char>>, c: Seq<char>)
    requires
        evs.len() > 0,
        registered(es, evs[0]) == Some(c),
    ensures
        status_command(es, evs) == Some(c),
    decreases evs.len(),
{
    if evs.len() > 1 {
        assert(evs.drop_last()[0] == evs[0]);
        lemma_status_command_first(es, evs.drop_last(), c);
    } else {
        assert(status_command(es, evs.drop_last()) is None);
        assert(evs.last() == evs[0]);
    }
}

/// Status after an install reads back what the install wrote: every event
/// worklog listens for carries its handler, and the command found is the
/// one installed.
pub proof fn law_status_after_install(before: Seq<HookEntry>, after: Seq<HookEntry>, cmd: Seq<char>)
    requires
        realizes(after, install_spec(before), cmd),
    ensures
        status_events(after, events()) == events(),
        status_command(after, events()) == Some(cmd),
{
    lemma_install_readback(before, after, cmd);
    lemma_install_entries(before, after, cmd);
    let n = swept_foreign(before).len() as int;
    assert forall|k: int| 0 <= k < events().len() implies registered(after, #[trigger] events()[k])
        == Some(cmd) by {
        lemma_first_cmd_last(after[n + k].handlers@, cmd);
    }
    lemma_status_events_all(after, events());
    lemma_status_command_first(after, events(), cmd);
}

proof fn lemma_swept_keeps(es: Seq<HookEntry>)
    ensures
        forall|k: int, i: int|
            0 <= k < swept(es).len() && 0 <= i < swept(es)[k].1.len() ==> (#[trigger] swept(es)[k].1[i]) is Keep,
    decreases es.len(),
{
    if es.len() > 0 {
        lemma_swept_keeps(es.drop_last());
        lemma_others_keep(es.last().handlers@);
    }
}

proof fn lemma_first_cmd_none(hs: Seq<Option<String>>)
    requires
        forall|j: int| 0 <= j < hs.len() ==> (#[trigger] hs[j]) is None,
    ensures
        first_cmd(hs) is None,
    decreases hs.len(),
{
    if hs.len() > 0 {
        let t = hs.drop_first();
        assert forall|j: int| 0 <= j < t.len() implies (#[trigger] t[j]) is None by {
            assert(t[j] == hs[j + 1]);
        }
        lemma_first_cmd_none(t);
    }
}

proof fn lemma_status_none(es: Seq<HookEntry>, evs: Seq<Seq<char>>)
    requires
        forall|i: int| 0 <= i < evs.len() ==> registered(es, #[trigger] evs[i]) is None,
    ensures
        status_events(es, evs) == Seq::<Seq<char>>::empty(),
        status_command(es, evs) is None,
    decreases evs.len(),
{
    if evs.len() > 0 {
        let d = evs.drop_last();
        assert forall|i: int| 0 <= i < d.len() implies registered(es, #[trigger] d[i]) is None by {
            assert(d[i] == evs[i]);
        }
        lemma_status_none(es, d);
        assert(evs.last() == evs[evs.len() - 1]);
    }
}

/// Status after an uninstall reads back what the uninstall wrote: no
/// event carries a worklog handler, so the hook reads as not installed.
pub proof fn law_status_after_uninstall(before: Seq<HookEntry>, after: Seq<HookEntry>, cmd: Seq<char>)
    requires
        realizes(after, swept(before), cmd),
    ensures
        status_events(after, events()) == Seq::<Seq<char>>::empty(),
        status_command(after, events()) is None,
{
    lemma_swept_keeps(before);
    assert forall|k: int| 0 <= k < after.len() implies first_cmd((#[trigger] after[k]).handlers@) is None by {
        assert(entry_realizes(after[k], swept(before)[k], cmd));
        assert forall|j: int| 0 <= j < after[k].handlers@.len() implies (#[trigger] after[k].handlers@[j]) is None by {
            assert(swept(before)[k].1[j] is Keep);
            assert(slot_fits(swept(before)[k].1[j], after[k].handlers@[j], cmd));
        }
        lemma_first_cmd_none(after[k].handlers@);
    }
    assert forall|i: int| 0 <= i < events().len() implies registered(after, #[trigger] events()[i]) is None by {
        lemma_entry_for_in_range(after, events()[i]);
    }
    lemma_status_none(after, events());
}

proof fn lemma_entry_for_in_range(es: Seq<HookEntry>, ev: Seq<char>)
    ensures
        entry_for(es, ev) matches Some(i) ==> 0 <= i < es.len(),
    decreases es.len(),
{
    if es.len() > 0 {
        lemma_entry_for_in_range(es.drop_last(), ev);
    }
}

fn first_command(hs: &Vec<Option<String>>) -> (r: Option<String>)
    ensures
        match r {
            Some(c) => first_cmd(hs@) == Some(c@),
            None => first_cmd(hs@) is None,
        },
{
    let mut i: usize = 0;
    assert(hs@.skip(0) =~= hs@);
    while i < hs.len()
        invariant
            i <= hs@.len(),
            first_cmd(hs@) == first_cmd(hs@.skip(i as int)),
        decreases hs@.len() - i,
    {
        assert(hs@.skip(i as int)[0] == hs@[i as int]);
        assert(hs@.skip(i as int).drop_first() =~= hs@.skip(i + 1));
        match &hs[i] {
            Some(c) => {
                return Some(c.clone());
            },
            None => {},
        }
        i = i + 1;
    }
    assert(hs@.skip(i as int) =~= Seq::<Option<String>>::empty());
    None
}

/// Whether the hook is installed, for which events, and with which
/// command: read off the `hooks` map.
pub fn status_of(entries: &Vec<HookEntry>, settings_path: String) -> (s: HookStatus)
    ensures
        s.settings_path == settings_path,
        s.events@.map_values(|e: String| e@) == status_events(entries@, events()),
        match s.command {
            Some(c) => status_command(entries@, events()) == Some(c@),
            None => status_command(entries@, events()) is None,
        },
        s.installed == (s.events@.len() > 0),
{
    let names = event_names();
    let ghost evs = events();
    let mut found: Vec<String> = Vec::new();
    let mut command: Option<String> = None;
    let mut k: usize = 0;
    assert(evs.take(0) =~= Seq::<Seq<char>>::empty());
    assert(found@.map_values(|e: String| e@) =~= Seq::<Seq<char>>::empty());
    while k < names.len()
        invariant
            k <= names@.len(),
            names@.map_values(|s: String| s@) == evs,
            evs == events(),
            found@.map_values(|e: String| e@) == status_events(entries@, evs.take(k as int)),
            match command {
                Some(c) => status_command(entries@, evs.take(k as int)) == Some(c@),
                None => status_command(entries@, evs.take(k as int)) is None,
            },
        decreases names@.len() - k,
    {
        assert(names@.map_values(|s: String| s@)[k as int] == names@[k as int]@);
        assert(evs.take(k + 1).drop_last() =~= evs.take(k as int));
        assert(evs.take(k + 1).last() == names@[k as int]@);
        let ev = &names[k];
        let cmd = match find_entry(entries, ev.as_str()) {
            Some(j) => first_command(&entries[j].handlers),
            None => None,
        };
        if let Some(c) = cmd {
            let ghost before = found@;
            found.push(ev.clone());
            assert(found@.map_values(|e: String| e@) =~= before.map_values(|e: String| e@).push(ev@));
            if command.is_none() {
                command = Some(c);
            }
        }
        k = k + 1;
    }
    assert(evs.take(7) =~= evs);
    let installed = found.len() > 0;
    HookStatus { settings_path, installed, events: found, command }
}

// ───────────────────────── one hook event ─────────────────────────

/// The session a hook event closes, and how: `Stop` and `SessionEnd`
/// close it; nothing else does.
pub fn close_reason(event: &str) -> (r: Option<String>)
    ensures
        match r {
            Some(x) => (event@ == "Stop"@ && x@ == "stop"@) || (event@ == "SessionEnd"@ && x@
                == "session_end"@),
            None => event@ != "Stop"@ && event@ != "SessionEnd"@,
        },
{
    if str_eq(event, "Stop") {
        Some("stop".to_owned())
    } else if str_eq(event, "SessionEnd") {
        Some("session_end".to_owned())
    } else {
        None
    }
}

/// The first Jira key in the first of `parts` that holds one.
pub open spec fn first_key(parts: Seq<Option<Seq<char>>>) -> Option<Seq<char>>
    decreases parts.len(),
{
    if parts.len() == 0 {
        None
    } else {
        match parts[0] {
            Some(p) if crate::pattern::jira_keys(p).len() > 0 => Some(crate::pattern::jira_keys(p)[0]),
            _ => first_key(parts.drop_first()),
        }
    }
}

/// The first Jira key in the prompt, else in the working directory.
pub fn first_jira_key(prompt: Option<&str>, cwd: Option<&str>) -> (r: Option<String>)
    ensures
        match r {
            Some(k) => first_key(
                seq![
                    match prompt {
                        Some(p) => Some(p@),
                        None => None,
                    },
                    match cwd {
                        Some(c) => Some(c@),
                        None => None,
                    },
                ],
            ) == Some(k@),
            None => first_key(
                seq![
                    match prompt {
                        Some(p) => Some(p@),
                        None => None,
                    },
                    match cwd {
                        Some(c) => Some(c@),
                        None => None,
                    },
                ],
            ) is None,
        },
{
    let ghost parts = seq![
        match prompt {
            Some(p) => Some(p@),
            None => None,
        },
        match cwd {
            Some(c) => Some(c@),
            None => None,
        },
    ];
    assert(parts.drop_first() =~= seq![parts[1]]);
    assert(parts.drop_first().drop_first() =~= Seq::<Option<Seq<char>>>::empty());
    proof {
        reveal_with_fuel(first_key, 3);
    }
    if let Some(p) = prompt {
        let ks = crate::pattern::jira_keys_in(p);
        if ks.len() > 0 {
            assert(ks@.map_values(|s: String| s@)[0] == ks@[0]@);
            return Some(ks[0].clone());
        }
    }
    if let Some(c) = cwd {
        let ks = crate::pattern::jira_keys_in(c);
        if ks.len() > 0 {
            assert(ks@.map_values(|s: String| s@)[0] == ks@[0]@);
            return Some(ks[0].clone());
        }
    }
    None
}

/// The title of a hook event: the event name, followed by ` — ` and the
/// first 80 characters of the prompt when there is one.
pub open spec fn title_of(event: Seq<char>, prompt: Option<Seq<char>>) -> Seq<char> {
    match prompt {
        Some(p) if p.len() > 0 => event + " — "@ + p.take(
            if p.len() < 80 {
                p.len() as int
            } else {
                80
            },
        ),
        _ => event,
    }
}

pub open spec fn ostr(o: Option<String>) -> Option<Seq<char>> {
    match o {
        Some(s) => Some(s@),
        None => None,
    }
}

/// The title of a hook event.
pub fn title_for(event: &str, prompt: Option<&str>) -> (r: String)
    ensures
        r@ == title_of(
            event@,
            match prompt {
                Some(p) => Some(p@),
                None => None,
            },
        ),
{
    match prompt {
        Some(p) => {
            if p.is_empty() {
                return event.to_owned();
            }
            let snippet = crate::estimate::trunc(p, 80);
            let head = concat(event, " — ");
            concat(head.as_str(), snippet.as_str())
        },
        None => event.to_owned(),
    }
}

/// What a hook payload carries, each field as the caller found it.
#[derive(Debug, Clone)]
pub struct HookPayload {
    /// `hook_event_name`, else `event`.
    pub event: Option<String>,
    pub session_id: Option<String>,
    /// `cwd`, else `project_path`.
    pub cwd: Option<String>,
    /// `prompt`, else `user_prompt`.
    pub prompt: Option<String>,
    pub transcript_path: Option<String>,
}

/// The string members of a hook's JSON payload that its event is made of,
/// each `None` where the member is missing or not a string.
#[derive(Debug, Clone)]
pub struct RawPayload {
    pub hook_event_name: Option<String>,
    pub event: Option<String>,
    pub session_id: Option<String>,
    pub cwd: Option<String>,
    pub project_path: Option<String>,
    pub prompt: Option<String>,
    pub user_prompt: Option<String>,
    pub transcript_path: Option<String>,
}

pub open spec fn raw_view(r: RawPayload) -> Seq<Option<Seq<char>>> {
    seq![
        ostr(r.hook_event_name),
        ostr(r.event),
        ostr(r.session_id),
        ostr(r.cwd),
        ostr(r.project_path),
        ostr(r.prompt),
        ostr(r.user_prompt),
        ostr(r.transcript_path),
    ]
}

/// How `serde_json` reads a hook payload: its string members
/// `hook_event_name`, `event`, `session_id`, `cwd`, `project_path`,
/// `prompt`, `user_prompt`, `transcript_path` in that order, and the
/// payload written back compactly; `None` when the text is not JSON.
pub uninterp spec fn hook_json(text: Seq<char>) -> Option<(Seq<Option<Seq<char>>>, Seq<char>)>;

/// Calls `serde_json::from_str::<serde_json::Value>` on a hook payload,
/// reads off its string members and writes the value back compactly
/// (`Value::to_string`). The contract names the result: it is a function
/// of the text alone.
#[verifier::external_body]
fn read_payload(text: &str) -> (r: Option<(RawPayload, String)>)
    ensures
        match r {
            Some((p, j)) => hook_json(text@) == Some((raw_view(p), j@)),
            None => hook_json(text@) is None,
        },
{
    let v: serde_json::Value = serde_json::from_str(text).ok()?;
    let s = |k: &str| v.get(k).and_then(serde_json::Value::as_str).map(str::to_owned);
    let (hook_event_name, event, session_id, cwd) = (s("hook_event_name"), s("event"), s("session_id"), s("cwd"));
    let (project_path, prompt, user_prompt) = (s("project_path"), s("prompt"), s("user_prompt"));
    let transcript_path = s("transcript_path");
    let p = RawPayload { hook_event_name, event, session_id, cwd, project_path, prompt, user_prompt, transcript_path };
    Some((p, v.to_string()))
}

/// The first of two members that is present.
pub open spec fn either(a: Option<Seq<char>>, b: Option<Seq<char>>) -> Option<Seq<char>> {
    match a {
        Some(x) => Some(x),
        None => b,
    }
}

pub open spec fn payload_view(p: HookPayload) -> Seq<Option<Seq<char>>> {
    seq![ostr(p.event), ostr(p.session_id), ostr(p.cwd), ostr(p.prompt), ostr(p.transcript_path)]
}

/// The payload fields a raw payload gives: the event name from
/// `hook_event_name`, else `event`; the directory from `cwd`, else
/// `project_path`; the prompt from `prompt`, else `user_prompt`.
pub open spec fn chosen(raw: Seq<Option<Seq<char>>>) -> Seq<Option<Seq<char>>> {
    seq![either(raw[0], raw[1]), raw[2], either(raw[3], raw[4]), either(raw[5], raw[6]), raw[7]]
}

fn first_present(a: Option<String>, b: Option<String>) -> (r: Option<String>)
    ensures
        ostr(r) == either(ostr(a), ostr(b)),
{
    match a {
        Some(x) => Some(x),
        None => b,
    }
}

/// The fields of a hook payload its event is made of, read from the
/// payload's JSON text, and the payload written back compactly; `None`
/// when the text is not JSON.
pub fn read_hook_payload(text: &str) -> (r: Option<(HookPayload, String)>)
    ensures
        match hook_json(text@) {
            Some((raw, j)) => r matches Some((p, x)) && payload_view(p) == chosen(raw) && x@ == j,
            None => r is None,
        },
{
    let (raw, json) = match read_payload(text) {
        Some(x) => x,
        None => {
            return None;
        },
    };
    let ghost rv = raw_view(raw);
    let p = HookPayload {
        event: first_present(raw.hook_event_name, raw.event),
        session_id: raw.session_id,
        cwd: first_present(raw.cwd, raw.project_path),
        prompt: first_present(raw.prompt, raw.user_prompt),
        transcript_path: raw.transcript_path,
    };
    assert(payload_view(p) =~= chosen(rv));
    Some((p, json))
}

pub open spec fn or_default(o: Option<String>, d: Seq<char>) -> Seq<char> {
    match o {
        Some(s) => s@,
        None => d,
    }
}

/// The event row a hook payload becomes at instant `now` (RFC 3339),
/// carrying the raw payload text `raw_json`. It is keyed by session,
/// event name and instant, so a repeated delivery upserts rather than
/// duplicates.
pub fn hook_event(payload: &HookPayload, now: &str, raw_json: String) -> (e: Event)
    ensures
        e.id is None,
        e.source@ == crate::sources::assistant(),
        e.source_id@ == or_default(payload.session_id, "no-session"@) + ":"@ + or_default(
            payload.event,
            "unknown"@,
        ) + ":"@ + now@,
        e.started_at@ == now@,
        e.ended_at is None,
        e.duration_seconds is None,
        e.details == payload.transcript_path,
        e.repo is None,
        e.project_path == payload.cwd,
        e.session_id matches Some(s) && s@ == or_default(payload.session_id, "no-session"@),
        e.tempo_worklog_id is None,
        e.raw_json == Some(raw_json),
        e.title@ == title_of(or_default(payload.event, "unknown"@), ostr(payload.prompt)),
        ostr(e.jira_issue) == first_key(seq![ostr(payload.prompt), ostr(payload.cwd)]),
{
    let event = match &payload.event {
        Some(x) => x.clone(),
        None => "unknown".to_owned(),
    };
    let session = match &payload.session_id {
        Some(x) => x.clone(),
        None => "no-session".to_owned(),
    };
    let prompt: Option<&str> = match &payload.prompt {
        Some(p) => Some(p.as_str()),
        None => None,
    };
    let cwd: Option<&str> = match &payload.cwd {
        Some(c) => Some(c.as_str()),
        None => None,
    };
    let jira = first_jira_key(prompt, cwd);
    assert(seq![
        match prompt {
            Some(p) => Some(p@),
            None => None,
        },
        match cwd {
            Some(c) => Some(c@),
            None => None,
        },
    ] =~= seq![ostr(payload.prompt), ostr(payload.cwd)]);
    let a = concat(session.as_str(), ":");
    let b = concat(a.as_str(), event.as_str());
    let c = concat(b.as_str(), ":");
    let source_id = concat(c.as_str(), now);
    Event {
        id: None,
        source: crate::sources::assistant_source(),
        source_id,
        started_at: now.to_owned(),
        ended_at: None,
        duration_seconds: None,
        title: title_for(event.as_str(), prompt),
        details: match &payload.transcript_path {
            Some(t) => Some(t.clone()),
            None => None,
        },
        repo: None,
        project_path: match &payload.cwd {
            Some(c) => Some(c.clone()),
            None => None,
        },
        jira_issue: jira,
        session_id: Some(session),
        tempo_worklog_id: None,
        raw_json: Some(raw_json),
    }
}

} // verus!
