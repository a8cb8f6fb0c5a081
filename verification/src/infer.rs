//! Gap-timeout block clustering.
//!
//! `build_blocks` is a pure function over an event list; persisting the
//! result is the caller's job.
//!
//! Invariants:
//! * Calendar events are authoritative closed units — they never absorb
//!   code/commit activity and never get absorbed by it.
//! * Blocks shorter than `MIN_BLOCK` are dropped; longer than `MAX_BLOCK`
//!   are flagged for human review.
//! * A block keeps a ticket only when every ticketed event in it agrees.
use vstd::prelude::*;

use crate::instant::{in_range, trunc_div, whole_seconds, INSTANT_BOUND, NANOS_PER_SEC};
use crate::text::{chars_of, str_eq, string_of, trim_end_matches, trim_end_matches_window};

verus! {

/// A gap longer than this (20 minutes) closes a block.
pub const TIMEOUT: i128 = 1_200_000_000_000;

/// Every non-calendar event counts this long (2 minutes).
pub const CREDIT: i128 = 120_000_000_000;

/// Blocks shorter than this (5 minutes) are dropped.
pub const MIN_BLOCK: i128 = 300_000_000_000;

/// Blocks longer than this (4 hours) are flagged.
pub const MAX_BLOCK: i128 = 14_400_000_000_000;

/// The largest calendar duration, in seconds, a span can be made of.
pub const MAX_DURATION_SECONDS: i64 = 9_223_372_036_854_775;

/// Event sources that are treated as authoritative calendar blocks.
pub open spec fn is_calendar_name(s: Seq<char>) -> bool {
    s == "gcal"@
}

/// Event sources that are treated as authoritative calendar blocks.
pub fn is_calendar_source(s: &str) -> (b: bool)
    ensures
        b == is_calendar_name(s@),
{
    str_eq(s, "gcal")
}

/// A UTC instant in the text form the events table stores and compares:
/// every trailing `+00:00` offset stripped.
pub fn iso_prefix(s: &str) -> (r: String)
    ensures
        r@ == trim_end_matches(s@, "+00:00"@),
{
    let v = chars_of(s);
    let p = chars_of("+00:00");
    let b = trim_end_matches_window(&v, 0, v.len(), &p);
    assert(v@.subrange(0, v@.len() as int) =~= v@);
    string_of(v.as_slice(), 0, b)
}

/// A single event as consumed by the clustering algorithm; `ts` is in
/// nanoseconds since the epoch.
#[derive(Debug)]
pub struct InferEvent {
    pub ts: i128,
    pub source: String,
    pub duration_seconds: Option<i64>,
    pub jira_issue: Option<String>,
    pub event_id: Option<i64>,
    pub project_path: Option<String>,
}

pub open spec fn opt_view(o: Option<String>) -> Option<Seq<char>> {
    match o {
        Some(s) => Some(s@),
        None => None,
    }
}

/// A copy of an optional string.
pub fn copy_opt(o: &Option<String>) -> (r: Option<String>)
    ensures
        r == *o,
{
    match o {
        Some(s) => Some(s.clone()),
        None => None,
    }
}

impl InferEvent {
    pub open spec fn spec_is_calendar(&self) -> bool {
        is_calendar_name(self.source@)
    }

    /// Where the event's credit ends: a calendar event lasts its own
    /// duration, everything else counts `CREDIT`.
    pub open spec fn spec_end(&self) -> int {
        if self.spec_is_calendar() && self.duration_seconds is Some {
            self.ts + (self.duration_seconds->0 as int) * (NANOS_PER_SEC as int)
        } else {
            self.ts + CREDIT
        }
    }

    /// The event's start and end are representable instants.
    pub open spec fn well_formed(&self) -> bool {
        &&& in_range(self.ts as int)
        &&& (self.spec_is_calendar() && self.duration_seconds is Some) ==> (-MAX_DURATION_SECONDS
            <= self.duration_seconds->0 <= MAX_DURATION_SECONDS)
        &&& in_range(self.spec_end())
    }

    pub open spec fn jira(&self) -> Option<Seq<char>> {
        opt_view(self.jira_issue)
    }

    pub fn is_calendar(&self) -> (b: bool)
        ensures
            b == self.spec_is_calendar(),
    {
        is_calendar_source(self.source.as_str())
    }

    pub fn end(&self) -> (r: i128)
        requires
            self.well_formed(),
        ensures
            r == self.spec_end(),
    {
        if self.is_calendar() {
            if let Some(d) = self.duration_seconds {
                return self.ts + (d as i128) * NANOS_PER_SEC;
            }
        }
        self.ts + CREDIT
    }

    /// Whether the event's start and end are representable instants: the
    /// condition [`build_blocks`] asks of every event.
    pub fn is_well_formed(&self) -> (b: bool)
        ensures
            b == self.well_formed(),
    {
        if self.ts < -crate::instant::INSTANT_BOUND || self.ts > crate::instant::INSTANT_BOUND {
            return false;
        }
        let end: i128 = if self.is_calendar() && self.duration_seconds.is_some() {
            let d = self.duration_seconds.unwrap();
            if d < -MAX_DURATION_SECONDS || d > MAX_DURATION_SECONDS {
                return false;
            }
            self.ts + (d as i128) * NANOS_PER_SEC
        } else {
            self.ts + CREDIT
        };
        -crate::instant::INSTANT_BOUND <= end && end <= crate::instant::INSTANT_BOUND
    }

    /// A field-by-field copy.
    pub fn copy(&self) -> (r: InferEvent)
        ensures
            r == *self,
    {
        InferEvent {
            ts: self.ts,
            source: self.source.clone(),
            duration_seconds: self.duration_seconds,
            jira_issue: copy_opt(&self.jira_issue),
            event_id: self.event_id,
            project_path: copy_opt(&self.project_path),
        }
    }
}

/// A block: a run of events, its span in nanoseconds, and the facts the
/// review UI needs about it.
#[derive(Debug)]
pub struct InferBlock {
    pub started_at: i128,
    pub ended_at: i128,
    pub duration_seconds: i64,
    pub event_count: u32,
    pub event_ids: Vec<i64>,
    pub jira_issue: Option<String>,
    pub flagged: bool,
    /// A calendar block is closed: nothing is ever added to it.
    pub is_calendar: bool,
    pub events: Vec<InferEvent>,
}

/// The mathematical content of an [`InferBlock`].
pub struct BlockSpec {
    pub start: int,
    pub end: int,
    pub duration_seconds: int,
    pub event_count: nat,
    pub event_ids: Seq<i64>,
    pub jira: Option<Seq<char>>,
    pub flagged: bool,
    pub is_calendar: bool,
    pub events: Seq<InferEvent>,
}

impl View for InferBlock {
    type V = BlockSpec;

    open spec fn view(&self) -> BlockSpec {
        BlockSpec {
            start: self.started_at as int,
            end: self.ended_at as int,
            duration_seconds: self.duration_seconds as int,
            event_count: self.event_count as nat,
            event_ids: self.event_ids@,
            jira: opt_view(self.jira_issue),
            flagged: self.flagged,
            is_calendar: self.is_calendar,
            events: self.events@,
        }
    }
}

pub open spec fn ids_of(e: InferEvent) -> Seq<i64> {
    match e.event_id {
        Some(id) => seq![id],
        None => Seq::<i64>::empty(),
    }
}

/// A block holding just `e`.
pub open spec fn new_acc(e: InferEvent) -> BlockSpec {
    BlockSpec {
        start: e.ts as int,
        end: e.spec_end(),
        duration_seconds: trunc_div(e.spec_end() - e.ts, NANOS_PER_SEC as int),
        event_count: 1,
        event_ids: ids_of(e),
        jira: e.jira(),
        flagged: false,
        is_calendar: e.spec_is_calendar(),
        events: seq![e],
    }
}

pub open spec fn max_int(a: int, b: int) -> int {
    if a >= b {
        a
    } else {
        b
    }
}

/// `c` with `e` added.
pub open spec fn extend_acc(c: BlockSpec, e: InferEvent) -> BlockSpec {
    let end = max_int(e.spec_end(), c.end);
    BlockSpec {
        end: end,
        duration_seconds: trunc_div(end - c.start, NANOS_PER_SEC as int),
        event_count: c.event_count + 1,
        event_ids: c.event_ids + ids_of(e),
        events: c.events.push(e),
        ..c
    }
}

/// Whether `e` starts a new block after `c`.
pub open spec fn closes(c: BlockSpec, e: InferEvent) -> bool {
    e.spec_is_calendar() || c.is_calendar || e.ts - c.end > TIMEOUT
}

/// Some ticketed event carries `x`, and every ticketed event carries `x`.
pub open spec fn agrees_on(evs: Seq<InferEvent>, x: Seq<char>) -> bool {
    &&& exists|i: int| 0 <= i < evs.len() && evs[i].jira() == Some(x)
    &&& forall|i: int| 0 <= i < evs.len() && evs[i].jira() is Some ==> evs[i].jira() == Some(x)
}

/// The one ticket every ticketed event agrees on.
pub open spec fn single_issue(evs: Seq<InferEvent>) -> Option<Seq<char>> {
    if exists|x: Seq<char>| agrees_on(evs, x) {
        Some(choose|x: Seq<char>| agrees_on(evs, x))
    } else {
        None
    }
}

/// A finished block: dropped when too short, flagged when too long, with
/// the ticket its events agree on.
pub open spec fn finalize_acc(c: BlockSpec) -> Option<BlockSpec> {
    if c.end - c.start < MIN_BLOCK {
        None
    } else {
        Some(
            BlockSpec {
                flagged: c.flagged || c.end - c.start > MAX_BLOCK,
                jira: single_issue(c.events),
                ..c
            },
        )
    }
}

pub open spec fn push_opt(s: Seq<BlockSpec>, o: Option<BlockSpec>) -> Seq<BlockSpec> {
    match o {
        Some(b) => s.push(b),
        None => s,
    }
}

/// One clustering step: `e` either extends the open block or closes it.
pub open spec fn step(st: (Seq<BlockSpec>, Option<BlockSpec>), e: InferEvent) -> (
    Seq<BlockSpec>,
    Option<BlockSpec>,
) {
    match st.1 {
        None => (st.0, Some(new_acc(e))),
        Some(c) => if closes(c, e) {
            (push_opt(st.0, finalize_acc(c)), Some(new_acc(e)))
        } else {
            (st.0, Some(extend_acc(c, e)))
        },
    }
}

/// The finished blocks and the open one after the events `evs`.
pub open spec fn run(evs: Seq<InferEvent>) -> (Seq<BlockSpec>, Option<BlockSpec>)
    decreases evs.len(),
{
    if evs.len() == 0 {
        (Seq::<BlockSpec>::empty(), None)
    } else {
        step(run(evs.drop_last()), evs.last())
    }
}

/// The blocks of events already in time order.
pub open spec fn clustered(evs: Seq<InferEvent>) -> Seq<BlockSpec> {
    let st = run(evs);
    match st.1 {
        Some(c) => push_opt(st.0, finalize_acc(c)),
        None => st.0,
    }
}

pub open spec fn opt_int_lt(a: Option<i64>, b: Option<i64>) -> bool {
    match (a, b) {
        (None, Some(_)) => true,
        (Some(x), Some(y)) => x < y,
        _ => false,
    }
}

pub open spec fn otext(o: Option<String>) -> Option<Seq<char>> {
    match o {
        Some(s) => Some(s@),
        None => None,
    }
}

pub open spec fn opt_text_lt(a: Option<Seq<char>>, b: Option<Seq<char>>) -> bool {
    match (a, b) {
        (None, Some(_)) => true,
        (Some(x), Some(y)) => crate::order::lex_lt(x, y),
        _ => false,
    }
}

/// The order events are clustered in: by time; at the same instant other
/// events before calendar events; then by duration, event id, ticket,
/// working directory and source.
pub open spec fn ev_lt(a: InferEvent, b: InferEvent) -> bool {
    if a.ts != b.ts {
        a.ts < b.ts
    } else if a.spec_is_calendar() != b.spec_is_calendar() {
        !a.spec_is_calendar()
    } else if a.duration_seconds != b.duration_seconds {
        opt_int_lt(a.duration_seconds, b.duration_seconds)
    } else if a.event_id != b.event_id {
        opt_int_lt(a.event_id, b.event_id)
    } else if otext(a.jira_issue) != otext(b.jira_issue) {
        opt_text_lt(otext(a.jira_issue), otext(b.jira_issue))
    } else if otext(a.project_path) != otext(b.project_path) {
        opt_text_lt(otext(a.project_path), otext(b.project_path))
    } else {
        crate::order::lex_lt(a.source@, b.source@)
    }
}

proof fn lemma_opt_text_lt(a: Option<Seq<char>>, b: Option<Seq<char>>, c: Option<Seq<char>>)
    ensures
        opt_text_lt(a, b) && opt_text_lt(b, c) ==> opt_text_lt(a, c),
        a != b ==> (opt_text_lt(a, b) || opt_text_lt(b, a)),
        opt_text_lt(a, b) ==> a != b && !opt_text_lt(b, a),
{
    match (a, b, c) {
        (Some(x), Some(y), Some(z)) => {
            if crate::order::lex_lt(x, y) && crate::order::lex_lt(y, z) {
                crate::order::lemma_lex_transitive(x, y, z);
            }
            if x != y {
                crate::order::lemma_lex_total(x, y);
            }
            if crate::order::lex_lt(x, y) {
                crate::order::lemma_lex_asymmetric(x, y);
                crate::order::lemma_lex_irreflexive(x);
            }
        },
        (Some(x), Some(y), None) => {
            if x != y {
                crate::order::lemma_lex_total(x, y);
            }
            if crate::order::lex_lt(x, y) {
                crate::order::lemma_lex_asymmetric(x, y);
                crate::order::lemma_lex_irreflexive(x);
            }
        },
        _ => {},
    }
}

/// `ev_lt` is a strict order.
proof fn lemma_ev_lt(a: InferEvent, b: InferEvent, c: InferEvent)
    ensures
        ev_lt(a, b) && ev_lt(b, c) ==> ev_lt(a, c),
        ev_lt(a, b) ==> !ev_lt(b, a),
{
    lemma_opt_text_lt(otext(a.jira_issue), otext(b.jira_issue), otext(c.jira_issue));
    lemma_opt_text_lt(otext(a.project_path), otext(b.project_path), otext(c.project_path));
    if crate::order::lex_lt(a.source@, b.source@) && crate::order::lex_lt(b.source@, c.source@) {
        crate::order::lemma_lex_transitive(a.source@, b.source@, c.source@);
    }
    if crate::order::lex_lt(a.source@, b.source@) {
        crate::order::lemma_lex_asymmetric(a.source@, b.source@);
    }
}

/// The clustering order is total and strict: of two events one comes
/// first, unless they carry the same time, duration, id, ticket, working
/// directory and source, so no tie is left to the input order.
pub proof fn law_clustering_order_is_total(a: InferEvent, b: InferEvent)
    ensures
        ev_lt(a, b) ==> !ev_lt(b, a),
        ev_lt(a, b) || ev_lt(b, a) || ({
            &&& a.ts == b.ts
            &&& a.duration_seconds == b.duration_seconds
            &&& a.event_id == b.event_id
            &&& otext(a.jira_issue) == otext(b.jira_issue)
            &&& otext(a.project_path) == otext(b.project_path)
            &&& a.source@ == b.source@
        }),
{
    lemma_ev_lt(a, b, a);
    lemma_opt_text_lt(otext(a.jira_issue), otext(b.jira_issue), otext(a.jira_issue));
    lemma_opt_text_lt(otext(a.project_path), otext(b.project_path), otext(a.project_path));
    if a.source@ != b.source@ {
        crate::order::lemma_lex_total(a.source@, b.source@);
    }
}

/// Where a stable insertion puts `e`: after every event not above it.
pub open spec fn insert_pos(s: Seq<InferEvent>, e: InferEvent) -> int
    decreases s.len(),
{
    if s.len() == 0 {
        0
    } else if ev_lt(e, s[0]) {
        0
    } else {
        1 + insert_pos(s.drop_first(), e)
    }
}

/// `evs` sorted by [`ev_lt`].
pub open spec fn sort_by_ts(evs: Seq<InferEvent>) -> Seq<InferEvent>
    decreases evs.len(),
{
    if evs.len() == 0 {
        evs
    } else {
        let s = sort_by_ts(evs.drop_last());
        s.insert(insert_pos(s, evs.last()), evs.last())
    }
}

/// The blocks of a day's events, in any input order.
pub open spec fn build_blocks_spec(evs: Seq<InferEvent>) -> Seq<BlockSpec> {
    clustered(sort_by_ts(evs))
}

proof fn lemma_insert_pos_is(s: Seq<InferEvent>, e: InferEvent, i: int)
    requires
        0 <= i <= s.len(),
        forall|j: int| 0 <= j < i ==> !ev_lt(e, #[trigger] s[j]),
        i < s.len() ==> ev_lt(e, s[i]),
    ensures
        insert_pos(s, e) == i,
    decreases s.len(),
{
    if s.len() > 0 && i > 0 {
        assert(!ev_lt(e, s[0]));
        assert forall|j: int| 0 <= j < i - 1 implies !ev_lt(e, #[trigger] s.drop_first()[j]) by {
            assert(s.drop_first()[j] == s[j + 1]);
        }
        lemma_insert_pos_is(s.drop_first(), e, i - 1);
    }
}

proof fn lemma_sort_wf(evs: Seq<InferEvent>)
    requires
        forall|i: int| 0 <= i < evs.len() ==> (#[trigger] evs[i]).well_formed(),
    ensures
        sort_by_ts(evs).len() == evs.len(),
        forall|i: int|
            0 <= i < sort_by_ts(evs).len() ==> (#[trigger] sort_by_ts(evs)[i]).well_formed(),
    decreases evs.len(),
{
    if evs.len() > 0 {
        let d = evs.drop_last();
        assert forall|i: int| 0 <= i < d.len() implies (#[trigger] d[i]).well_formed() by {
            assert(d[i] == evs[i]);
        }
        lemma_sort_wf(d);
        let s = sort_by_ts(d);
        lemma_insert_pos_range(s, evs.last());
        let p = insert_pos(s, evs.last());
        let r = s.insert(p, evs.last());
        assert(evs.last().well_formed());
        assert forall|k: int| 0 <= k < r.len() implies (#[trigger] r[k]).well_formed() by {
            if k < p {
                assert(r[k] == s[k]);
            } else if k > p {
                assert(r[k] == s[k - 1]);
            }
        }
    }
}

proof fn lemma_insert_pos_range(s: Seq<InferEvent>, e: InferEvent)
    ensures
        0 <= insert_pos(s, e) <= s.len(),
    decreases s.len(),
{
    if s.len() > 0 {
        lemma_insert_pos_range(s.drop_first(), e);
    }
}

fn opt_int_less(a: Option<i64>, b: Option<i64>) -> (r: bool)
    ensures
        r == opt_int_lt(a, b),
{
    match (a, b) {
        (None, Some(_)) => true,
        (Some(x), Some(y)) => x < y,
        _ => false,
    }
}

fn opt_text_eq(a: &Option<String>, b: &Option<String>) -> (r: bool)
    ensures
        r == (otext(*a) == otext(*b)),
{
    match (a, b) {
        (Some(x), Some(y)) => str_eq(x.as_str(), y.as_str()),
        (None, None) => true,
        _ => false,
    }
}

fn opt_text_less(a: &Option<String>, b: &Option<String>) -> (r: bool)
    ensures
        r == opt_text_lt(otext(*a), otext(*b)),
{
    match (a, b) {
        (None, Some(_)) => true,
        (Some(x), Some(y)) => crate::order::str_lt(&chars_of(x.as_str()), &chars_of(y.as_str())),
        _ => false,
    }
}

/// Whether `a` comes before `b` in the clustering order.
fn event_lt(a: &InferEvent, b: &InferEvent) -> (r: bool)
    ensures
        r == ev_lt(*a, *b),
{
    if a.ts != b.ts {
        return a.ts < b.ts;
    }
    let ca = a.is_calendar();
    let cb = b.is_calendar();
    if ca != cb {
        return !ca;
    }
    if a.duration_seconds != b.duration_seconds {
        return opt_int_less(a.duration_seconds, b.duration_seconds);
    }
    if a.event_id != b.event_id {
        return opt_int_less(a.event_id, b.event_id);
    }
    if !opt_text_eq(&a.jira_issue, &b.jira_issue) {
        return opt_text_less(&a.jira_issue, &b.jira_issue);
    }
    if !opt_text_eq(&a.project_path, &b.project_path) {
        return opt_text_less(&a.project_path, &b.project_path);
    }
    crate::order::str_lt(&chars_of(a.source.as_str()), &chars_of(b.source.as_str()))
}

/// Insertion sort by [`ev_lt`].
fn sort_events(events: &Vec<InferEvent>) -> (r: Vec<InferEvent>)
    ensures
        r@ == sort_by_ts(events@),
{
    let mut sorted: Vec<InferEvent> = Vec::new();
    let mut k: usize = 0;
    while k < events.len()
        invariant
            k <= events@.len(),
            sorted@ == sort_by_ts(events@.take(k as int)),
        decreases events@.len() - k,
    {
        let e = events[k].copy();
        let mut i: usize = 0;
        while i < sorted.len() && !event_lt(&e, &sorted[i])
            invariant
                i <= sorted@.len(),
                forall|j: int| 0 <= j < i ==> !ev_lt(e, #[trigger] sorted@[j]),
            decreases sorted@.len() - i,
        {
            i = i + 1;
        }
        proof {
            lemma_insert_pos_is(sorted@, e, i as int);
            assert(events@.take(k + 1).drop_last() =~= events@.take(k as int));
            assert(events@.take(k + 1).last() == events@[k as int]);
        }
        sorted.insert(i, e);
        k = k + 1;
    }
    assert(events@.take(k as int) =~= events@);
    sorted
}

/// A block holding just `e`.
fn new_block(e: InferEvent) -> (b: InferBlock)
    requires
        e.well_formed(),
    ensures
        b@ == new_acc(e),
{
    let end = e.end();
    let mut ids: Vec<i64> = Vec::new();
    if let Some(id) = e.event_id {
        ids.push(id);
    }
    assert(ids@ =~= ids_of(e));
    let jira = copy_opt(&e.jira_issue);
    let cal = e.is_calendar();
    let ts = e.ts;
    let mut events: Vec<InferEvent> = Vec::new();
    events.push(e);
    assert(events@ =~= seq![e]);
    InferBlock {
        started_at: ts,
        ended_at: end,
        duration_seconds: whole_seconds(end - ts),
        event_count: 1,
        event_ids: ids,
        jira_issue: jira,
        flagged: false,
        is_calendar: cal,
        events,
    }
}

/// Add `e` to the open block.
fn extend_block(block: &mut InferBlock, e: InferEvent)
    requires
        e.well_formed(),
        in_range(old(block).started_at as int),
        in_range(old(block).ended_at as int),
        old(block).event_count < u32::MAX,
    ensures
        final(block)@ == extend_acc(old(block)@, e),
{
    let ee = e.end();
    let end = if ee >= block.ended_at {
        ee
    } else {
        block.ended_at
    };
    block.ended_at = end;
    block.duration_seconds = whole_seconds(end - block.started_at);
    block.event_count = block.event_count + 1;
    let ghost ids_before = block.event_ids@;
    if let Some(id) = e.event_id {
        block.event_ids.push(id);
    }
    assert(block.event_ids@ =~= ids_before + ids_of(e));
    block.events.push(e);
}

/// The ticket all ticketed events of `evs` agree on, if any.
fn agreed_issue(evs: &Vec<InferEvent>) -> (r: Option<String>)
    ensures
        opt_view(r) == single_issue(evs@),
{
    let mut first: Option<String> = None;
    let mut conflict = false;
    let mut k: usize = 0;
    while k < evs.len()
        invariant
            k <= evs@.len(),
            first is None ==> forall|i: int| 0 <= i < k ==> evs@[i].jira() is None,
            first is Some ==> exists|i: int| 0 <= i < k && evs@[i].jira() == opt_view(first),
            !conflict && first is Some ==> forall|i: int|
                0 <= i < k && evs@[i].jira() is Some ==> evs@[i].jira() == opt_view(first),
            conflict ==> first is Some && exists|i: int|
                0 <= i < k && evs@[i].jira() is Some && evs@[i].jira() != opt_view(first),
        decreases evs@.len() - k,
    {
        match &evs[k].jira_issue {
            Some(j) => {
                match &first {
                    None => {
                        first = Some(j.clone());
                    },
                    Some(f) => {
                        if !str_eq(f.as_str(), j.as_str()) {
                            conflict = true;
                        }
                    },
                }
            },
            None => {},
        }
        k = k + 1;
    }
    if conflict {
        proof {
            let i = choose|i: int|
                0 <= i < evs@.len() && evs@[i].jira() is Some && evs@[i].jira() != opt_view(first);
            if exists|x: Seq<char>| agrees_on(evs@, x) {
                let x = choose|x: Seq<char>| agrees_on(evs@, x);
                let i0 = choose|i0: int| 0 <= i0 < evs@.len() && evs@[i0].jira() == opt_view(first);
                assert(evs@[i0].jira() == Some(x));
                assert(evs@[i].jira() == Some(x));
            }
        }
        None
    } else {
        proof {
            if first is Some {
                let x = opt_view(first)->0;
                assert(agrees_on(evs@, x));
                let y = choose|y: Seq<char>| agrees_on(evs@, y);
                let iy = choose|i: int| 0 <= i < evs@.len() && evs@[i].jira() == Some(y);
                assert(evs@[iy].jira() == Some(x));
            }
        }
        first
    }
}

/// Drop a too-short block, flag a too-long one, settle its ticket.
pub(crate) fn finalize(block: InferBlock) -> (r: Option<InferBlock>)
    requires
        in_range(block.started_at as int),
        in_range(block.ended_at as int),
    ensures
        match r {
            Some(b) => finalize_acc(block@) == Some(b@),
            None => finalize_acc(block@) is None,
        },
{
    let mut block = block;
    let duration = block.ended_at - block.started_at;
    if duration < MIN_BLOCK {
        return None;
    }
    if duration > MAX_BLOCK {
        block.flagged = true;
    }
    block.jira_issue = agreed_issue(&block.events);
    Some(block)
}

/// Facts the clustering loop keeps about an open block.
pub open spec fn acc_ok(c: BlockSpec, k: nat) -> bool {
    &&& in_range(c.start)
    &&& in_range(c.end)
    &&& c.event_count <= k
}

proof fn lemma_run_acc_ok(evs: Seq<InferEvent>)
    requires
        forall|i: int| 0 <= i < evs.len() ==> (#[trigger] evs[i]).well_formed(),
    ensures
        run(evs).1 is Some ==> acc_ok(run(evs).1->0, evs.len()),
        evs.len() > 0 ==> run(evs).1 is Some,
    decreases evs.len(),
{
    if evs.len() > 0 {
        lemma_run_acc_ok(evs.drop_last());
        assert(evs.last().well_formed());
    }
}

/// Cluster a day's events into blocks. Input order doesn't matter: the
/// events are taken in [`ev_lt`] order.
pub fn build_blocks(events: Vec<InferEvent>) -> (blocks: Vec<InferBlock>)
    requires
        forall|i: int| 0 <= i < events@.len() ==> (#[trigger] events@[i]).well_formed(),
        events@.len() < u32::MAX,
    ensures
        blocks@.map_values(|b: InferBlock| b@) == build_blocks_spec(events@),
{
    let usable = sort_events(&events);
    proof {
        lemma_sort_wf(events@);
    }
    let n = usable.len();
    let mut blocks: Vec<InferBlock> = Vec::new();
    let mut current: Option<InferBlock> = None;
    let mut k: usize = 0;
    assert(usable@.take(0) =~= Seq::<InferEvent>::empty());
    assert(blocks@.map_values(|b: InferBlock| b@) =~= Seq::<BlockSpec>::empty());
    while k < n
        invariant
            n == usable@.len(),
            n < u32::MAX,
            k <= n,
            forall|i: int| 0 <= i < usable@.len() ==> (#[trigger] usable@[i]).well_formed(),
            blocks@.map_values(|b: InferBlock| b@) == run(usable@.take(k as int)).0,
            match current {
                Some(c) => run(usable@.take(k as int)).1 == Some(c@),
                None => run(usable@.take(k as int)).1 is None,
            },
        decreases n - k,
    {
        let e = usable[k].copy();
        proof {
            assert(usable@.take(k + 1).drop_last() =~= usable@.take(k as int));
            assert(usable@.take(k + 1).last() == usable@[k as int]);
            lemma_run_acc_ok(usable@.take(k as int));
            assert(usable@[k as int].well_formed());
        }
        let ghost before = blocks@.map_values(|b: InferBlock| b@);
        match current.take() {
            None => {
                current = Some(new_block(e));
            },
            Some(mut c) => {
                let gap = e.ts - c.ended_at;
                let closed = e.is_calendar() || c.is_calendar || gap > TIMEOUT;
                if closed {
                    match finalize(c) {
                        Some(f) => {
                            blocks.push(f);
                            assert(blocks@.map_values(|b: InferBlock| b@) =~= before.push(f@));
                        },
                        None => {},
                    }
                    current = Some(new_block(e));
                } else {
                    extend_block(&mut c, e);
                    current = Some(c);
                }
            },
        }
        k = k + 1;
    }
    assert(usable@.take(n as int) =~= usable@);
    proof {
        lemma_run_acc_ok(usable@);
    }
    match current {
        Some(c) => {
            let ghost before = blocks@.map_values(|b: InferBlock| b@);
            match finalize(c) {
                Some(f) => {
                    blocks.push(f);
                    assert(blocks@.map_values(|b: InferBlock| b@) =~= before.push(f@));
                },
                None => {},
            }
        },
        None => {},
    }
    blocks
}


/// Events in non-decreasing time order.
pub open spec fn ts_sorted(evs: Seq<InferEvent>) -> bool {
    forall|i: int, j: int| 0 <= i <= j < evs.len() ==> evs[i].ts <= evs[j].ts
}

/// The shape every block has: a first event it starts at, a count that
/// matches its events, and calendar events alone in their own block.
pub open spec fn acc_shape(b: BlockSpec) -> bool {
    &&& b.events.len() >= 1
    &&& b.event_count == b.events.len()
    &&& b.start == b.events[0].ts
    &&& b.is_calendar ==> b.events.len() == 1
    &&& forall|j: int|
        0 <= j < b.events.len() ==> (#[trigger] b.events[j]).spec_is_calendar() == b.is_calendar
}

/// What every emitted block satisfies.
pub open spec fn block_ok(b: BlockSpec) -> bool {
    &&& acc_shape(b)
    &&& b.end - b.start >= MIN_BLOCK
    &&& b.flagged == (b.end - b.start > MAX_BLOCK)
    &&& b.jira == single_issue(b.events)
}

pub open spec fn run_ok(st: (Seq<BlockSpec>, Option<BlockSpec>), evs: Seq<InferEvent>) -> bool {
    &&& forall|i: int| 0 <= i < st.0.len() ==> block_ok(#[trigger] st.0[i])
    &&& forall|i: int, j: int| 0 <= i <= j < st.0.len() ==> st.0[i].start <= st.0[j].start
    &&& evs.len() == 0 ==> st.1 is None && st.0.len() == 0
    &&& evs.len() > 0 ==> {
        &&& st.1 is Some
        &&& acc_shape(st.1->0)
        &&& !st.1->0.flagged
        &&& st.1->0.start <= evs.last().ts
        &&& forall|i: int| 0 <= i < st.0.len() ==> st.0[i].start <= st.1->0.start
    }
}

proof fn lemma_insert_pos_props(s: Seq<InferEvent>, e: InferEvent)
    ensures
        0 <= insert_pos(s, e) <= s.len(),
        forall|j: int| 0 <= j < insert_pos(s, e) ==> !ev_lt(e, #[trigger] s[j]),
        insert_pos(s, e) < s.len() ==> ev_lt(e, s[insert_pos(s, e)]),
    decreases s.len(),
{
    if s.len() > 0 && !ev_lt(e, s[0]) {
        lemma_insert_pos_props(s.drop_first(), e);
        assert forall|j: int| 0 <= j < insert_pos(s, e) implies !ev_lt(e, #[trigger] s[j]) by {
            if j > 0 {
                assert(s[j] == s.drop_first()[j - 1]);
            }
        }
    }
}

/// Events in the clustering order: no later event comes before an
/// earlier one.
pub open spec fn key_sorted(evs: Seq<InferEvent>) -> bool {
    forall|i: int, j: int| 0 <= i <= j < evs.len() ==> !ev_lt(#[trigger] evs[j], #[trigger] evs[i])
}

proof fn lemma_key_sorted(evs: Seq<InferEvent>)
    ensures
        key_sorted(sort_by_ts(evs)),
        sort_by_ts(evs).len() == evs.len(),
    decreases evs.len(),
{
    if evs.len() > 0 {
        lemma_key_sorted(evs.drop_last());
        let s = sort_by_ts(evs.drop_last());
        let e = evs.last();
        lemma_insert_pos_props(s, e);
        let p = insert_pos(s, e);
        let r = s.insert(p, e);
        assert forall|i: int, j: int| 0 <= i <= j < r.len() implies !ev_lt(#[trigger] r[j], #[trigger] r[i]) by {
            if i == j {
                lemma_ev_lt(r[i], r[i], r[i]);
            } else if j < p {
            } else if i < p && j == p {
            } else if i < p && j > p {
                assert(r[j] == s[j - 1]);
            } else if i == p && j > p {
                assert(r[j] == s[j - 1]);
                // e < s[p] <= s[j-1], so s[j-1] < e would give s[j-1] < s[p].
                lemma_ev_lt(s[j - 1], e, s[p]);
                assert(!ev_lt(s[j - 1], s[p]));
            } else {
                assert(r[i] == s[i - 1]);
                assert(r[j] == s[j - 1]);
            }
        }
    }
}

pub(crate) proof fn lemma_sort_multiset(evs: Seq<InferEvent>)
    ensures
        sort_by_ts(evs).to_multiset() == evs.to_multiset(),
    decreases evs.len(),
{
    broadcast use vstd::seq_lib::group_to_multiset_ensures;

    if evs.len() > 0 {
        lemma_sort_multiset(evs.drop_last());
        let s = sort_by_ts(evs.drop_last());
        let e = evs.last();
        lemma_insert_pos_range(s, e);
        vstd::seq_lib::to_multiset_insert(s, insert_pos(s, e), e);
        assert(evs =~= evs.drop_last().push(e));
    }
}

/// A calendar event at least `MIN_BLOCK` long.
pub open spec fn kept_meeting(e: InferEvent) -> bool {
    e.spec_is_calendar() && e.spec_end() - e.ts >= MIN_BLOCK
}

proof fn lemma_run_grows(xs: Seq<InferEvent>, m: int, n: int)
    requires
        0 <= m <= n <= xs.len(),
    ensures
        run(xs.take(m)).0.len() <= run(xs.take(n)).0.len(),
        forall|k: int| 0 <= k < run(xs.take(m)).0.len() ==> #[trigger] run(xs.take(n)).0[k] == run(xs.take(m)).0[k],
    decreases n - m,
{
    if m < n {
        lemma_run_grows(xs, m, n - 1);
        assert(xs.take(n).drop_last() =~= xs.take(n - 1));
    }
}

/// A long calendar event always makes a block of its own, whatever
/// surrounds it: the meeting is never folded into work nor dropped.
proof fn lemma_meeting_block(xs: Seq<InferEvent>, t: int)
    requires
        0 <= t < xs.len(),
        kept_meeting(xs[t]),
    ensures
        exists|k: int| 0 <= k < clustered(xs).len() && (#[trigger] clustered(xs)[k]).events == seq![xs[t]]
            && clustered(xs)[k].is_calendar,
{
    let e = xs[t];
    let b = finalize_acc(new_acc(e))->0;
    assert(finalize_acc(new_acc(e)) is Some);
    assert(xs.take(t + 1).drop_last() =~= xs.take(t));
    assert(xs.take(t + 1).last() == e);
    assert(run(xs.take(t + 1)).1 == Some(new_acc(e)));
    if t + 1 == xs.len() {
        assert(xs.take(t + 1) =~= xs);
        let st = run(xs);
        assert(clustered(xs) == st.0.push(b));
        assert(clustered(xs)[st.0.len() as int] == b);
    } else {
        assert(xs.take(t + 2).drop_last() =~= xs.take(t + 1));
        let p = run(xs.take(t + 1)).0;
        assert(run(xs.take(t + 2)).0 == p.push(b));
        lemma_run_grows(xs, t + 2, xs.len() as int);
        assert(xs.take(xs.len() as int) =~= xs);
        let k = p.len() as int;
        assert(run(xs.take(t + 2)).0[k] == b);
        assert(run(xs).0[k] == b);
        let st = run(xs);
        match st.1 {
            Some(c) => {
                assert(clustered(xs)[k] == st.0[k]);
            },
            None => {},
        }
        assert(clustered(xs)[k] == b);
    }
}

/// A meeting is never lost: every calendar event at least `MIN_BLOCK` long
/// is a calendar block of its own among the day's blocks.
pub proof fn law_meetings_are_kept(evs: Seq<InferEvent>)
    ensures
        forall|i: int| 0 <= i < evs.len() && kept_meeting(#[trigger] evs[i]) ==> exists|k: int|
            0 <= k < build_blocks_spec(evs).len() && (#[trigger] build_blocks_spec(evs)[k]).events
                == seq![evs[i]] && build_blocks_spec(evs)[k].is_calendar,
{
    assert forall|i: int| 0 <= i < evs.len() && kept_meeting(#[trigger] evs[i]) implies exists|k: int|
        0 <= k < build_blocks_spec(evs).len() && (#[trigger] build_blocks_spec(evs)[k]).events
            == seq![evs[i]] && build_blocks_spec(evs)[k].is_calendar by {
        broadcast use vstd::seq_lib::group_to_multiset_ensures;

        lemma_sort_multiset(evs);
        let s = sort_by_ts(evs);
        assert(evs.contains(evs[i]));
        assert(evs.to_multiset().count(evs[i]) > 0);
        assert(s.contains(evs[i]));
        let t = choose|t: int| 0 <= t < s.len() && s[t] == evs[i];
        lemma_meeting_block(s, t);
        let k = choose|k: int| 0 <= k < clustered(s).len() && (#[trigger] clustered(s)[k]).events == seq![s[t]]
            && clustered(s)[k].is_calendar;
        assert(build_blocks_spec(evs) == clustered(s));
        assert(build_blocks_spec(evs)[k].events == seq![evs[i]]);
    }
}

/// Two events with the same time, source, duration, id, ticket and
/// working directory.
pub open spec fn same_content(a: InferEvent, b: InferEvent) -> bool {
    &&& a.ts == b.ts
    &&& a.source@ == b.source@
    &&& a.duration_seconds == b.duration_seconds
    &&& a.event_id == b.event_id
    &&& otext(a.jira_issue) == otext(b.jira_issue)
    &&& otext(a.project_path) == otext(b.project_path)
}

/// Two event lists in the clustering order that hold the same events,
/// no two of them alike in content without being the same, are the
/// same list.
proof fn lemma_sorted_same(x: Seq<InferEvent>, y: Seq<InferEvent>)
    requires
        key_sorted(x),
        key_sorted(y),
        x.to_multiset() == y.to_multiset(),
        forall|p: InferEvent, q: InferEvent| #[trigger] x.contains(p) && #[trigger] x.contains(q) && same_content(p, q) ==> p == q,
    ensures
        x == y,
    decreases x.len(),
{
    broadcast use vstd::seq_lib::group_to_multiset_ensures;
    broadcast use vstd::multiset::group_multiset_axioms;

    if x.len() > 0 && y.len() > 0 {
        assert(x.contains(x[0]));
        assert(y.contains(y[0]));
        assert(x.to_multiset().count(x[0]) > 0);
        assert(y.to_multiset().count(y[0]) > 0);
        assert(y.contains(x[0]));
        assert(x.contains(y[0]));
        let i = choose|i: int| 0 <= i < x.len() && x[i] == y[0];
        let k = choose|k: int| 0 <= k < y.len() && y[k] == x[0];
        assert(!ev_lt(x[i], x[0]));
        assert(!ev_lt(y[k], y[0]));
        law_clustering_order_is_total(x[0], y[0]);
        assert(x[0] == y[0]);
        let xr = x.drop_first();
        let yr = y.drop_first();
        assert(x.remove(0) =~= xr);
        assert(y.remove(0) =~= yr);
        assert(xr.to_multiset() =~= yr.to_multiset());
        assert forall|i2: int, j2: int| 0 <= i2 <= j2 < xr.len() implies !ev_lt(#[trigger] xr[j2], #[trigger] xr[i2]) by {
            assert(xr[j2] == x[j2 + 1] && xr[i2] == x[i2 + 1]);
        }
        assert forall|i2: int, j2: int| 0 <= i2 <= j2 < yr.len() implies !ev_lt(#[trigger] yr[j2], #[trigger] yr[i2]) by {
            assert(yr[j2] == y[j2 + 1] && yr[i2] == y[i2 + 1]);
        }
        assert forall|p: InferEvent, q: InferEvent| #[trigger] xr.contains(p) && #[trigger] xr.contains(q) && same_content(p, q) implies p == q by {
            let a = choose|a: int| 0 <= a < xr.len() && xr[a] == p;
            let b = choose|b: int| 0 <= b < xr.len() && xr[b] == q;
            assert(x[a + 1] == p && x[b + 1] == q);
            assert(x.contains(p) && x.contains(q));
        }
        lemma_sorted_same(xr, yr);
        assert(x =~= seq![x[0]] + xr);
        assert(y =~= seq![y[0]] + yr);
    } else {
        assert(x.len() == x.to_multiset().len());
        assert(y.len() == y.to_multiset().len());
        assert(x =~= y);
    }
}

/// Input order does not matter: two lists of the same events give the
/// same blocks. (Events alike in time, source, duration, id, ticket and
/// working directory must be one and the same value, as they are when
/// compared by content.)
pub proof fn law_input_order_does_not_matter(a: Seq<InferEvent>, b: Seq<InferEvent>)
    requires
        a.to_multiset() == b.to_multiset(),
        forall|p: InferEvent, q: InferEvent| #[trigger] a.contains(p) && #[trigger] a.contains(q) && same_content(p, q) ==> p == q,
    ensures
        build_blocks_spec(a) == build_blocks_spec(b),
{
    broadcast use vstd::seq_lib::group_to_multiset_ensures;

    lemma_sort_multiset(a);
    lemma_sort_multiset(b);
    lemma_key_sorted(a);
    lemma_key_sorted(b);
    let sa = sort_by_ts(a);
    let sb = sort_by_ts(b);
    assert forall|p: InferEvent, q: InferEvent| #[trigger] sa.contains(p) && #[trigger] sa.contains(q) && same_content(p, q) implies p == q by {
        assert(sa.to_multiset().count(p) > 0 && sa.to_multiset().count(q) > 0);
        assert(a.contains(p) && a.contains(q));
    }
    lemma_sorted_same(sa, sb);
}

/// Sorting leaves the events in time order.
pub proof fn lemma_sort_sorted(evs: Seq<InferEvent>)
    ensures
        ts_sorted(sort_by_ts(evs)),
        sort_by_ts(evs).len() == evs.len(),
{
    lemma_key_sorted(evs);
    let s = sort_by_ts(evs);
    assert forall|i: int, j: int| 0 <= i <= j < s.len() implies s[i].ts <= s[j].ts by {
        assert(!ev_lt(s[j], s[i]));
    }
}

proof fn lemma_run_ok(evs: Seq<InferEvent>)
    requires
        ts_sorted(evs),
    ensures
        run_ok(run(evs), evs),
    decreases evs.len(),
{
    if evs.len() > 0 {
        let d = evs.drop_last();
        let e = evs.last();
        assert(ts_sorted(d)) by {
            assert forall|i: int, j: int| 0 <= i <= j < d.len() implies d[i].ts <= d[j].ts by {
                assert(d[i] == evs[i] && d[j] == evs[j]);
            }
        }
        lemma_run_ok(d);
        let st = run(d);
        if d.len() > 0 {
            assert(d.last() == evs[evs.len() - 2]);
            assert(d.last().ts <= e.ts);
        }
        let a = new_acc(e);
        assert(a.events =~= seq![e]);
        assert(acc_shape(a));
        match st.1 {
            None => {
            },
            Some(c) => {
                if closes(c, e) {
                    let done = push_opt(st.0, finalize_acc(c));
                    match finalize_acc(c) {
                        Some(f) => {
                            assert(block_ok(f));
                            assert forall|i: int| 0 <= i < done.len() implies block_ok(
                                #[trigger] done[i],
                            ) by {
                                if i < st.0.len() {
                                    assert(done[i] == st.0[i]);
                                }
                            }
                            assert forall|i: int, j: int|
                                0 <= i <= j < done.len() implies done[i].start
                                <= done[j].start by {
                                if j < st.0.len() {
                                    assert(done[i] == st.0[i] && done[j] == st.0[j]);
                                } else if i < st.0.len() {
                                    assert(done[i] == st.0[i]);
                                }
                            }
                        },
                        None => {
                        },
                    }
                } else {
                    let x = extend_acc(c, e);
                    assert(x.events == c.events.push(e));
                    assert(x.events[0] == c.events[0]);
                    assert forall|j: int| 0 <= j < x.events.len() implies (
                    #[trigger] x.events[j]).spec_is_calendar() == x.is_calendar by {
                        if j < c.events.len() {
                            assert(x.events[j] == c.events[j]);
                        }
                    }
                }
            },
        }
    }
}

/// Blocks come out in order of their start.
pub proof fn law_blocks_in_start_order(evs: Seq<InferEvent>)
    ensures
        forall|i: int, j: int|
            0 <= i <= j < build_blocks_spec(evs).len() ==> build_blocks_spec(evs)[i].start
                <= build_blocks_spec(evs)[j].start,
{
    lemma_block_facts(evs);
}

/// Every block is at least `MIN_BLOCK` long, is flagged exactly when it is
/// longer than `MAX_BLOCK`, counts its own events, starts at its first
/// event, keeps a ticket only when its ticketed events agree on it, and a
/// calendar event always sits alone in a calendar block while no other
/// block holds a calendar event.
pub proof fn law_block_shape(evs: Seq<InferEvent>)
    ensures
        forall|i: int|
            0 <= i < build_blocks_spec(evs).len() ==> block_ok(#[trigger] build_blocks_spec(evs)[i]),
{
    lemma_block_facts(evs);
}

proof fn lemma_block_facts(evs: Seq<InferEvent>)
    ensures
        forall|i: int|
            0 <= i < build_blocks_spec(evs).len() ==> block_ok(#[trigger] build_blocks_spec(evs)[i]),
        forall|i: int, j: int|
            0 <= i <= j < build_blocks_spec(evs).len() ==> build_blocks_spec(evs)[i].start
                <= build_blocks_spec(evs)[j].start,
{
    let s = sort_by_ts(evs);
    lemma_sort_sorted(evs);
    lemma_run_ok(s);
    let st = run(s);
    let r = build_blocks_spec(evs);
    match st.1 {
        Some(c) => {
            match finalize_acc(c) {
                Some(f) => {
                    assert(r == st.0.push(f));
                    assert forall|i: int| 0 <= i < r.len() implies block_ok(#[trigger] r[i]) by {
                        if i < st.0.len() {
                            assert(r[i] == st.0[i]);
                        }
                    }
                    assert forall|i: int, j: int|
                        0 <= i <= j < r.len() implies r[i].start <= r[j].start by {
                        if j < st.0.len() {
                            assert(r[i] == st.0[i] && r[j] == st.0[j]);
                        } else if i < st.0.len() {
                            assert(r[i] == st.0[i]);
                        }
                    }
                },
                None => {
                },
            }
        },
        None => {
        },
    }
}

} // verus!
