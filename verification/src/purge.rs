//! Retention: billing-cycle-aligned, rail-free deletion.
//!
//! The owner bills in cycles that run from `cycle_start_day` (default the
//! 20th) through the day before it in the following month. Once a cycle's
//! submission window has shut (default the 23rd) nothing can add hours to
//! it, so its rows have no value. `cutoff_for_cycle` derives that
//! boundary; `purge_plan` picks every row strictly older than it: blocks
//! (and their links), orphaned events, sessions, and manually picked
//! tickets no surviving block references any more.
//!
//! Deliberately rail-free: sync state, export state, edit provenance, the
//! pending-edit flag and personal classification make no difference to
//! what is deleted. `blocks_deleted_unbilled` only makes the loss of
//! never-billed work visible.
use vstd::prelude::*;

use crate::order::{lex_lt, str_lt};
use crate::text::{chars_of, str_eq, trim};

use chrono::Datelike;

verus! {

/// Default rolling window for the `--days` override.
pub const DEFAULT_RETENTION_DAYS: i64 = 30;

/// Billing cycles start on this day of the month by default.
pub const DEFAULT_CYCLE_START_DAY: u32 = 20;

/// Hours can still be submitted against the just-closed cycle until this
/// day of the month, by default.
pub const DEFAULT_CLOSE_DAY: u32 = 23;

/// A day-of-month a cycle setting may take.
pub open spec fn cycle_day_ok(n: int) -> bool {
    1 <= n <= 31
}

/// Whether `d` is a day-of-month a cycle setting may take.
pub fn is_valid_cycle_day(d: u32) -> (b: bool)
    ensures
        b == cycle_day_ok(d as int),
{
    1 <= d && d <= 31
}

/// A calendar date (proleptic Gregorian).
#[derive(Debug, Clone, Copy, PartialEq, Eq, Structural)]
pub struct Ymd {
    pub year: i32,
    pub month: u32,
    pub day: u32,
}

pub open spec fn leap(y: int) -> bool {
    (y % 4 == 0 && y % 100 != 0) || y % 400 == 0
}

/// The number of days in `year`-`month`.
pub open spec fn dim(y: int, m: int) -> int {
    if m == 2 {
        if leap(y) {
            29
        } else {
            28
        }
    } else if m == 4 || m == 6 || m == 9 || m == 11 {
        30
    } else {
        31
    }
}

/// The years a date can have (those `chrono::NaiveDate` represents).
pub open spec fn year_ok(y: int) -> bool {
    -262143 <= y <= 262142
}

/// A month whose following month is still representable.
pub open spec fn month_ok(y: int, m: int) -> bool {
    year_ok(y) && 1 <= m <= 12 && !(y == 262142 && m == 12)
}

pub open spec fn valid(d: Ymd) -> bool {
    year_ok(d.year as int) && 1 <= d.month <= 12 && 1 <= d.day <= dim(d.year as int, d.month as int)
}

/// `a` is on or before `b`.
pub open spec fn date_le(a: Ymd, b: Ymd) -> bool {
    a.year < b.year || (a.year == b.year && (a.month < b.month || (a.month == b.month && a.day
        <= b.day)))
}

/// The number of days in `year`-`month`.
pub fn days_in_month(year: i32, month: u32) -> (r: u32)
    requires
        month_ok(year as int, month as int),
    ensures
        r == dim(year as int, month as int),
{
    if month == 2 {
        if (year % 4 == 0 && year % 100 != 0) || year % 400 == 0 {
            29
        } else {
            28
        }
    } else if month == 4 || month == 6 || month == 9 || month == 11 {
        30
    } else {
        31
    }
}

/// `cycle_start_day` clamped to the length of `year`-`month`, so a value
/// like 31 is legal even in a shorter month.
pub open spec fn eff_start(y: int, m: int, c: int) -> int {
    if c < dim(y, m) {
        c
    } else {
        dim(y, m)
    }
}

/// `cycle_start_day` clamped to the length of `year`-`month`.
pub fn effective_start_day(year: i32, month: u32, cycle_start_day: u32) -> (r: u32)
    requires
        month_ok(year as int, month as int),
    ensures
        r == eff_start(year as int, month as int, cycle_start_day as int),
{
    let d = days_in_month(year, month);
    if cycle_start_day < d {
        cycle_start_day
    } else {
        d
    }
}

/// The most recent cycle start on or before `d`.
pub open spec fn cycle_start_spec(d: Ymd, c: int) -> Ymd {
    let e = eff_start(d.year as int, d.month as int, c);
    if d.day >= e {
        Ymd { year: d.year, month: d.month, day: e as u32 }
    } else {
        let py = if d.month == 1 {
            d.year - 1
        } else {
            d.year as int
        };
        let pm = if d.month == 1 {
            12
        } else {
            d.month - 1
        };
        Ymd { year: py as i32, month: pm as u32, day: eff_start(py, pm, c) as u32 }
    }
}

/// The dates `cycle_start_on_or_before` accepts: valid, not in the last
/// representable month, and (for a January date) with a representable
/// previous month.
pub open spec fn cycle_date_ok(d: Ymd) -> bool {
    &&& valid(d)
    &&& month_ok(d.year as int, d.month as int)
    &&& d.month == 1 ==> year_ok(d.year - 1)
}

/// The most recent cycle start day on or before `d`.
pub fn cycle_start_on_or_before(d: Ymd, cycle_start_day: u32) -> (r: Ymd)
    requires
        cycle_date_ok(d),
        cycle_start_day >= 1,
    ensures
        r == cycle_start_spec(d, cycle_start_day as int),
{
    let eff = effective_start_day(d.year, d.month, cycle_start_day);
    if d.day >= eff {
        Ymd { year: d.year, month: d.month, day: eff }
    } else {
        let (py, pm) = if d.month == 1 {
            (d.year - 1, 12u32)
        } else {
            (d.year, d.month - 1)
        };
        let peff = effective_start_day(py, pm, cycle_start_day);
        Ymd { year: py, month: pm, day: peff }
    }
}

/// The cycle start found for `d` is a valid date on or before `d` that
/// falls on its month's (clamped) start day, and it is the latest such
/// day: it lies in `d`'s month when that month's start has come, else in
/// the month before.
pub proof fn law_cycle_start_is_latest(d: Ymd, c: int)
    requires
        cycle_date_ok(d),
        c >= 1,
    ensures
        valid(cycle_start_spec(d, c)),
        date_le(cycle_start_spec(d, c), d),
        cycle_start_spec(d, c).day == eff_start(
            cycle_start_spec(d, c).year as int,
            cycle_start_spec(d, c).month as int,
            c,
        ),
        d.day >= eff_start(d.year as int, d.month as int, c) ==> cycle_start_spec(d, c).year
            == d.year && cycle_start_spec(d, c).month == d.month,
        d.day < eff_start(d.year as int, d.month as int, c) ==> (if d.month == 1 {
            cycle_start_spec(d, c).year == d.year - 1 && cycle_start_spec(d, c).month == 12
        } else {
            cycle_start_spec(d, c).year == d.year && cycle_start_spec(d, c).month == d.month - 1
        }),
{
}

/// What `NaiveDate - Duration::days(n)` gives for `y`-`m`-`d`, as a
/// `(year, month, day)`; `None` when the result is not representable.
pub uninterp spec fn date_minus_days(y: int, m: int, d: int, n: int) -> Option<(int, int, int)>;

/// Calls `chrono::NaiveDate::checked_sub_days` on a valid date. The
/// contract names the result and states what the chrono documentation
/// gives of every `NaiveDate`: the date is valid and representable, and
/// subtracting a non-negative number of days never moves forward.
#[verifier::external_body]
fn minus_days(d: Ymd, n: u32) -> (r: Option<Ymd>)
    requires
        valid(d),
    ensures
        match date_minus_days(d.year as int, d.month as int, d.day as int, n as int) {
            Some(t) => r == Some(Ymd { year: t.0 as i32, month: t.1 as u32, day: t.2 as u32 }),
            None => r is None,
        },
        r matches Some(a) ==> valid(a) && date_le(a, d),
{
    let date = chrono::NaiveDate::from_ymd_opt(d.year, d.month, d.day)?;
    let a = date.checked_sub_days(chrono::Days::new(n as u64))?;
    Some(Ymd { year: a.year(), month: a.month(), day: a.day() })
}

/// The billing-cycle cutoff: the earliest day whose data survives.
/// `grace = close_day - cycle_start_day + 1` (4 with the defaults, and at
/// least 1); everything older than the cycle start on or before
/// `today - grace` days is fair game. `None` when that cycle start would
/// lie before the first representable date.
pub fn cutoff_for_cycle(today: Ymd, cycle_start_day: u32, close_day: u32) -> (r: Option<Ymd>)
    requires
        valid(today),
        !(today.year == 262142 && today.month == 12),
        cycle_start_day >= 1,
    ensures
        match date_minus_days(
            today.year as int,
            today.month as int,
            today.day as int,
            (if close_day >= cycle_start_day {
                close_day - cycle_start_day
            } else {
                0
            }) + 1,
        ) {
            Some(t) => {
                let a = Ymd { year: t.0 as i32, month: t.1 as u32, day: t.2 as u32 };
                if cycle_date_ok(a) {
                    r == Some(cycle_start_spec(a, cycle_start_day as int))
                } else {
                    r is None
                }
            },
            None => r is None,
        },
{
    let grace = close_day.saturating_sub(cycle_start_day) + 1;
    match minus_days(today, grace) {
        Some(anchor) => {
            if anchor.month == 1 && anchor.year == -262143 {
                return None;
            }
            Some(cycle_start_on_or_before(anchor, cycle_start_day))
        },
        None => None,
    }
}

/// A plain rolling-window cutoff, `days` before `today`; `None` when not
/// representable.
pub fn cutoff_for_days(today: Ymd, days: u32) -> (r: Option<Ymd>)
    requires
        valid(today),
    ensures
        match date_minus_days(today.year as int, today.month as int, today.day as int, days as int) {
            Some(t) => r == Some(Ymd { year: t.0 as i32, month: t.1 as u32, day: t.2 as u32 }),
            None => r is None,
        },
{
    minus_days(today, days)
}


// ───────────────────────── what a purge deletes ─────────────────────────

/// What the purge did (or would do, when `dry_run`).
#[derive(Debug, Clone, Default)]
pub struct PurgeReport {
    /// `YYYY-MM-DD`: anything before this is fair game.
    pub cutoff_date: String,
    pub blocks_deleted: i64,
    /// Deleted blocks that carried neither a Tempo id nor an export
    /// marker: work nobody will be paid for. Still deleted; only counted.
    pub blocks_deleted_unbilled: i64,
    pub events_deleted: i64,
    pub sessions_deleted: i64,
    /// Manually picked ticket cache entries no surviving block references.
    pub tickets_deleted: i64,
    pub bytes_freed: i64,
    pub snapshot_path: Option<String>,
    /// Nothing was written to the database.
    pub dry_run: bool,
}

/// A stored block, as far as the purge reads it.
#[derive(Debug, Clone)]
pub struct PurgeBlock {
    pub id: i64,
    /// Local `YYYY-MM-DD`.
    pub day: String,
    pub tempo_worklog_id: Option<String>,
    pub exported_at: Option<String>,
    pub jira_issue: Option<String>,
}

/// A stored event or session: its id and whether it started strictly
/// before the cutoff's instant (local midnight in UTC).
#[derive(Debug, Clone, Copy)]
pub struct PurgeRow {
    pub id: i64,
    pub before_cutoff: bool,
}

/// A cached ticket: manually picked ones are `external`.
#[derive(Debug, Clone)]
pub struct PurgeTicket {
    pub key: String,
    pub external: bool,
}

/// The rows a purge deletes.
#[derive(Debug, Clone)]
pub struct PurgePlan {
    pub blocks: Vec<i64>,
    pub unbilled: i64,
    pub events: Vec<i64>,
    pub sessions: Vec<i64>,
    pub tickets: Vec<String>,
}

/// A block of a day before the cutoff goes, whatever else it carries.
pub open spec fn doomed(b: PurgeBlock, cutoff: Seq<char>) -> bool {
    lex_lt(b.day@, cutoff)
}

pub open spec fn blank(o: Option<String>) -> bool {
    match o {
        Some(s) => s@.len() == 0,
        None => true,
    }
}

/// A block survives and has id `id`.
pub open spec fn surviving_id(blocks: Seq<PurgeBlock>, cutoff: Seq<char>, id: i64) -> bool {
    exists|i: int| 0 <= i < blocks.len() && #[trigger] blocks[i].id == id && !doomed(blocks[i], cutoff)
}

/// Event `e` is linked to a surviving block.
pub open spec fn kept_by_link(blocks: Seq<PurgeBlock>, links: Seq<(i64, i64)>, cutoff: Seq<char>, e: i64) -> bool {
    exists|j: int| 0 <= j < links.len() && (#[trigger] links[j]).1 == e && surviving_id(blocks, cutoff, links[j].0)
}

/// A surviving block references ticket `key`.
pub open spec fn referenced(blocks: Seq<PurgeBlock>, cutoff: Seq<char>, key: Seq<char>) -> bool {
    exists|i: int| 0 <= i < blocks.len() && !doomed(#[trigger] blocks[i], cutoff) && (match blocks[i].jira_issue {
        Some(k) => k@ == key,
        None => false,
    })
}

pub open spec fn doomed_ids(blocks: Seq<PurgeBlock>, cutoff: Seq<char>) -> Seq<i64> {
    blocks.filter(|b: PurgeBlock| doomed(b, cutoff)).map_values(|b: PurgeBlock| b.id)
}

pub open spec fn unbilled_count(blocks: Seq<PurgeBlock>, cutoff: Seq<char>) -> int {
    blocks.filter(|b: PurgeBlock| doomed(b, cutoff) && blank(b.tempo_worklog_id) && blank(b.exported_at)).len() as int
}

pub open spec fn doomed_events(blocks: Seq<PurgeBlock>, links: Seq<(i64, i64)>, events: Seq<PurgeRow>, cutoff: Seq<char>) -> Seq<i64> {
    events.filter(|e: PurgeRow| e.before_cutoff && !kept_by_link(blocks, links, cutoff, e.id)).map_values(|e: PurgeRow| e.id)
}

pub open spec fn doomed_sessions(sessions: Seq<PurgeRow>) -> Seq<i64> {
    sessions.filter(|e: PurgeRow| e.before_cutoff).map_values(|e: PurgeRow| e.id)
}

pub open spec fn doomed_tickets(blocks: Seq<PurgeBlock>, tickets: Seq<PurgeTicket>, cutoff: Seq<char>) -> Seq<Seq<char>> {
    tickets.filter(|t: PurgeTicket| t.external && !referenced(blocks, cutoff, t.key@)).map_values(|t: PurgeTicket| t.key@)
}

fn is_blank(o: &Option<String>) -> (r: bool)
    ensures
        r == blank(*o),
{
    match o {
        Some(s) => s.as_str().is_empty(),
        None => true,
    }
}

fn block_doomed(b: &PurgeBlock, cutoff: &Vec<char>) -> (r: bool)
    ensures
        r == doomed(*b, cutoff@),
{
    let d = chars_of(b.day.as_str());
    str_lt(&d, cutoff)
}

/// Whether some surviving block has id `id`.
fn survives(blocks: &Vec<PurgeBlock>, cutoff: &Vec<char>, id: i64) -> (r: bool)
    ensures
        r == surviving_id(blocks@, cutoff@, id),
{
    let mut i: usize = 0;
    while i < blocks.len()
        invariant
            i <= blocks@.len(),
            forall|x: int| 0 <= x < i ==> !(#[trigger] blocks@[x].id == id && !doomed(blocks@[x], cutoff@)),
        decreases blocks@.len() - i,
    {
        if blocks[i].id == id && !block_doomed(&blocks[i], cutoff) {
            return true;
        }
        i = i + 1;
    }
    false
}

/// Pick every row a purge at `cutoff` (`YYYY-MM-DD`) deletes: blocks of
/// earlier days, events before the cutoff no surviving block links,
/// sessions before the cutoff, and manually picked tickets no surviving
/// block references. The same plan serves a dry run and a real one.
#[verifier::loop_isolation(false)]
pub fn purge_plan(
    blocks: &Vec<PurgeBlock>,
    links: &Vec<(i64, i64)>,
    events: &Vec<PurgeRow>,
    sessions: &Vec<PurgeRow>,
    tickets: &Vec<PurgeTicket>,
    cutoff: &str,
) -> (p: PurgePlan)
    requires
        blocks@.len() < i64::MAX,
    ensures
        p.blocks@ == doomed_ids(blocks@, cutoff@),
        p.unbilled == unbilled_count(blocks@, cutoff@),
        p.events@ == doomed_events(blocks@, links@, events@, cutoff@),
        p.sessions@ == doomed_sessions(sessions@),
        p.tickets@.map_values(|k: String| k@) == doomed_tickets(blocks@, tickets@, cutoff@),
{
    let c = chars_of(cutoff);
    let mut ids: Vec<i64> = Vec::new();
    let mut unbilled: i64 = 0;
    let mut i: usize = 0;
    assert(blocks@.take(0) =~= Seq::<PurgeBlock>::empty());
    while i < blocks.len()
        invariant
            i <= blocks@.len(),
            blocks@.len() < i64::MAX,
            c@ == cutoff@,
            ids@ == doomed_ids(blocks@.take(i as int), cutoff@),
            unbilled == unbilled_count(blocks@.take(i as int), cutoff@),
            unbilled <= i,
        decreases blocks@.len() - i,
    {
        let b = &blocks[i];
        assert(blocks@.take(i + 1) =~= blocks@.take(i as int).push(blocks@[i as int]));
        let doom = block_doomed(b, &c);
        proof {
            blocks@.take(i as int).lemma_filter_push(blocks@[i as int], |b: PurgeBlock| doomed(b, cutoff@));
            blocks@.take(i as int).lemma_filter_push(
                blocks@[i as int],
                |b: PurgeBlock| doomed(b, cutoff@) && blank(b.tempo_worklog_id) && blank(b.exported_at),
            );
        }
        if doom {
            ids.push(b.id);
            if is_blank(&b.tempo_worklog_id) && is_blank(&b.exported_at) {
                unbilled = unbilled + 1;
            }
        }
        assert(ids@ =~= doomed_ids(blocks@.take(i + 1), cutoff@));
        i = i + 1;
    }
    assert(blocks@.take(blocks@.len() as int) =~= blocks@);
    let mut evs: Vec<i64> = Vec::new();
    let mut j: usize = 0;
    assert(events@.take(0) =~= Seq::<PurgeRow>::empty());
    while j < events.len()
        invariant
            j <= events@.len(),
            c@ == cutoff@,
            evs@ == doomed_events(blocks@, links@, events@.take(j as int), cutoff@),
        decreases events@.len() - j,
    {
        let e = events[j];
        assert(events@.take(j + 1) =~= events@.take(j as int).push(e));
        proof {
            events@.take(j as int).lemma_filter_push(
                e,
                |e: PurgeRow| e.before_cutoff && !kept_by_link(blocks@, links@, cutoff@, e.id),
            );
        }
        if e.before_cutoff {
            let mut linked = false;
            let mut k: usize = 0;
            while k < links.len()
                invariant
                    k <= links@.len(),
                    c@ == cutoff@,
                    linked == exists|x: int| 0 <= x < k && (#[trigger] links@[x]).1 == e.id && surviving_id(blocks@, cutoff@, links@[x].0),
                decreases links@.len() - k,
            {
                if links[k].1 == e.id && survives(blocks, &c, links[k].0) {
                    linked = true;
                }
                k = k + 1;
            }
            if !linked {
                evs.push(e.id);
            }
        }
        assert(evs@ =~= doomed_events(blocks@, links@, events@.take(j + 1), cutoff@));
        j = j + 1;
    }
    assert(events@.take(events@.len() as int) =~= events@);
    let mut ses: Vec<i64> = Vec::new();
    let mut j: usize = 0;
    assert(sessions@.take(0) =~= Seq::<PurgeRow>::empty());
    while j < sessions.len()
        invariant
            j <= sessions@.len(),
            ses@ == doomed_sessions(sessions@.take(j as int)),
        decreases sessions@.len() - j,
    {
        let e = sessions[j];
        assert(sessions@.take(j + 1) =~= sessions@.take(j as int).push(e));
        proof {
            sessions@.take(j as int).lemma_filter_push(e, |e: PurgeRow| e.before_cutoff);
        }
        if e.before_cutoff {
            ses.push(e.id);
        }
        assert(ses@ =~= doomed_sessions(sessions@.take(j + 1)));
        j = j + 1;
    }
    assert(sessions@.take(sessions@.len() as int) =~= sessions@);
    let mut tks: Vec<String> = Vec::new();
    let mut j: usize = 0;
    assert(tickets@.take(0) =~= Seq::<PurgeTicket>::empty());
    while j < tickets.len()
        invariant
            j <= tickets@.len(),
            c@ == cutoff@,
            tks@.map_values(|k: String| k@) == doomed_tickets(blocks@, tickets@.take(j as int), cutoff@),
        decreases tickets@.len() - j,
    {
        let t = &tickets[j];
        assert(tickets@.take(j + 1) =~= tickets@.take(j as int).push(tickets@[j as int]));
        proof {
            tickets@.take(j as int).lemma_filter_push(
                tickets@[j as int],
                |t: PurgeTicket| t.external && !referenced(blocks@, cutoff@, t.key@),
            );
        }
        let ghost before = tks@;
        if t.external {
            let mut refd = false;
            let mut k: usize = 0;
            while k < blocks.len()
                invariant
                    k <= blocks@.len(),
                    c@ == cutoff@,
                    refd == exists|x: int| 0 <= x < k && !doomed(#[trigger] blocks@[x], cutoff@) && (match blocks@[x].jira_issue {
                        Some(kk) => kk@ == t.key@,
                        None => false,
                    }),
                decreases blocks@.len() - k,
            {
                let hit = match &blocks[k].jira_issue {
                    Some(kk) => str_eq(kk.as_str(), t.key.as_str()),
                    None => false,
                };
                if hit && !block_doomed(&blocks[k], &c) {
                    refd = true;
                }
                k = k + 1;
            }
            if !refd {
                tks.push(t.key.clone());
                assert(tks@.map_values(|k: String| k@) =~= before.map_values(|k: String| k@).push(t.key@));
            }
        }
        assert(tks@.map_values(|k: String| k@) =~= doomed_tickets(blocks@, tickets@.take(j + 1), cutoff@));
        j = j + 1;
    }
    assert(tickets@.take(tickets@.len() as int) =~= tickets@);
    PurgePlan { blocks: ids, unbilled, events: evs, sessions: ses, tickets: tks }
}

/// The report of a purge that deletes `plan` at `cutoff`.
pub fn purge_report(plan: &PurgePlan, cutoff: &str, dry_run: bool) -> (r: PurgeReport)
    requires
        plan.blocks@.len() <= i64::MAX,
        plan.events@.len() <= i64::MAX,
        plan.sessions@.len() <= i64::MAX,
        plan.tickets@.len() <= i64::MAX,
    ensures
        r.cutoff_date@ == cutoff@,
        r.blocks_deleted == plan.blocks@.len(),
        r.blocks_deleted_unbilled == plan.unbilled,
        r.events_deleted == plan.events@.len(),
        r.sessions_deleted == plan.sessions@.len(),
        r.tickets_deleted == plan.tickets@.len(),
        r.bytes_freed == 0,
        r.snapshot_path is None,
        r.dry_run == dry_run,
{
    PurgeReport {
        cutoff_date: cutoff.to_owned(),
        blocks_deleted: plan.blocks.len() as i64,
        blocks_deleted_unbilled: plan.unbilled,
        events_deleted: plan.events.len() as i64,
        sessions_deleted: plan.sessions.len() as i64,
        tickets_deleted: plan.tickets.len() as i64,
        bytes_freed: 0,
        snapshot_path: None,
        dry_run,
    }
}


/// What a purge at `cutoff` reports and what it deletes. The report is
/// the same for a dry run and a real one; a dry run deletes nothing.
pub fn purge_run(
    blocks: &Vec<PurgeBlock>,
    links: &Vec<(i64, i64)>,
    events: &Vec<PurgeRow>,
    sessions: &Vec<PurgeRow>,
    tickets: &Vec<PurgeTicket>,
    cutoff: &str,
    dry_run: bool,
) -> (r: (PurgeReport, PurgePlan))
    requires
        blocks@.len() < i64::MAX,
        events@.len() <= i64::MAX,
        sessions@.len() <= i64::MAX,
        tickets@.len() <= i64::MAX,
    ensures
        r.0.cutoff_date@ == cutoff@,
        r.0.dry_run == dry_run,
        r.0.blocks_deleted == doomed_ids(blocks@, cutoff@).len(),
        r.0.blocks_deleted_unbilled == unbilled_count(blocks@, cutoff@),
        r.0.events_deleted == doomed_events(blocks@, links@, events@, cutoff@).len(),
        r.0.sessions_deleted == doomed_sessions(sessions@).len(),
        r.0.tickets_deleted == doomed_tickets(blocks@, tickets@, cutoff@).len(),
        r.0.bytes_freed == 0,
        r.0.snapshot_path is None,
        dry_run ==> r.1.blocks@.len() == 0 && r.1.events@.len() == 0 && r.1.sessions@.len() == 0
            && r.1.tickets@.len() == 0 && r.1.unbilled == 0,
        !dry_run ==> r.1.blocks@ == doomed_ids(blocks@, cutoff@) && r.1.unbilled == unbilled_count(blocks@, cutoff@)
            && r.1.events@ == doomed_events(blocks@, links@, events@, cutoff@)
            && r.1.sessions@ == doomed_sessions(sessions@)
            && r.1.tickets@.map_values(|k: String| k@) == doomed_tickets(blocks@, tickets@, cutoff@),
{
    let plan = purge_plan(blocks, links, events, sessions, tickets, cutoff);
    proof {
        blocks@.lemma_filter_len(|b: PurgeBlock| doomed(b, cutoff@));
        events@.lemma_filter_len(|e: PurgeRow| e.before_cutoff && !kept_by_link(blocks@, links@, cutoff@, e.id));
        sessions@.lemma_filter_len(|e: PurgeRow| e.before_cutoff);
        tickets@.lemma_filter_len(|t: PurgeTicket| t.external && !referenced(blocks@, cutoff@, t.key@));
        assert(plan.tickets@.len() == plan.tickets@.map_values(|k: String| k@).len());
    }
    let report = purge_report(&plan, cutoff, dry_run);
    if dry_run {
        (report, PurgePlan { blocks: Vec::new(), unbilled: 0, events: Vec::new(), sessions: Vec::new(), tickets: Vec::new() })
    } else {
        (report, plan)
    }
}

/// Rail-free: which blocks a purge deletes depends on their days alone.
/// Two block lists that agree on ids and days lose the same blocks,
/// whatever their sync, export or ticket state.
pub proof fn law_purge_is_rail_free(b1: Seq<PurgeBlock>, b2: Seq<PurgeBlock>, cutoff: Seq<char>)
    requires
        b1.len() == b2.len(),
        forall|i: int| 0 <= i < b1.len() ==> (#[trigger] b1[i]).id == b2[i].id && b1[i].day@ == b2[i].day@,
    ensures
        doomed_ids(b1, cutoff) == doomed_ids(b2, cutoff),
    decreases b1.len(),
{
    if b1.len() > 0 {
        let p1 = b1.drop_last();
        let p2 = b2.drop_last();
        assert forall|i: int| 0 <= i < p1.len() implies (#[trigger] p1[i]).id == p2[i].id && p1[i].day@ == p2[i].day@ by {
            assert(p1[i] == b1[i] && p2[i] == b2[i]);
        }
        law_purge_is_rail_free(p1, p2, cutoff);
        assert(b1 =~= p1.push(b1.last()));
        assert(b2 =~= p2.push(b2.last()));
        p1.lemma_filter_push(b1.last(), |b: PurgeBlock| doomed(b, cutoff));
        p2.lemma_filter_push(b2.last(), |b: PurgeBlock| doomed(b, cutoff));
        let l1 = b1[b1.len() - 1];
        let l2 = b2[b2.len() - 1];
        assert(l1.id == l2.id && l1.day@ == l2.day@);
        assert(doomed(l1, cutoff) == doomed(l2, cutoff));
        let f1 = p1.filter(|b: PurgeBlock| doomed(b, cutoff));
        let f2 = p2.filter(|b: PurgeBlock| doomed(b, cutoff));
        if doomed(l1, cutoff) {
            assert(doomed_ids(b1, cutoff) =~= f1.map_values(|b: PurgeBlock| b.id).push(l1.id));
            assert(doomed_ids(b2, cutoff) =~= f2.map_values(|b: PurgeBlock| b.id).push(l2.id));
        } else {
            assert(doomed_ids(b1, cutoff) =~= f1.map_values(|b: PurgeBlock| b.id));
            assert(doomed_ids(b2, cutoff) =~= f2.map_values(|b: PurgeBlock| b.id));
        }
    } else {
        assert(b1.filter(|b: PurgeBlock| doomed(b, cutoff)) =~= Seq::<PurgeBlock>::empty());
        assert(b2.filter(|b: PurgeBlock| doomed(b, cutoff)) =~= Seq::<PurgeBlock>::empty());
    }
}

/// Never-billed blocks are a subset of the deleted ones.
pub proof fn law_unbilled_within_deleted(blocks: Seq<PurgeBlock>, cutoff: Seq<char>)
    ensures
        0 <= unbilled_count(blocks, cutoff) <= doomed_ids(blocks, cutoff).len(),
    decreases blocks.len(),
{
    if blocks.len() > 0 {
        let p = blocks.drop_last();
        law_unbilled_within_deleted(p, cutoff);
        assert(blocks =~= p.push(blocks.last()));
        p.lemma_filter_push(blocks.last(), |b: PurgeBlock| doomed(b, cutoff));
        p.lemma_filter_push(
            blocks.last(),
            |b: PurgeBlock| doomed(b, cutoff) && blank(b.tempo_worklog_id) && blank(b.exported_at),
        );
    } else {
        assert(blocks.filter(|b: PurgeBlock| doomed(b, cutoff)) =~= Seq::<PurgeBlock>::empty());
        assert(blocks.filter(|b: PurgeBlock| doomed(b, cutoff) && blank(b.tempo_worklog_id) && blank(b.exported_at)) =~= Seq::<PurgeBlock>::empty());
    }
}

} // verus!
