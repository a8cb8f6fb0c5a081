//! Checking and saving a settings update.
//!
//! An update is checked field by field before anything is written: one
//! bad field among several good ones saves none of them. Once every field
//! has passed, the update becomes an ordered list of `KEY=value` writes to
//! the env file.
use vstd::prelude::*;

use crate::api::ApiError;
use crate::purge::cycle_day_ok;
use crate::text::{chars_of, concat, decimal, is_digit, str_eq, trim, trim_owned, u32_string};

verus! {

pub open spec fn cycle_day_msg(field: Seq<char>, shown: Seq<char>) -> Seq<char> {
    "`"@ + field + "` must be an integer 1..=31 (got "@ + shown + ")"@
}

/// A submitted cycle day: `value` is the submission read as an integer
/// (`None` when it is not one), `shown` the submission as it was written.
pub fn parse_cycle_day(field: &str, value: Option<i64>, shown: &str) -> (r: Result<u32, ApiError>)
    ensures
        match value {
            Some(n) if cycle_day_ok(n as int) => r == Ok::<u32, ApiError>(n as u32),
            _ => r matches Err(ApiError::BadRequest(m)) && m@ == cycle_day_msg(field@, shown@),
        },
{
    if let Some(n) = value {
        if 1 <= n && n <= 31 {
            return Ok(n as u32);
        }
    }
    let a = concat("`", field);
    let b = concat(a.as_str(), "` must be an integer 1..=31 (got ");
    let c = concat(b.as_str(), shown);
    Err(ApiError::BadRequest(concat(c.as_str(), ")")))
}

pub open spec fn cycle_order_msg(close: nat, start: nat) -> Seq<char> {
    "`close_day` ("@ + decimal(close) + ") must not be earlier than `cycle_start_day` ("@ + decimal(
        start,
    ) + ") — the grace period would collapse and the pruner would delete the just-closed cycle immediately"@
}

/// The start and close day in force after an update: the submitted ones,
/// else the configured ones. A close day before the start day is refused:
/// the grace period would collapse and the pruner would delete the
/// just-closed cycle at once.
pub fn check_cycle_days(
    start: Option<u32>,
    close: Option<u32>,
    configured_start: u32,
    configured_close: u32,
) -> (r: Result<(u32, u32), ApiError>)
    ensures
        ({
            let s = match start {
                Some(d) => d,
                None => configured_start,
            };
            let c = match close {
                Some(d) => d,
                None => configured_close,
            };
            &&& (c >= s) ==> r == Ok::<(u32, u32), ApiError>((s, c))
            &&& (c < s) ==> (r matches Err(ApiError::BadRequest(m)) && m@ == cycle_order_msg(
                c as nat,
                s as nat,
            ))
        }),
{
    let s = match start {
        Some(d) => d,
        None => configured_start,
    };
    let c = match close {
        Some(d) => d,
        None => configured_close,
    };
    if c < s {
        let a = concat("`close_day` (", u32_string(c).as_str());
        let b = concat(a.as_str(), ") must not be earlier than `cycle_start_day` (");
        let d = concat(b.as_str(), u32_string(s).as_str());
        let e = concat(
            d.as_str(),
            ") — the grace period would collapse and the pruner would delete the just-closed cycle immediately",
        );
        return Err(ApiError::BadRequest(e));
    }
    Ok((s, c))
}

/// The fields of a settings update that are saved to the env file, once
/// checked.
#[derive(Debug, Clone)]
pub struct EnvUpdate {
    pub timezone: Option<String>,
    pub prune_enabled: Option<bool>,
    pub cycle_start_day: Option<u32>,
    pub close_day: Option<u32>,
}

pub open spec fn bool_text(b: bool) -> Seq<char> {
    if b {
        "true"@
    } else {
        "false"@
    }
}

pub open spec fn opt_write(key: Seq<char>, v: Option<Seq<char>>) -> Seq<(Seq<char>, Seq<char>)> {
    match v {
        Some(x) => seq![(key, x)],
        None => Seq::empty(),
    }
}

/// The writes of an update with these fields, in order: the timezone
/// (trimmed), the pruner switch, the cycle start day, the close day; a
/// field left out is not written.
pub open spec fn writes_of(
    timezone: Option<Seq<char>>,
    prune_enabled: Option<bool>,
    cycle_start_day: Option<u32>,
    close_day: Option<u32>,
) -> Seq<(Seq<char>, Seq<char>)> {
    opt_write(
        "WORKLOG_TZ"@,
        match timezone {
            Some(t) => Some(trim(t)),
            None => None,
        },
    ) + opt_write(
        "WORKLOG_PRUNE_ENABLED"@,
        match prune_enabled {
            Some(b) => Some(bool_text(b)),
            None => None,
        },
    ) + opt_write(
        "WORKLOG_BILLING_CYCLE_START_DAY"@,
        match cycle_start_day {
            Some(d) => Some(decimal(d as nat)),
            None => None,
        },
    ) + opt_write(
        "WORKLOG_BILLING_CLOSE_DAY"@,
        match close_day {
            Some(d) => Some(decimal(d as nat)),
            None => None,
        },
    )
}

pub open spec fn tz_view(o: Option<String>) -> Option<Seq<char>> {
    match o {
        Some(t) => Some(t@),
        None => None,
    }
}

/// The writes an update makes.
pub open spec fn env_writes(u: EnvUpdate) -> Seq<(Seq<char>, Seq<char>)> {
    writes_of(tz_view(u.timezone), u.prune_enabled, u.cycle_start_day, u.close_day)
}

pub open spec fn pairs_view(v: Seq<(String, String)>) -> Seq<(Seq<char>, Seq<char>)> {
    v.map_values(|p: (String, String)| (p.0@, p.1@))
}

fn push_pair(out: &mut Vec<(String, String)>, key: &str, value: String)
    ensures
        pairs_view(final(out)@) == pairs_view(old(out)@).push((key@, value@)),
{
    out.push((key.to_owned(), value));
    assert(pairs_view(out@) =~= pairs_view(old(out)@).push((key@, value@)));
}

/// The env-file writes of a checked update, as `(key, value)` pairs.
pub fn plan_env_writes(u: &EnvUpdate) -> (r: Vec<(String, String)>)
    ensures
        pairs_view(r@) == env_writes(*u),
{
    let mut out: Vec<(String, String)> = Vec::new();
    let ghost e = Seq::<(Seq<char>, Seq<char>)>::empty();
    if let Some(t) = &u.timezone {
        push_pair(&mut out, "WORKLOG_TZ", trim_owned(t.as_str()));
    }
    let ghost w1 = pairs_view(out@);
    if let Some(b) = u.prune_enabled {
        push_pair(&mut out, "WORKLOG_PRUNE_ENABLED", if b { "true".to_owned() } else { "false".to_owned() });
        proof {
            reveal_strlit("true");
            reveal_strlit("false");
        }
    }
    let ghost w2 = pairs_view(out@);
    if let Some(d) = u.cycle_start_day {
        push_pair(&mut out, "WORKLOG_BILLING_CYCLE_START_DAY", u32_string(d));
    }
    let ghost w3 = pairs_view(out@);
    if let Some(d) = u.close_day {
        push_pair(&mut out, "WORKLOG_BILLING_CLOSE_DAY", u32_string(d));
    }
    proof {
        let tz = opt_write(
            "WORKLOG_TZ"@,
            match tz_view(u.timezone) {
                Some(t) => Some(trim(t)),
                None => None,
            },
        );
        let pr = opt_write(
            "WORKLOG_PRUNE_ENABLED"@,
            match u.prune_enabled {
                Some(b) => Some(bool_text(b)),
                None => None,
            },
        );
        let st = opt_write(
            "WORKLOG_BILLING_CYCLE_START_DAY"@,
            match u.cycle_start_day {
                Some(d) => Some(decimal(d as nat)),
                None => None,
            },
        );
        let cl = opt_write(
            "WORKLOG_BILLING_CLOSE_DAY"@,
            match u.close_day {
                Some(d) => Some(decimal(d as nat)),
                None => None,
            },
        );
        assert(w1 =~= e + tz);
        assert(w2 =~= w1 + pr);
        assert(w3 =~= w2 + st);
        assert(pairs_view(out@) =~= w3 + cl);
        assert(tz + pr + st + cl =~= env_writes(*u));
    }
    out
}

pub open spec fn digit_value(c: char) -> int {
    (c as u32) as int - 48
}

/// A fixed UTC offset: `UTC`, or a sign, two hour digits (under 24), a
/// colon and two minute digits (under 60).
pub open spec fn fixed_offset(t: Seq<char>) -> bool {
    ||| t == "UTC"@
    ||| {
        &&& t.len() == 6
        &&& (t[0] == '+' || t[0] == '-')
        &&& is_digit(t[1]) && is_digit(t[2]) && t[3] == ':' && is_digit(t[4]) && is_digit(t[5])
        &&& digit_value(t[1]) * 10 + digit_value(t[2]) < 24
        &&& digit_value(t[4]) * 10 + digit_value(t[5]) < 60
    }
}

/// Whether `t` is a fixed UTC offset.
pub fn is_fixed_offset(t: &str) -> (b: bool)
    ensures
        b == fixed_offset(t@),
{
    if str_eq(t, "UTC") {
        return true;
    }
    let v = chars_of(t);
    if v.len() != 6 {
        return false;
    }
    let d = |c: char| -> (r: bool)
        ensures
            r == is_digit(c),
        { '0' <= c && c <= '9' };
    if !((v[0] == '+' || v[0] == '-') && d(v[1]) && d(v[2]) && v[3] == ':' && d(v[4]) && d(v[5])) {
        return false;
    }
    let hh = (v[1] as u32 - 48) * 10 + (v[2] as u32 - 48);
    let mm = (v[4] as u32 - 48) * 10 + (v[5] as u32 - 48);
    hh < 24 && mm < 60
}

pub open spec fn tz_msg(t: Seq<char>) -> Seq<char> {
    "`"@ + t + "` is not a fixed offset — use +HH:MM, -HH:MM, or UTC (named zones like America/New_York are not supported)"@
}

/// A submitted cycle day: the submission read as an integer (`None` when
/// it is not one) and as it was written.
#[derive(Debug, Clone)]
pub struct DaySubmission {
    pub value: Option<i64>,
    pub shown: String,
}

pub open spec fn submitted_ok(d: Option<DaySubmission>) -> bool {
    match d {
        Some(x) => x.value matches Some(n) && cycle_day_ok(n as int),
        None => true,
    }
}

pub open spec fn submitted_day(d: Option<DaySubmission>) -> Option<u32> {
    match d {
        Some(x) => Some(x.value->0 as u32),
        None => None,
    }
}

/// Check a settings update and, when every field passes, list the
/// env-file writes it makes. Each cycle day is checked against its range
/// (start day first), then the close day against the start day in force;
/// the first failure is the answer and nothing is written: one bad field
/// among several good ones saves none of them.
pub fn plan_settings(
    timezone: Option<&str>,
    prune_enabled: Option<bool>,
    cycle_start_day: Option<DaySubmission>,
    close_day: Option<DaySubmission>,
    configured_start: u32,
    configured_close: u32,
) -> (r: Result<Vec<(String, String)>, ApiError>)
    ensures
        (timezone matches Some(t) && !fixed_offset(trim(t@))) ==> (r matches Err(ApiError::BadRequest(m))
            && m@ == tz_msg(trim(timezone->0@))),
        (timezone matches Some(t) ==> fixed_offset(trim(t@))) && !submitted_ok(cycle_start_day) ==> (r matches Err(ApiError::BadRequest(m)) && m@ == cycle_day_msg(
            "cycle_start_day"@,
            cycle_start_day->0.shown@,
        )),
        (timezone matches Some(t) ==> fixed_offset(trim(t@))) && submitted_ok(cycle_start_day) && !submitted_ok(close_day) ==> (r matches Err(ApiError::BadRequest(m))
            && m@ == cycle_day_msg("close_day"@, close_day->0.shown@)),
        (timezone matches Some(t) ==> fixed_offset(trim(t@))) && submitted_ok(cycle_start_day) && submitted_ok(close_day) ==> ({
            let s = match submitted_day(cycle_start_day) {
                Some(d) => d,
                None => configured_start,
            };
            let c = match submitted_day(close_day) {
                Some(d) => d,
                None => configured_close,
            };
            &&& c < s ==> (r matches Err(ApiError::BadRequest(m)) && m@ == cycle_order_msg(c as nat, s as nat))
            &&& c >= s ==> (r matches Ok(w) && pairs_view(w@) == writes_of(
                match timezone {
                    Some(t) => Some(t@),
                    None => None,
                },
                prune_enabled,
                submitted_day(cycle_start_day),
                submitted_day(close_day),
            ))
        }),
{
    if let Some(t) = timezone {
        let tt = trim_owned(t);
        if !is_fixed_offset(tt.as_str()) {
            let a = concat("`", tt.as_str());
            return Err(ApiError::BadRequest(concat(a.as_str(), "` is not a fixed offset — use +HH:MM, -HH:MM, or UTC (named zones like America/New_York are not supported)")));
        }
    }
    let start = match &cycle_start_day {
        Some(d) => match parse_cycle_day("cycle_start_day", d.value, d.shown.as_str()) {
            Ok(v) => Some(v),
            Err(e) => {
                return Err(e);
            },
        },
        None => None,
    };
    let close = match &close_day {
        Some(d) => match parse_cycle_day("close_day", d.value, d.shown.as_str()) {
            Ok(v) => Some(v),
            Err(e) => {
                return Err(e);
            },
        },
        None => None,
    };
    match check_cycle_days(start, close, configured_start, configured_close) {
        Ok(_) => {},
        Err(e) => {
            return Err(e);
        },
    }
    let u = EnvUpdate {
        timezone: match timezone {
            Some(t) => Some(t.to_owned()),
            None => None,
        },
        prune_enabled,
        cycle_start_day: start,
        close_day: close,
    };
    Ok(plan_env_writes(&u))
}

} // verus!
