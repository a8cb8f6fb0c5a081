//! Instants and spans as integer nanoseconds since the Unix epoch.
//!
//! The inference works on `i128` nanoseconds: exactly what a UTC
//! timestamp holds, with integer arithmetic Verus can reason about.
use vstd::prelude::*;

verus! {

pub const NANOS_PER_SEC: i128 = 1_000_000_000;

pub const NANOS_PER_MIN: i128 = 60_000_000_000;

/// The largest magnitude an instant may have (2^70 ns, about 37 000
/// years either side of 1970), so that adding any span the inference uses
/// stays representable.
pub const INSTANT_BOUND: i128 = 1_180_591_620_717_411_303_424;

pub open spec fn in_range(t: int) -> bool {
    -INSTANT_BOUND <= t <= INSTANT_BOUND
}

/// Division rounding toward zero, as `TimeDelta::num_seconds` and
/// `num_minutes` do.
pub open spec fn trunc_div(a: int, b: int) -> int {
    if a >= 0 {
        a / b
    } else {
        -((-a) / b)
    }
}

/// The minute an instant falls in (`timestamp().div_euclid(60)`).
pub open spec fn minute_spec(t: int) -> int {
    t / (NANOS_PER_MIN as int)
}

/// The minute an instant falls in, counted from the epoch, rounding down.
pub fn minute_of(t: i128) -> (m: i64)
    requires
        in_range(t as int),
    ensures
        m == minute_spec(t as int),
{
    if t >= 0 {
        let q = (t as u128) / 60_000_000_000u128;
        assert(q <= 19_676_527_011);
        q as i64
    } else {
        let a = (-t) as u128;
        let q = (a + 59_999_999_999u128) / 60_000_000_000u128;
        assert(q <= 19_676_527_012);
        assert(-(((-t) + 59_999_999_999) / 60_000_000_000) == t / 60_000_000_000) by (
        nonlinear_arith)
            requires
                t < 0,
        ;
        -(q as i64)
    }
}

/// Whole seconds in a span of `d` nanoseconds, rounding toward zero.
pub fn whole_seconds(d: i128) -> (s: i64)
    requires
        -2 * INSTANT_BOUND <= d <= 2 * INSTANT_BOUND,
    ensures
        s == trunc_div(d as int, NANOS_PER_SEC as int),
{
    if d >= 0 {
        let q = (d as u128) / 1_000_000_000u128;
        assert(q <= 2_361_183_241_435);
        q as i64
    } else {
        let q = ((-d) as u128) / 1_000_000_000u128;
        assert(q <= 2_361_183_241_435);
        -(q as i64)
    }
}

/// Whole minutes in a span of `d` nanoseconds, rounding toward zero.
pub fn whole_minutes(d: i128) -> (s: i64)
    requires
        -2 * INSTANT_BOUND <= d <= 2 * INSTANT_BOUND,
    ensures
        s == trunc_div(d as int, NANOS_PER_MIN as int),
{
    if d >= 0 {
        let q = (d as u128) / 60_000_000_000u128;
        assert(q <= 39_353_054_024);
        q as i64
    } else {
        let q = ((-d) as u128) / 60_000_000_000u128;
        assert(q <= 39_353_054_024);
        -(q as i64)
    }
}


/// What `chrono` writes for the UTC instant `secs` seconds and `nanos`
/// nanoseconds past the epoch with `to_rfc3339_opts(SecondsFormat::AutoSi,
/// false)`; `None` when `DateTime::from_timestamp` refuses the pair.
pub uninterp spec fn rfc3339_auto_si(secs: i64, nanos: u32) -> Option<Seq<char>>;

/// Calls `chrono::DateTime::from_timestamp(secs, nanos)` and formats the
/// instant with `to_rfc3339_opts(SecondsFormat::AutoSi, false)`: RFC 3339,
/// a fraction only when it is non-zero, the UTC offset written `+00:00`
/// (never `Z`). The text is named, a function of the two numbers alone;
/// of it the contract states only the offset suffix.
#[verifier::external_body]
fn format_rfc3339(secs: i64, nanos: u32) -> (r: Option<String>)
    ensures
        match r {
            Some(s) => rfc3339_auto_si(secs, nanos) == Some(s@) && crate::text::ends_with(
                s@,
                "+00:00"@,
            ),
            None => rfc3339_auto_si(secs, nanos) is None,
        },
{
    chrono::DateTime::from_timestamp(secs, nanos).map(
        |t| t.to_rfc3339_opts(chrono::SecondsFormat::AutoSi, false),
    )
}

/// Whether the whole seconds of instant `t` (rounded down) fit an `i64`.
pub open spec fn secs_fit(t: int) -> bool {
    i64::MIN <= t / (NANOS_PER_SEC as int) <= i64::MAX
}

/// A block boundary `t` (nanoseconds since the epoch) in the text form
/// blocks are stored under: RFC 3339 with a `+00:00` offset and a fraction
/// only when there is one. `None` when the instant is outside what a
/// timestamp can hold.
pub fn block_iso(t: i128) -> (r: Option<String>)
    ensures
        match r {
            Some(s) => secs_fit(t as int) && rfc3339_auto_si(
                (t as int / (NANOS_PER_SEC as int)) as i64,
                (t as int % (NANOS_PER_SEC as int)) as u32,
            ) == Some(s@) && crate::text::ends_with(s@, "+00:00"@),
            None => !secs_fit(t as int) || rfc3339_auto_si(
                (t as int / (NANOS_PER_SEC as int)) as i64,
                (t as int % (NANOS_PER_SEC as int)) as u32,
            ) is None,
        },
{
    let n: u128 = 1_000_000_000;
    if t >= 0 {
        let q = (t as u128) / n;
        let rem = (t as u128) % n;
        if q > 0x7fff_ffff_ffff_ffffu128 {
            return None;
        }
        format_rfc3339(q as i64, rem as u32)
    } else {
        let a = (-(t + 1)) as u128;
        let q = a / n;
        let rem = a % n;
        if q >= 0x8000_0000_0000_0000u128 {
            assert(t as int / (NANOS_PER_SEC as int) == -(q as int) - 1) by (nonlinear_arith)
                requires
                    a == -(t + 1),
                    q == a / 1_000_000_000,
                    rem == a % 1_000_000_000,
                    t < 0,
            ;
            return None;
        }
        assert(t as int / (NANOS_PER_SEC as int) == -(q as int) - 1 && t as int % (
        NANOS_PER_SEC as int) == 999_999_999 - rem) by (nonlinear_arith)
            requires
                a == -(t + 1),
                q == a / 1_000_000_000,
                rem == a % 1_000_000_000,
                t < 0,
        ;
        let secs: i64 = -(q as i64) - 1;
        let nanos: u32 = (999_999_999u128 - rem) as u32;
        format_rfc3339(secs, nanos)
    }
}

} // verus!
