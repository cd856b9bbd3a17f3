//! Instants and calendar days as plain integers.
//!
//! An instant is a count of nanoseconds since 1970-01-01T00:00:00 UTC; a day is
//! chrono's day number, counted from 0001-01-01 (day 1) of the proleptic
//! Gregorian calendar. Reading text into these values is chrono's work.

use vstd::prelude::*;

use chrono::Datelike;

use crate::error::KernelError;

verus! {

pub const NANOS_PER_SECOND: i128 = 1_000_000_000;

pub const NANOS_PER_MINUTE: i128 = 60_000_000_000;

pub const NANOS_PER_HOUR: i128 = 3_600_000_000_000;

pub const NANOS_PER_DAY: i128 = 86_400_000_000_000;

/// Day number of 1970-01-01.
pub const UNIX_EPOCH_DAY: i64 = 719_163;

/// What chrono's `DateTime::parse_from_rfc3339` reads from `s`, as seconds and
/// sub-second nanoseconds since the Unix epoch.
pub uninterp spec fn spec_parse_rfc3339(s: Seq<char>) -> Option<(i64, u32)>;

/// What chrono's `NaiveDateTime::parse_from_str` reads from `s` with format `fmt`,
/// taken as UTC, as seconds and sub-second nanoseconds since the Unix epoch.
pub uninterp spec fn spec_parse_naive_datetime(s: Seq<char>, fmt: Seq<char>) -> Option<(i64, u32)>;

/// What chrono's `NaiveDate::parse_from_str` reads from `s` with format `fmt`, as a day number.
pub uninterp spec fn spec_parse_naive_date(s: Seq<char>, fmt: Seq<char>) -> Option<i32>;

/// chrono's `DateTime::parse_from_rfc3339`; the result is the instant's
/// `timestamp()` and `timestamp_subsec_nanos()`, or `None` when chrono reports
/// an error. Which texts chrono accepts is left to its name.
#[verifier::external_body]
fn parse_rfc3339(s: &str) -> (res: Option<(i64, u32)>)
    ensures
        res == spec_parse_rfc3339(s@),
{
    match chrono::DateTime::parse_from_rfc3339(s) {
        Ok(dt) => Some((dt.timestamp(), dt.timestamp_subsec_nanos())),
        Err(_) => None,
    }
}

/// chrono's `NaiveDateTime::parse_from_str`; the result is the parsed value's
/// `and_utc()` timestamp and sub-second nanoseconds, or `None` when chrono
/// reports an error.
#[verifier::external_body]
fn parse_naive_datetime(s: &str, fmt: &str) -> (res: Option<(i64, u32)>)
    ensures
        res == spec_parse_naive_datetime(s@, fmt@),
{
    match chrono::NaiveDateTime::parse_from_str(s, fmt) {
        Ok(ndt) => Some((ndt.and_utc().timestamp(), ndt.and_utc().timestamp_subsec_nanos())),
        Err(_) => None,
    }
}

/// chrono's `NaiveDate::parse_from_str`; the result is the date's
/// `num_days_from_ce()`, or `None` when chrono reports an error.
#[verifier::external_body]
pub(crate) fn parse_naive_date(s: &str, fmt: &str) -> (res: Option<i32>)
    ensures
        res == spec_parse_naive_date(s@, fmt@),
{
    match chrono::NaiveDate::parse_from_str(s, fmt) {
        Ok(d) => Some(d.num_days_from_ce()),
        Err(_) => None,
    }
}

/// The instant `secs` seconds and `nanos` nanoseconds after the Unix epoch.
pub open spec fn instant_of(secs: i64, nanos: u32) -> int {
    secs * NANOS_PER_SECOND + nanos
}

/// Midnight (UTC) at the start of `day`.
pub open spec fn day_start(day: int) -> int {
    (day - UNIX_EPOCH_DAY) * NANOS_PER_DAY
}

/// `hour:minute` on `day` (UTC).
pub open spec fn time_on_day(day: int, hour: int, minute: int) -> int {
    day_start(day) + hour * NANOS_PER_HOUR + minute * NANOS_PER_MINUTE
}

/// The day that contains `t` (UTC).
pub open spec fn day_of(t: int) -> int {
    t / (NANOS_PER_DAY as int) + UNIX_EPOCH_DAY
}

fn to_instant(secs: i64, nanos: u32) -> (t: i128)
    ensures
        t == instant_of(secs, nanos),
{
    secs as i128 * NANOS_PER_SECOND + nanos as i128
}

/// `hour:minute` on `day` (UTC), as an instant.
pub fn at_time_on_day(day: i64, hour: u32, minute: u32) -> (t: i128)
    requires
        hour < 24,
        minute < 60,
    ensures
        t == time_on_day(day as int, hour as int, minute as int),
{
    (day as i128 - UNIX_EPOCH_DAY as i128) * NANOS_PER_DAY + hour as i128 * NANOS_PER_HOUR
        + minute as i128 * NANOS_PER_MINUTE
}

/// The day that contains the instant `t` (UTC).
pub fn date_of(t: i128) -> (day: i64)
    requires
        -0x1_0000_0000_0000_0000_0000_0000 <= t <= 0x1_0000_0000_0000_0000_0000_0000,
    ensures
        day == day_of(t as int),
{
    let q: i128 = if t >= 0 {
        t / NANOS_PER_DAY
    } else {
        let r: i128 = (-t + NANOS_PER_DAY - 1) / NANOS_PER_DAY;
        proof {
            let nt: int = -t;
            assert(nt > 0);
            assert((nt + NANOS_PER_DAY - 1) / (NANOS_PER_DAY as int) == -((t as int) / (NANOS_PER_DAY as int))) by (nonlinear_arith)
                requires
                    nt == -t,
                    nt > 0,
                    NANOS_PER_DAY == 86_400_000_000_000,
            ;
        }
        -r
    };
    assert(q as int == (t as int) / (NANOS_PER_DAY as int));
    assert(-0x1_0000_0000_0000_0000_0000 <= q <= 0x1_0000_0000_0000_0000_0000) by (nonlinear_arith)
        requires
            q as int == (t as int) / (NANOS_PER_DAY as int),
            -0x1_0000_0000_0000_0000_0000_0000 <= t <= 0x1_0000_0000_0000_0000_0000_0000,
            NANOS_PER_DAY == 86_400_000_000_000,
    ;
    (q + UNIX_EPOCH_DAY as i128) as i64
}

/// Every instant lies in its own day: from that day's midnight up to the next.
pub proof fn lemma_day_of_bounds(t: int)
    ensures
        day_start(day_of(t)) <= t < day_start(day_of(t) + 1),
{
    let d: int = NANOS_PER_DAY as int;
    vstd::arithmetic::div_mod::lemma_fundamental_div_mod(t, d);
    assert(0 <= t % d < d);
    assert(day_start(day_of(t)) == (t / d) * d);
    assert(day_start(day_of(t) + 1) == (t / d) * d + d) by (nonlinear_arith)
        requires
            day_start(day_of(t) + 1) == (t / d + 1) * d,
    ;
    assert((t / d) * d == d * (t / d)) by (nonlinear_arith);
}

/// A time of day on `day` lies in `day`.
pub proof fn lemma_day_of_time(day: int, hour: int, minute: int)
    requires
        0 <= hour < 24,
        0 <= minute < 60,
    ensures
        day_of(time_on_day(day, hour, minute)) == day,
{
    let d: int = NANOS_PER_DAY as int;
    let b: int = hour * NANOS_PER_HOUR + minute * NANOS_PER_MINUTE;
    assert(0 <= b < d) by (nonlinear_arith)
        requires
            0 <= hour < 24,
            0 <= minute < 60,
            b == hour * 3_600_000_000_000 + minute * 60_000_000_000,
            d == 86_400_000_000_000,
    ;
    vstd::arithmetic::div_mod::lemma_div_multiples_vanish_fancy(day - UNIX_EPOCH_DAY, b, d);
    assert(time_on_day(day, hour, minute) == d * (day - UNIX_EPOCH_DAY) + b) by (nonlinear_arith)
        requires
            time_on_day(day, hour, minute) == (day - UNIX_EPOCH_DAY) * d + b,
    ;
}

/// Every time of day given in hours and minutes lies on a whole minute.
pub proof fn lemma_time_on_minute(day: int, hour: int, minute: int)
    ensures
        time_on_day(day, hour, minute) % (NANOS_PER_MINUTE as int) == 0,
{
    let k: int = (day - UNIX_EPOCH_DAY) * 1440 + hour * 60 + minute;
    assert(time_on_day(day, hour, minute) == k * 60_000_000_000);
    vstd::arithmetic::div_mod::lemma_mod_multiples_basic(k, 60_000_000_000);
}

/// Whole minutes from `from` to `upto`, none when `upto` is not later (chrono's
/// `num_minutes` of the difference, floored at zero).
pub open spec fn whole_minutes_between(from: int, upto: int) -> int {
    if upto > from {
        (upto - from) / (NANOS_PER_MINUTE as int)
    } else {
        0
    }
}

/// Whole minutes add up across a split on a whole minute, when one end lies on
/// a whole minute too.
pub proof fn lemma_whole_minutes_split(x: int, b: int, y: int)
    requires
        x <= b <= y,
        b % (NANOS_PER_MINUTE as int) == 0,
        x % (NANOS_PER_MINUTE as int) == 0 || y % (NANOS_PER_MINUTE as int) == 0,
    ensures
        whole_minutes_between(x, y) == whole_minutes_between(x, b) + whole_minutes_between(b, y),
{
    let m: int = NANOS_PER_MINUTE as int;
    assert(whole_minutes_between(x, y) == (y - x) / m);
    assert(whole_minutes_between(x, b) == (b - x) / m);
    assert(whole_minutes_between(b, y) == (y - b) / m);
    if x % m == 0 {
        // `b - x` is a whole number `k` of minutes.
        vstd::arithmetic::div_mod::lemma_fundamental_div_mod(x, m);
        vstd::arithmetic::div_mod::lemma_fundamental_div_mod(b, m);
        vstd::arithmetic::div_mod::lemma_fundamental_div_mod(y - b, m);
        let k: int = b / m - x / m;
        let q: int = (y - b) / m;
        let r: int = (y - b) % m;
        assert(b - x == m * k) by (nonlinear_arith)
            requires
                x == m * (x / m),
                b == m * (b / m),
                k == b / m - x / m,
        ;
        vstd::arithmetic::div_mod::lemma_div_multiples_vanish(k, m);
        assert(y - x == m * (k + q) + r) by (nonlinear_arith)
            requires
                b - x == m * k,
                y - b == m * q + r,
        ;
        vstd::arithmetic::div_mod::lemma_div_multiples_vanish_fancy(k + q, r, m);
    } else {
        vstd::arithmetic::div_mod::lemma_fundamental_div_mod(b, m);
        vstd::arithmetic::div_mod::lemma_fundamental_div_mod(y, m);
        vstd::arithmetic::div_mod::lemma_fundamental_div_mod(b - x, m);
        let k: int = y / m - b / m;
        let q: int = (b - x) / m;
        let r: int = (b - x) % m;
        assert(y - b == m * k) by (nonlinear_arith)
            requires
                y == m * (y / m),
                b == m * (b / m),
                k == y / m - b / m,
        ;
        vstd::arithmetic::div_mod::lemma_div_multiples_vanish(k, m);
        assert(y - x == m * (k + q) + r) by (nonlinear_arith)
            requires
                y - b == m * k,
                b - x == m * q + r,
        ;
        vstd::arithmetic::div_mod::lemma_div_multiples_vanish_fancy(k + q, r, m);
    }
}

/// Whole minutes from `from` to `upto` (see `whole_minutes_between`).
pub fn minutes_between(from: i128, upto: i128) -> (r: i64)
    requires
        -0x8000_0000_0000_0000_0000_0000 <= from <= 0x8000_0000_0000_0000_0000_0000,
        -0x8000_0000_0000_0000_0000_0000 <= upto <= 0x8000_0000_0000_0000_0000_0000,
    ensures
        r == whole_minutes_between(from as int, upto as int),
{
    if upto > from {
        let q: i128 = (upto - from) / NANOS_PER_MINUTE;
        assert(q <= 0x2000_0000_0000_0000) by (nonlinear_arith)
            requires
                q == (upto - from) / 60_000_000_000,
                0 < upto - from <= 0x1_0000_0000_0000_0000_0000_0000,
        ;
        q as i64
    } else {
        0
    }
}

/// What `parse_datetime` reads from `s`: an RFC 3339 datetime with offset; else
/// `YYYY-MM-DDTHH:MM:SS` or `YYYY-MM-DD HH:MM:SS` taken as UTC; else a bare
/// `YYYY-MM-DD`, taken as 08:00 UTC on that day.
pub open spec fn spec_parse_datetime(s: Seq<char>) -> Option<int> {
    if let Some((secs, nanos)) = spec_parse_rfc3339(s) {
        Some(instant_of(secs, nanos))
    } else if let Some((secs, nanos)) = spec_parse_naive_datetime(s, "%Y-%m-%dT%H:%M:%S"@) {
        Some(instant_of(secs, nanos))
    } else if let Some((secs, nanos)) = spec_parse_naive_datetime(s, "%Y-%m-%d %H:%M:%S"@) {
        Some(instant_of(secs, nanos))
    } else if let Some(d) = spec_parse_naive_date(s, "%Y-%m-%d"@) {
        Some(time_on_day(d as int, 8, 0))
    } else {
        None
    }
}

/// Reads an ISO 8601 / RFC 3339 datetime (see `spec_parse_datetime`); text that
/// none of the forms accepts is a `DateParse` error carrying the text.
pub fn parse_datetime(s: &str) -> (res: Result<i128, KernelError>)
    ensures
        match res {
            Ok(t) => spec_parse_datetime(s@) == Some(t as int),
            Err(e) => {
                &&& spec_parse_datetime(s@) is None
                &&& (e matches KernelError::DateParse(x) && x@ == s@)
            },
        },
{
    if let Some((secs, nanos)) = parse_rfc3339(s) {
        return Ok(to_instant(secs, nanos));
    }
    if let Some((secs, nanos)) = parse_naive_datetime(s, "%Y-%m-%dT%H:%M:%S") {
        return Ok(to_instant(secs, nanos));
    }
    if let Some((secs, nanos)) = parse_naive_datetime(s, "%Y-%m-%d %H:%M:%S") {
        return Ok(to_instant(secs, nanos));
    }
    if let Some(d) = parse_naive_date(s, "%Y-%m-%d") {
        return Ok(at_time_on_day(d as i64, 8, 0));
    }
    Err(KernelError::DateParse(s.to_string()))
}

/// An instant within the span this library computes with (about ±3·10^20 years,
/// wider than anything chrono reads).
pub open spec fn is_instant_value(t: int) -> bool {
    -0x2000_0000_0000_0000_0000_0000 <= t <= 0x2000_0000_0000_0000_0000_0000
}

pub open spec fn opt_instant_ok(t: Option<i128>) -> bool {
    t matches Some(v) ==> is_instant_value(v as int)
}

/// Every instant `parse_datetime` reads lies well inside the span (its seconds fit in `i64`).
pub proof fn lemma_parsed_instant_bounded(s: Seq<char>)
    ensures
        spec_parse_datetime(s) matches Some(t) ==> -0x1E00_0000_0000_0000_0000_0000 <= t
            <= 0x1E00_0000_0000_0000_0000_0000,
{
    if let Some(t) = spec_parse_datetime(s) {
        if let Some(d) = spec_parse_naive_date(s, "%Y-%m-%d"@) {
            assert(-0x1_0000_0000_0000_0000_0000 <= time_on_day(d as int, 8, 0) <= 0x1_0000_0000_0000_0000_0000) by (nonlinear_arith)
                requires
                    -0x8000_0000 <= d < 0x8000_0000,
                    time_on_day(d as int, 8, 0) == (d - 719_163) * 86_400_000_000_000 + 8 * 3_600_000_000_000,
            ;
        }
        if let Some((secs, nanos)) = spec_parse_rfc3339(s) {
            assert(-0x1E00_0000_0000_0000_0000_0000 <= instant_of(secs, nanos) <= 0x1E00_0000_0000_0000_0000_0000) by (nonlinear_arith)
                requires
                    i64::MIN <= secs <= i64::MAX,
                    0 <= nanos <= u32::MAX,
                    instant_of(secs, nanos) == secs * 1_000_000_000 + nanos,
            ;
        }
        if let Some((secs, nanos)) = spec_parse_naive_datetime(s, "%Y-%m-%dT%H:%M:%S"@) {
            assert(-0x1E00_0000_0000_0000_0000_0000 <= instant_of(secs, nanos) <= 0x1E00_0000_0000_0000_0000_0000) by (nonlinear_arith)
                requires
                    i64::MIN <= secs <= i64::MAX,
                    0 <= nanos <= u32::MAX,
                    instant_of(secs, nanos) == secs * 1_000_000_000 + nanos,
            ;
        }
        if let Some((secs, nanos)) = spec_parse_naive_datetime(s, "%Y-%m-%d %H:%M:%S"@) {
            assert(-0x1E00_0000_0000_0000_0000_0000 <= instant_of(secs, nanos) <= 0x1E00_0000_0000_0000_0000_0000) by (nonlinear_arith)
                requires
                    i64::MIN <= secs <= i64::MAX,
                    0 <= nanos <= u32::MAX,
                    instant_of(secs, nanos) == secs * 1_000_000_000 + nanos,
            ;
        }
    }
}

} // verus!
