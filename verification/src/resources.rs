//! Resource loading: report window, activity windows and report periods.

use vstd::prelude::*;

use chrono::Datelike;

use crate::datetime::{
    date_of, day_of, day_start, is_instant_value, lemma_parsed_instant_bounded, parse_datetime,
    spec_parse_datetime, NANOS_PER_DAY,
};
use crate::error::KernelError;
use crate::text::{opt_view, owned, same_text};

verus! {

// ── Defaults of the request fields ────────────────────────────────────────────

/// Type of a resource that names none.
pub fn default_resource_type() -> (r: String)
    ensures
        r@ == "labour"@,
{
    owned("labour")
}

/// Work type of an assignment that names none.
pub fn default_work_type() -> (r: String)
    ensures
        r@ == "fixed_units"@,
{
    owned("fixed_units")
}

/// Granularity of a load report that names none.
pub fn default_period_granularity() -> (r: String)
    ensures
        r@ == "daily"@,
{
    owned("daily")
}

/// Whether to level resources when the request does not say.
pub fn default_true() -> (r: bool)
    ensures
        r,
{
    true
}

// ── Calendar months (chrono) ─────────────────────────────────────────────────

/// The year of day number `day`, as chrono's `NaiveDate::year` gives it.
pub uninterp spec fn spec_year_of_day(day: i32) -> Option<i32>;

/// The month (1–12) of day number `day`, as chrono's `NaiveDate::month` gives it.
pub uninterp spec fn spec_month_of_day(day: i32) -> Option<u32>;

/// Day number of chrono's `NaiveDate::with_year(year)` applied to day `day`.
pub uninterp spec fn spec_day_with_year(day: i32, year: i32) -> Option<i32>;

/// Day number of chrono's `NaiveDate::with_month(month)` applied to day `day`.
pub uninterp spec fn spec_day_with_month(day: i32, month: u32) -> Option<i32>;

/// chrono's `NaiveDate::year` of the date `NaiveDate::from_num_days_from_ce_opt(day)`;
/// `None` when chrono has no such date.
#[verifier::external_body]
fn year_of_day(day: i32) -> (r: Option<i32>)
    ensures
        r == spec_year_of_day(day),
{
    match chrono::NaiveDate::from_num_days_from_ce_opt(day) {
        Some(d) => Some(d.year()),
        None => None,
    }
}

/// chrono's `NaiveDate::month` of the date `NaiveDate::from_num_days_from_ce_opt(day)`;
/// `None` when chrono has no such date. chrono documents months as 1 to 12.
#[verifier::external_body]
fn month_of_day(day: i32) -> (r: Option<u32>)
    ensures
        r == spec_month_of_day(day),
        r matches Some(m) ==> 1 <= m <= 12,
{
    match chrono::NaiveDate::from_num_days_from_ce_opt(day) {
        Some(d) => Some(d.month()),
        None => None,
    }
}

/// chrono's `NaiveDate::with_year` on the date numbered `day`, read back as a day
/// number; `None` when chrono has no such date or no such result.
#[verifier::external_body]
fn day_with_year(day: i32, year: i32) -> (r: Option<i32>)
    ensures
        r == spec_day_with_year(day, year),
{
    match chrono::NaiveDate::from_num_days_from_ce_opt(day) {
        Some(d) => match d.with_year(year) {
            Some(e) => Some(e.num_days_from_ce()),
            None => None,
        },
        None => None,
    }
}

/// chrono's `NaiveDate::with_month` on the date numbered `day`, read back as a day
/// number; `None` when chrono has no such date or no such result.
#[verifier::external_body]
fn day_with_month(day: i32, month: u32) -> (r: Option<i32>)
    ensures
        r == spec_day_with_month(day, month),
{
    match chrono::NaiveDate::from_num_days_from_ce_opt(day) {
        Some(d) => match d.with_month(month) {
            Some(e) => Some(e.num_days_from_ce()),
            None => None,
        },
        None => None,
    }
}

/// The same day and time of day one calendar month after `t` (December rolls
/// into January of the next year), as chrono's `with_year` and `with_month` give
/// it; `None` when chrono gives none.
pub open spec fn spec_next_month(t: int) -> Option<int> {
    let day = day_of(t);
    let tod = t - day_start(day);
    if -0x8000_0000 <= day < 0x8000_0000 {
        let d = day as i32;
        match (spec_year_of_day(d), spec_month_of_day(d)) {
            (Some(y), Some(m)) => {
                let next = if m == 12 {
                    if y < i32::MAX {
                        match spec_day_with_year(d, (y + 1) as i32) {
                            Some(d2) => spec_day_with_month(d2, 1),
                            None => None,
                        }
                    } else {
                        None
                    }
                } else {
                    match spec_day_with_year(d, y) {
                        Some(d2) => spec_day_with_month(d2, (m + 1) as u32),
                        None => None,
                    }
                };
                match next {
                    Some(nd) => Some(day_start(nd as int) + tod),
                    None => None,
                }
            },
            _ => None,
        }
    } else {
        None
    }
}

/// Start of the period after the one starting at `t`: a day or a week later, or
/// a calendar month later for `monthly` (thirty days when chrono gives no such
/// month, or one that would not move forward).
pub open spec fn spec_period_step(t: int, granularity: Seq<char>) -> int {
    if granularity == "weekly"@ {
        t + 7 * NANOS_PER_DAY
    } else if granularity == "monthly"@ {
        match spec_next_month(t) {
            Some(n) => if n > t {
                n
            } else {
                t + 30 * NANOS_PER_DAY
            },
            None => t + 30 * NANOS_PER_DAY,
        }
    } else {
        t + NANOS_PER_DAY
    }
}

/// The report periods from `t` to `end`: each starts where the last one ended
/// and ends a step later, the last one cut at `end`.
pub open spec fn periods_between(t: int, end: int, granularity: Seq<char>) -> Seq<(i128, i128)>
    decreases end - t,
{
    if t >= end {
        Seq::empty()
    } else {
        let next = spec_period_step(t, granularity);
        if next < end {
            seq![(t as i128, next as i128)] + periods_between(next, end, granularity)
        } else {
            seq![(t as i128, end as i128)]
        }
    }
}

fn next_month(t: i128) -> (r: Option<i128>)
    requires
        is_instant_value(t as int),
    ensures
        r matches Some(v) ==> v == spec_next_month(t as int)->0 && spec_next_month(t as int) is Some,
        r is None ==> spec_next_month(t as int) is None,
{
    let day = date_of(t);
    assert(-0x1_0000_0000_0000 <= day_of(t as int) <= 0x1_0000_0000_0000) by (nonlinear_arith)
        requires
            is_instant_value(t as int),
            day_of(t as int) == (t as int) / 86_400_000_000_000 + 719_163,
    ;
    let tod: i128 = t - (day as i128 - 719_163) * NANOS_PER_DAY;
    if day < -0x8000_0000 || day >= 0x8000_0000 {
        return None;
    }
    let d = day as i32;
    let y = match year_of_day(d) {
        Some(y) => y,
        None => return None,
    };
    let m = match month_of_day(d) {
        Some(m) => m,
        None => return None,
    };
    let next = if m == 12 {
        if y < i32::MAX {
            match day_with_year(d, y + 1) {
                Some(d2) => day_with_month(d2, 1),
                None => None,
            }
        } else {
            None
        }
    } else {
        match day_with_year(d, y) {
            Some(d2) => day_with_month(d2, m + 1),
            None => None,
        }
    };
    match next {
        Some(nd) => Some((nd as i128 - 719_163) * NANOS_PER_DAY + tod),
        None => None,
    }
}

/// The report periods tile the window: the first starts at its start, the last
/// ends at its end, each ends where the next starts, and none is empty.
pub proof fn lemma_periods_tile(t: int, end: int, granularity: Seq<char>)
    requires
        t < end,
        is_instant_value(t),
        is_instant_value(end),
    ensures
        ({
            let p = periods_between(t, end, granularity);
            &&& p.len() > 0
            &&& p[0].0 == t
            &&& p.last().1 == end
            &&& forall|i: int| 0 <= i < p.len() - 1 ==> #[trigger] p[i].1 == p[i + 1].0
            &&& forall|i: int| 0 <= i < p.len() ==> #[trigger] p[i].0 < p[i].1
        }),
    decreases end - t,
{
    let next = spec_period_step(t, granularity);
    let p = periods_between(t, end, granularity);
    assert(next > t);
    if next < end {
        lemma_periods_tile(next, end, granularity);
        let rest = periods_between(next, end, granularity);
        assert(p == seq![(t as i128, next as i128)] + rest);
        assert forall|i: int| 0 <= i < p.len() - 1 implies #[trigger] p[i].1 == p[i + 1].0 by {
            if i > 0 {
                assert(p[i] == rest[i - 1]);
                assert(p[i + 1] == rest[i]);
            }
        }
        assert forall|i: int| 0 <= i < p.len() implies #[trigger] p[i].0 < p[i].1 by {
            if i > 0 {
                assert(p[i] == rest[i - 1]);
            }
        }
    }
}

fn period_step(t: i128, weekly: bool, monthly: bool) -> (r: i128)
    requires
        is_instant_value(t as int),
    ensures
        weekly ==> r == t + 7 * NANOS_PER_DAY,
        !weekly && monthly ==> r == (match spec_next_month(t as int) {
            Some(n) => if n > t { n } else { t + 30 * NANOS_PER_DAY },
            None => t + 30 * NANOS_PER_DAY,
        }),
        !weekly && !monthly ==> r == t + NANOS_PER_DAY,
{
    if weekly {
        t + 7 * NANOS_PER_DAY
    } else if monthly {
        match next_month(t) {
            Some(n) => if n > t {
                n
            } else {
                t + 30 * NANOS_PER_DAY
            },
            None => t + 30 * NANOS_PER_DAY,
        }
    } else {
        t + NANOS_PER_DAY
    }
}

/// Splits `start..end` into report periods of the given granularity (`weekly`,
/// `monthly`, anything else daily); see `periods_between`.
pub fn build_periods(start: i128, end: i128, granularity: &str) -> (r: Vec<(i128, i128)>)
    requires
        is_instant_value(start as int),
        is_instant_value(end as int),
    ensures
        r@ == periods_between(start as int, end as int, granularity@),
{
    let weekly = same_text(granularity, "weekly");
    let monthly = same_text(granularity, "monthly");
    let mut periods: Vec<(i128, i128)> = Vec::new();
    let mut current = start;
    while current < end
        invariant
            is_instant_value(start as int),
            is_instant_value(end as int),
            start <= current,
            weekly == (granularity@ == "weekly"@),
            monthly == (granularity@ == "monthly"@),
            periods@ + periods_between(current as int, end as int, granularity@) == periods_between(
                start as int,
                end as int,
                granularity@,
            ),
        decreases end - current,
    {
        let next = period_step(current, weekly, monthly);
        assert(next == spec_period_step(current as int, granularity@));
        if next < end {
            periods.push((current, next));
            assert(periods_between(current as int, end as int, granularity@) == seq![(current, next)]
                + periods_between(next as int, end as int, granularity@));
            assert(periods@ + periods_between(next as int, end as int, granularity@) =~= periods_between(
                start as int,
                end as int,
                granularity@,
            ));
            current = next;
        } else {
            periods.push((current, end));
            assert(periods_between(next as int, end as int, granularity@) =~= Seq::empty());
            assert(periods@ =~= periods_between(start as int, end as int, granularity@));
            return periods;
        }
    }
    assert(periods@ =~= periods@ + periods_between(current as int, end as int, granularity@));
    periods
}

// ── Report window and activity windows ───────────────────────────────────────

/// The schedule dates of an activity, as resource loading reads them.
#[derive(Debug, Clone)]
pub struct ActivityDates {
    pub id: String,
    pub early_start: Option<String>,
    pub early_finish: Option<String>,
    pub scheduled_start: Option<String>,
    pub scheduled_finish: Option<String>,
}

/// Earliest readable early start among the first `k` activities.
pub open spec fn earliest_start(acts: Seq<ActivityDates>, k: int) -> Option<int>
    decreases k,
{
    if k <= 0 {
        None
    } else {
        let rest = earliest_start(acts, k - 1);
        let here = match acts[k - 1].early_start {
            Some(s) => spec_parse_datetime(s@),
            None => None,
        };
        match (rest, here) {
            (Some(a), Some(b)) => Some(if b < a { b } else { a }),
            (None, Some(b)) => Some(b),
            _ => rest,
        }
    }
}

/// Latest readable early finish among the first `k` activities.
pub open spec fn latest_finish(acts: Seq<ActivityDates>, k: int) -> Option<int>
    decreases k,
{
    if k <= 0 {
        None
    } else {
        let rest = latest_finish(acts, k - 1);
        let here = match acts[k - 1].early_finish {
            Some(s) => spec_parse_datetime(s@),
            None => None,
        };
        match (rest, here) {
            (Some(a), Some(b)) => Some(if b > a { b } else { a }),
            (None, Some(b)) => Some(b),
            _ => rest,
        }
    }
}

/// The report window: the given start, else the earliest readable early start,
/// else `now`; the given end, else the latest readable early finish, else thirty
/// days after the start. A given bound that does not read is a `DateParse` error
/// (the start is read first).
pub open spec fn is_report_window(
    r: Result<(i128, i128), KernelError>,
    acts: Seq<ActivityDates>,
    report_start: Option<Seq<char>>,
    report_end: Option<Seq<char>>,
    now: int,
) -> bool {
    let rs = match report_start {
        Some(s) => spec_parse_datetime(s),
        None => match earliest_start(acts, acts.len() as int) {
            Some(t) => Some(t),
            None => Some(now),
        },
    };
    match rs {
        None => r matches Err(KernelError::DateParse(x)) && x@ == report_start->0,
        Some(start) => {
            let re = match report_end {
                Some(e) => spec_parse_datetime(e),
                None => match latest_finish(acts, acts.len() as int) {
                    Some(t) => Some(t),
                    None => Some(start + 30 * NANOS_PER_DAY),
                },
            };
            match re {
                None => r matches Err(KernelError::DateParse(x)) && x@ == report_end->0,
                Some(end) => r == Ok::<(i128, i128), KernelError>((start as i128, end as i128)),
            }
        },
    }
}

/// The activity's early start, when it has one that reads.
pub open spec fn read_early_start(a: ActivityDates) -> Option<int> {
    if a.early_start is Some {
        spec_parse_datetime(a.early_start->0@)
    } else {
        None
    }
}

/// The activity's early finish, when it has one that reads.
pub open spec fn read_early_finish(a: ActivityDates) -> Option<int> {
    if a.early_finish is Some {
        spec_parse_datetime(a.early_finish->0@)
    } else {
        None
    }
}

proof fn lemma_earliest_start_is_min(acts: Seq<ActivityDates>, k: int)
    requires
        0 <= k <= acts.len(),
    ensures
        (earliest_start(acts, k) is Some) == (exists|i: int| 0 <= i < k && #[trigger] read_early_start(acts[i]) is Some),
        earliest_start(acts, k) matches Some(t) ==> {
            &&& forall|i: int| 0 <= i < k && #[trigger] read_early_start(acts[i]) is Some ==> t <= read_early_start(acts[i])->0
            &&& exists|i: int| 0 <= i < k && #[trigger] read_early_start(acts[i]) == Some(t)
        },
    decreases k,
{
    if k > 0 {
        lemma_earliest_start_is_min(acts, k - 1);
        let here = read_early_start(acts[k - 1]);
        if let Some(b) = here {
            assert(read_early_start(acts[k - 1]) == Some(b));
        }
        if earliest_start(acts, k - 1) is Some {
            let i = choose|i: int| 0 <= i < k - 1 && #[trigger] read_early_start(acts[i]) == Some(earliest_start(acts, k - 1)->0);
            assert(read_early_start(acts[i]) is Some);
        }
    }
}

proof fn lemma_latest_finish_is_max(acts: Seq<ActivityDates>, k: int)
    requires
        0 <= k <= acts.len(),
    ensures
        (latest_finish(acts, k) is Some) == (exists|i: int| 0 <= i < k && #[trigger] read_early_finish(acts[i]) is Some),
        latest_finish(acts, k) matches Some(t) ==> {
            &&& forall|i: int| 0 <= i < k && #[trigger] read_early_finish(acts[i]) is Some ==> read_early_finish(acts[i])->0 <= t
            &&& exists|i: int| 0 <= i < k && #[trigger] read_early_finish(acts[i]) == Some(t)
        },
    decreases k,
{
    if k > 0 {
        lemma_latest_finish_is_max(acts, k - 1);
        let here = read_early_finish(acts[k - 1]);
        if let Some(b) = here {
            assert(read_early_finish(acts[k - 1]) == Some(b));
        }
        if latest_finish(acts, k - 1) is Some {
            let i = choose|i: int| 0 <= i < k - 1 && #[trigger] read_early_finish(acts[i]) == Some(latest_finish(acts, k - 1)->0);
            assert(read_early_finish(acts[i]) is Some);
        }
    }
}

/// Given bounds that read make the report window, whatever the activities and
/// the current time; a given bound that does not read is a `DateParse` error
/// carrying its text, the start checked first.
pub proof fn lemma_report_window_given_bounds(
    r: Result<(i128, i128), KernelError>,
    acts: Seq<ActivityDates>,
    report_start: Seq<char>,
    report_end: Seq<char>,
    now: int,
)
    requires
        is_report_window(r, acts, Some(report_start), Some(report_end), now),
    ensures
        spec_parse_datetime(report_start) is None ==> (r matches Err(KernelError::DateParse(x)) && x@
            == report_start),
        spec_parse_datetime(report_start) is Some && spec_parse_datetime(report_end) is None ==> (r matches Err(
            KernelError::DateParse(x),
        ) && x@ == report_end),
        spec_parse_datetime(report_start) is Some && spec_parse_datetime(report_end) is Some ==> (r matches Ok((s, e))
            && s == spec_parse_datetime(report_start)->0 && e == spec_parse_datetime(report_end)->0),
{
    lemma_parsed_instant_bounded(report_start);
    lemma_parsed_instant_bounded(report_end);
}

/// Without a given start, the report window starts at the earliest readable
/// early start of the activities: no later than any of them and equal to one;
/// when none reads, it starts at `now`.
pub proof fn lemma_report_window_starts_at_earliest_start(
    r: Result<(i128, i128), KernelError>,
    acts: Seq<ActivityDates>,
    report_end: Option<Seq<char>>,
    now: int,
)
    requires
        is_report_window(r, acts, None, report_end, now),
    ensures
        r matches Ok((s, _)) ==> if exists|i: int| 0 <= i < acts.len() && #[trigger] read_early_start(acts[i]) is Some {
            &&& forall|i: int|
                0 <= i < acts.len() && #[trigger] read_early_start(acts[i]) is Some ==> s <= read_early_start(acts[i])->0
            &&& exists|i: int| 0 <= i < acts.len() && #[trigger] read_early_start(acts[i]) == Some(s as int)
        } else {
            s == now as i128
        },
{
    lemma_earliest_start_is_min(acts, acts.len() as int);
    if let Some(t) = earliest_start(acts, acts.len() as int) {
        let i = choose|i: int| 0 <= i < acts.len() && #[trigger] read_early_start(acts[i]) == Some(t);
        lemma_parsed_instant_bounded(acts[i].early_start->0@);
    }
}

/// Without a given end, the report window ends at the latest readable early
/// finish of the activities: no earlier than any of them and equal to one.
pub proof fn lemma_report_window_ends_at_latest_finish(
    r: Result<(i128, i128), KernelError>,
    acts: Seq<ActivityDates>,
    report_start: Option<Seq<char>>,
    now: int,
)
    requires
        is_report_window(r, acts, report_start, None, now),
        exists|i: int| 0 <= i < acts.len() && #[trigger] read_early_finish(acts[i]) is Some,
    ensures
        r matches Ok((_, e)) ==> {
            &&& forall|i: int|
                0 <= i < acts.len() && #[trigger] read_early_finish(acts[i]) is Some ==> read_early_finish(acts[i])->0 <= e
            &&& exists|i: int| 0 <= i < acts.len() && #[trigger] read_early_finish(acts[i]) == Some(e as int)
        },
{
    lemma_latest_finish_is_max(acts, acts.len() as int);
    let t = latest_finish(acts, acts.len() as int)->0;
    let i = choose|i: int| 0 <= i < acts.len() && #[trigger] read_early_finish(acts[i]) == Some(t);
    lemma_parsed_instant_bounded(acts[i].early_finish->0@);
}

fn earliest_start_of(acts: &Vec<ActivityDates>) -> (r: Option<i128>)
    ensures
        match earliest_start(acts@, acts.len() as int) {
            Some(t) => r == Some(t as i128) && -0x1E00_0000_0000_0000_0000_0000 <= t <= 0x1E00_0000_0000_0000_0000_0000,
            None => r is None,
        },
{
    let mut best: Option<i128> = None;
    let mut k: usize = 0;
    while k < acts.len()
        invariant
            k <= acts.len(),
            match earliest_start(acts@, k as int) {
                Some(t) => best == Some(t as i128) && -0x1E00_0000_0000_0000_0000_0000 <= t <= 0x1E00_0000_0000_0000_0000_0000,
                None => best is None,
            },
        decreases acts.len() - k,
    {
        if let Some(s) = &acts[k].early_start {
            proof {
                lemma_parsed_instant_bounded(s@);
            }
            if let Ok(t) = parse_datetime(s.as_str()) {
                best = match best {
                    Some(b) => Some(if t < b { t } else { b }),
                    None => Some(t),
                };
            }
        }
        k = k + 1;
    }
    best
}

fn latest_finish_of(acts: &Vec<ActivityDates>) -> (r: Option<i128>)
    ensures
        match latest_finish(acts@, acts.len() as int) {
            Some(t) => r == Some(t as i128) && -0x1E00_0000_0000_0000_0000_0000 <= t <= 0x1E00_0000_0000_0000_0000_0000,
            None => r is None,
        },
{
    let mut best: Option<i128> = None;
    let mut k: usize = 0;
    while k < acts.len()
        invariant
            k <= acts.len(),
            match latest_finish(acts@, k as int) {
                Some(t) => best == Some(t as i128) && -0x1E00_0000_0000_0000_0000_0000 <= t <= 0x1E00_0000_0000_0000_0000_0000,
                None => best is None,
            },
        decreases acts.len() - k,
    {
        if let Some(s) = &acts[k].early_finish {
            proof {
                lemma_parsed_instant_bounded(s@);
            }
            if let Ok(t) = parse_datetime(s.as_str()) {
                best = match best {
                    Some(b) => Some(if t > b { t } else { b }),
                    None => Some(t),
                };
            }
        }
        k = k + 1;
    }
    best
}

/// The report window as of `now` (see `is_report_window`).
pub fn report_window_at(
    acts: &Vec<ActivityDates>,
    report_start: &Option<String>,
    report_end: &Option<String>,
    now: i128,
) -> (r: Result<(i128, i128), KernelError>)
    requires
        -0x1E00_0000_0000_0000_0000_0000 <= now <= 0x1E00_0000_0000_0000_0000_0000,
    ensures
        is_report_window(r, acts@, opt_view(*report_start), opt_view(*report_end), now as int),
        r matches Ok((s, e)) ==> is_instant_value(s as int) && is_instant_value(e as int),
{
    let rs = match report_start {
        Some(s) => {
            proof {
                lemma_parsed_instant_bounded(s@);
            }
            parse_datetime(s.as_str())?
        },
        None => match earliest_start_of(acts) {
            Some(t) => t,
            None => now,
        },
    };
    let re = match report_end {
        Some(e) => {
            proof {
                lemma_parsed_instant_bounded(e@);
            }
            parse_datetime(e.as_str())?
        },
        None => match latest_finish_of(acts) {
            Some(t) => t,
            None => rs + 30 * NANOS_PER_DAY,
        },
    };
    Ok((rs, re))
}

/// The current time as chrono's `Utc::now` reads it: its timestamp and
/// sub-second nanoseconds. Nothing is promised of the value.
#[verifier::external_body]
fn utc_now() -> (r: (i64, u32)) {
    let now = chrono::Utc::now();
    (now.timestamp(), now.timestamp_subsec_nanos())
}

/// The report window, falling back on the current time when neither a start nor
/// any readable early start is given (see `is_report_window`).
pub fn report_window(
    acts: &Vec<ActivityDates>,
    report_start: &Option<String>,
    report_end: &Option<String>,
) -> (r: Result<(i128, i128), KernelError>)
    ensures
        exists|now: int| is_report_window(r, acts@, opt_view(*report_start), opt_view(*report_end), now),
        r matches Ok((s, e)) ==> is_instant_value(s as int) && is_instant_value(e as int),
{
    let (secs, nanos) = utc_now();
    let now: i128 = secs as i128 * 1_000_000_000 + nanos as i128;
    report_window_at(acts, report_start, report_end, now)
}

/// The text an activity's loading starts from: its scheduled start, else its
/// early start, else the first activity's early start.
pub open spec fn start_text(acts: Seq<ActivityDates>, i: int) -> Option<Seq<char>> {
    match acts[i].scheduled_start {
        Some(s) => Some(s@),
        None => match acts[i].early_start {
            Some(s) => Some(s@),
            None => opt_view(acts[0].early_start),
        },
    }
}

/// The text an activity's loading ends at: its scheduled finish, else its early finish.
pub open spec fn finish_text(acts: Seq<ActivityDates>, i: int) -> Option<Seq<char>> {
    match acts[i].scheduled_finish {
        Some(s) => Some(s@),
        None => opt_view(acts[i].early_finish),
    }
}

/// Reads a possibly missing text; a missing text reads as the empty one.
pub open spec fn parse_or_empty(t: Option<Seq<char>>) -> Option<int> {
    match t {
        Some(s) => spec_parse_datetime(s),
        None => spec_parse_datetime(Seq::empty()),
    }
}

/// The window in which activity `i` loads its resources, when both ends read.
pub open spec fn activity_window(acts: Seq<ActivityDates>, i: int) -> Option<(int, int)> {
    match (parse_or_empty(start_text(acts, i)), parse_or_empty(finish_text(acts, i))) {
        (Some(s), Some(f)) => Some((s, f)),
        _ => None,
    }
}

fn parse_opt(t: &Option<String>) -> (r: Option<i128>)
    ensures
        r matches Some(v) ==> parse_or_empty(opt_view(*t)) == Some(v as int),
        r is None ==> parse_or_empty(opt_view(*t)) is None,
{
    match t {
        Some(s) => {
            let res = parse_datetime(s.as_str());
            assert(opt_view(*t) == Some(s@));
            match res {
                Ok(v) => Some(v),
                Err(_) => None,
            }
        },
        None => {
            let empty = "";
            proof {
                reveal_strlit("");
                assert(empty@ =~= Seq::<char>::empty());
            }
            let res = parse_datetime(empty);
            match res {
                Ok(v) => Some(v),
                Err(_) => None,
            }
        },
    }
}

/// The window of each activity (see `activity_window`).
pub fn activity_windows(acts: &Vec<ActivityDates>) -> (r: Vec<Option<(i128, i128)>>)
    ensures
        r.len() == acts.len(),
        forall|i: int|
            0 <= i < acts.len() ==> match activity_window(acts@, i) {
                Some((s, f)) => #[trigger] r[i] == Some((s as i128, f as i128)),
                None => r[i] is None,
            },
{
    let mut out: Vec<Option<(i128, i128)>> = Vec::new();
    let mut i: usize = 0;
    while i < acts.len()
        invariant
            i <= acts.len(),
            out.len() == i,
            forall|j: int|
                0 <= j < i ==> match activity_window(acts@, j) {
                    Some((s, f)) => #[trigger] out[j] == Some((s as i128, f as i128)),
                    None => out[j] is None,
                },
        decreases acts.len() - i,
    {
        let a = &acts[i];
        let start = if a.scheduled_start.is_some() {
            parse_opt(&a.scheduled_start)
        } else if a.early_start.is_some() {
            parse_opt(&a.early_start)
        } else {
            parse_opt(&acts[0].early_start)
        };
        let finish = if a.scheduled_finish.is_some() {
            parse_opt(&a.scheduled_finish)
        } else {
            parse_opt(&a.early_finish)
        };
        match (start, finish) {
            (Some(s), Some(f)) => out.push(Some((s, f))),
            _ => out.push(None),
        }
        i = i + 1;
    }
    out
}

/// The window loaded for activity `id`: that of the last activity with this id
/// whose window reads.
pub open spec fn window_of(acts: Seq<ActivityDates>, id: Seq<char>, k: int) -> Option<(int, int)>
    decreases k,
{
    if k <= 0 {
        None
    } else if acts[k - 1].id@ == id && activity_window(acts, k - 1) is Some {
        activity_window(acts, k - 1)
    } else {
        window_of(acts, id, k - 1)
    }
}

/// Looks up the window loaded for activity `id` (see `window_of`).
pub fn find_window(acts: &Vec<ActivityDates>, windows: &Vec<Option<(i128, i128)>>, id: &str) -> (r: Option<
    (i128, i128),
>)
    requires
        windows.len() == acts.len(),
        forall|i: int|
            0 <= i < acts.len() ==> match activity_window(acts@, i) {
                Some((s, f)) => #[trigger] windows[i] == Some((s as i128, f as i128)),
                None => windows[i] is None,
            },
    ensures
        match window_of(acts@, id@, acts.len() as int) {
            Some((s, f)) => r == Some((s as i128, f as i128)),
            None => r is None,
        },
{
    let mut k: usize = acts.len();
    while k > 0
        invariant
            k <= acts.len(),
            windows.len() == acts.len(),
            forall|i: int|
                0 <= i < acts.len() ==> match activity_window(acts@, i) {
                    Some((s, f)) => #[trigger] windows[i] == Some((s as i128, f as i128)),
                    None => windows[i] is None,
                },
            window_of(acts@, id@, acts.len() as int) == window_of(acts@, id@, k as int),
        decreases k,
    {
        if same_text(acts[k - 1].id.as_str(), id) && windows[k - 1].is_some() {
            return windows[k - 1];
        }
        k = k - 1;
    }
    None
}

} // verus!
