use vstd::prelude::*;

use std::collections::HashMap;

use crate::text::{owned, same_text};
use crate::datetime::{
    at_time_on_day, date_of, day_of, day_start, is_instant_value, lemma_day_of_bounds, lemma_day_of_time,
    lemma_time_on_minute, lemma_whole_minutes_split, minutes_between, NANOS_PER_MINUTE, parse_naive_date, spec_parse_naive_date, time_on_day, whole_minutes_between,
};

verus! {

broadcast use vstd::seq_lib::group_seq_properties, vstd::std_specs::hash::group_hash_axioms;

/// A single date override in a working calendar.
#[derive(Debug, Clone)]
pub struct CalendarException {
    /// ISO date string, e.g. `"2026-12-25"`.
    pub date: String,
    /// `"non_working"` | `"working"` | `"half_day"`.
    pub day_type: String,
    pub work_start_hour: u8,
    pub work_start_minute: u8,
    pub work_finish_hour: u8,
    pub work_finish_minute: u8,
    pub description: String,
}

impl CalendarException {
    /// A field-by-field copy.
    pub fn duplicate(&self) -> (r: Self)
        ensures
            r == *self,
    {
        CalendarException {
            date: self.date.clone(),
            day_type: self.day_type.clone(),
            work_start_hour: self.work_start_hour,
            work_start_minute: self.work_start_minute,
            work_finish_hour: self.work_finish_hour,
            work_finish_minute: self.work_finish_minute,
            description: self.description.clone(),
        }
    }
}

impl Default for CalendarException {
    fn default() -> (r: Self)
        ensures
            r.date@ == Seq::<char>::empty(),
            r.day_type@ == "non_working"@,
            r.work_start_hour == 8,
            r.work_start_minute == 0,
            r.work_finish_hour == 17,
            r.work_finish_minute == 0,
            r.description@ == Seq::<char>::empty(),
    {
        CalendarException {
            date: String::new(),
            day_type: owned("non_working"),
            work_start_hour: 8,
            work_start_minute: 0,
            work_finish_hour: 17,
            work_finish_minute: 0,
            description: String::new(),
        }
    }
}

/// Working-time definition for a project, resource, or organisation.
///
/// `working_days` lists ISO weekday integers: 0 = Monday, 6 = Sunday.
#[derive(Debug, Clone)]
pub struct KernelCalendar {
    pub calendar_id: String,
    pub name: String,
    /// IANA timezone string, e.g. `"Europe/London"`.
    pub timezone: String,
    /// ISO weekday integers (0 = Monday, 6 = Sunday).
    pub working_days: Vec<u8>,
    pub work_start_hour: u8,
    pub work_start_minute: u8,
    pub work_finish_hour: u8,
    pub work_finish_minute: u8,
    pub exceptions: Vec<CalendarException>,
}

/// Timezone used when a calendar names none.
pub fn default_timezone() -> (r: String)
    ensures
        r@ == "UTC"@,
{
    owned("UTC")
}

/// Working days used when a calendar names none: Monday to Friday.
pub fn default_working_days() -> (r: Vec<u8>)
    ensures
        r@ == seq![0u8, 1u8, 2u8, 3u8, 4u8],
{
    let r: Vec<u8> = vec![0, 1, 2, 3, 4];
    assert(r@ =~= seq![0u8, 1u8, 2u8, 3u8, 4u8]);
    r
}

/// Start hour used when a calendar names none.
pub fn default_start_hour() -> (r: u8)
    ensures
        r == 8,
{
    8
}

/// Finish hour used when a calendar names none.
pub fn default_finish_hour() -> (r: u8)
    ensures
        r == 17,
{
    17
}

/// Minutes from `start` to `finish` (each `hour:minute`), or 0 when finish is not later.
pub open spec fn span_minutes(sh: u8, sm: u8, fh: u8, fm: u8) -> int {
    let start = sh * 60 + sm;
    let finish = fh * 60 + fm;
    if finish > start {
        finish - start
    } else {
        0
    }
}

fn span_minutes_exec(sh: u8, sm: u8, fh: u8, fm: u8) -> (r: u32)
    ensures
        r == span_minutes(sh, sm, fh, fm),
{
    let start: u32 = sh as u32 * 60 + sm as u32;
    let finish: u32 = fh as u32 * 60 + fm as u32;
    if finish > start {
        finish - start
    } else {
        0
    }
}

/// `hour:minute` names a time of day (what chrono's `NaiveTime::from_hms_opt` accepts with zero seconds).
pub open spec fn is_clock_time(hour: u8, minute: u8) -> bool {
    hour < 24 && minute < 60
}

/// The minutes worked on a normal day.
pub open spec fn normal_day_minutes(cal: KernelCalendar) -> int {
    span_minutes(cal.work_start_hour, cal.work_start_minute, cal.work_finish_hour, cal.work_finish_minute)
}

/// The minutes worked on a day the exception overrides.
pub open spec fn exception_minutes(ex: CalendarException) -> int {
    if ex.day_type@ == "non_working"@ {
        0
    } else {
        span_minutes(ex.work_start_hour, ex.work_start_minute, ex.work_finish_hour, ex.work_finish_minute)
    }
}

impl KernelCalendar {
    /// Standard working time on a normal day, in minutes (never negative).
    pub fn working_minutes_per_day(&self) -> (r: u32)
        ensures
            r == normal_day_minutes(*self),
    {
        span_minutes_exec(self.work_start_hour, self.work_start_minute, self.work_finish_hour, self.work_finish_minute)
    }
}

/// ISO weekday (0 = Monday … 6 = Sunday) of a day number; day 1 (0001-01-01) was a Monday.
pub open spec fn iso_weekday(day: int) -> int {
    (day - 1) % 7
}

/// ISO weekday (0 = Monday … 6 = Sunday) of a day number.
pub fn weekday_to_iso(day: i64) -> (r: u8)
    ensures
        r == iso_weekday(day as int),
        r < 7,
{
    let d: i128 = day as i128 - 1;
    let m: i128 = if d >= 0 {
        d % 7
    } else {
        let k: i128 = (-d) % 7;
        if k == 0 {
            0
        } else {
            7 - k
        }
    };
    assert(m == (d as int) % 7) by (nonlinear_arith)
        requires
            d >= 0 ==> m == (d as int) % 7,
            d < 0 ==> m == (if (-d) % 7 == 0 { 0 } else { 7 - (-d) % 7 }),
    ;
    m as u8
}

/// The exception that applies to `day`: of those whose date reads as `day`, the last listed.
pub open spec fn latest_exception(excs: Seq<CalendarException>, day: int) -> Option<CalendarException>
    decreases excs.len(),
{
    if excs.len() == 0 {
        None
    } else if spec_parse_naive_date(excs.last().date@, "%Y-%m-%d"@) == Some(day as i32) && -0x8000_0000 <= day < 0x8000_0000 {
        Some(excs.last())
    } else {
        latest_exception(excs.drop_last(), day)
    }
}

/// The exception's date reads as `YYYY-MM-DD`.
pub open spec fn date_reads(ex: CalendarException) -> bool {
    spec_parse_naive_date(ex.date@, "%Y-%m-%d"@) is Some
}

/// The exceptions whose date reads, in their order.
pub open spec fn readable_exceptions(excs: Seq<CalendarException>) -> Seq<CalendarException> {
    excs.filter(|ex: CalendarException| date_reads(ex))
}

/// Exceptions whose date does not read are ignored: leaving them out changes
/// the exception of no day.
pub proof fn lemma_unreadable_exceptions_ignored(excs: Seq<CalendarException>, day: int)
    ensures
        latest_exception(excs, day) == latest_exception(readable_exceptions(excs), day),
    decreases excs.len(),
{
    if excs.len() > 0 {
        lemma_unreadable_exceptions_ignored(excs.drop_last(), day);
        reveal_with_fuel(Seq::<CalendarException>::filter, 1);
        let sub = readable_exceptions(excs.drop_last());
        if date_reads(excs.last()) {
            assert(readable_exceptions(excs) == sub.push(excs.last()));
            assert(sub.push(excs.last()).drop_last() =~= sub);
            assert(sub.push(excs.last()).last() == excs.last());
        } else {
            assert(readable_exceptions(excs) == sub);
        }
    }
}

/// Of the exceptions whose date reads as `day`, the last listed decides the day.
pub proof fn lemma_later_exception_wins(excs: Seq<CalendarException>, i: int, day: i32)
    requires
        0 <= i < excs.len(),
        spec_parse_naive_date(excs[i].date@, "%Y-%m-%d"@) == Some(day),
        forall|j: int| i < j < excs.len() ==> spec_parse_naive_date(#[trigger] excs[j].date@, "%Y-%m-%d"@) != Some(day),
    ensures
        latest_exception(excs, day as int) == Some(excs[i]),
    decreases excs.len(),
{
    if i < excs.len() - 1 {
        assert(excs.drop_last()[i] == excs[i]);
        assert forall|j: int| i < j < excs.drop_last().len() implies spec_parse_naive_date(
            #[trigger] excs.drop_last()[j].date@,
            "%Y-%m-%d"@,
        ) != Some(day) by {
            assert(excs.drop_last()[j] == excs[j]);
        }
        lemma_later_exception_wins(excs.drop_last(), i, day);
        assert(spec_parse_naive_date(excs[excs.len() - 1].date@, "%Y-%m-%d"@) != Some(day));
    }
}

/// Some exception of `excs` has a date that reads as `day` whenever one decides `day`.
proof fn lemma_latest_exception_listed(excs: Seq<CalendarException>, day: int)
    requires
        latest_exception(excs, day) is Some,
    ensures
        -0x8000_0000 <= day < 0x8000_0000,
        exists|a: int|
            0 <= a < excs.len() && spec_parse_naive_date(#[trigger] excs[a].date@, "%Y-%m-%d"@) == Some(day as i32),
    decreases excs.len(),
{
    if !(spec_parse_naive_date(excs.last().date@, "%Y-%m-%d"@) == Some(day as i32) && -0x8000_0000 <= day
        < 0x8000_0000) {
        lemma_latest_exception_listed(excs.drop_last(), day);
        let a = choose|a: int|
            0 <= a < excs.drop_last().len() && spec_parse_naive_date(
                #[trigger] excs.drop_last()[a].date@,
                "%Y-%m-%d"@,
            ) == Some(day as i32);
        assert(excs[a] == excs.drop_last()[a]);
    } else {
        assert(excs[excs.len() - 1] == excs.last());
    }
}

/// The sum of a list of minute counts.
pub open spec fn minutes_total(s: Seq<int>) -> int
    decreases s.len(),
{
    if s.len() == 0 {
        0
    } else {
        minutes_total(s.drop_last()) + s.last()
    }
}

proof fn lemma_total_concat(x: Seq<int>, y: Seq<int>)
    ensures
        minutes_total(x + y) == minutes_total(x) + minutes_total(y),
    decreases y.len(),
{
    if y.len() == 0 {
        assert(x + y =~= x);
    } else {
        lemma_total_concat(x, y.drop_last());
        assert((x + y).drop_last() =~= x + y.drop_last());
    }
}

proof fn lemma_total_single(v: int)
    ensures
        minutes_total(seq![v]) == v,
{
    assert(seq![v].drop_last() =~= Seq::<int>::empty());
    assert(minutes_total(Seq::<int>::empty()) == 0);
    assert(seq![v].last() == v);
}

/// `index` maps each exception day to the exception that decides it.
spec fn indexes_exceptions(index: Map<i64, CalendarException>, excs: Seq<CalendarException>) -> bool {
    forall|d: i64|
        #![trigger index.contains_key(d)]
        #![trigger latest_exception(excs, d as int)]
        latest_exception(excs, d as int) == if index.contains_key(d) {
            Some(index[d])
        } else {
            None::<CalendarException>
        }
}

/// Runtime calendar: the definition plus its exceptions indexed by day.
pub struct RuntimeCalendar {
    inner: KernelCalendar,
    /// The exception that decides each exception day.
    exceptions: HashMap<i64, CalendarException>,
}

impl RuntimeCalendar {
    /// The definition this calendar was built from.
    pub closed spec fn definition(self) -> KernelCalendar {
        self.inner
    }

    /// The exception that overrides `day`, if any.
    pub open spec fn exception_for(self, day: int) -> Option<CalendarException> {
        latest_exception(self.definition().exceptions@, day)
    }

    #[verifier::type_invariant]
    closed spec fn wf(self) -> bool {
        indexes_exceptions(self.exceptions@, self.inner.exceptions@)
    }

    /// Minutes worked on `day`: an exception decides alone (none on a
    /// `non_working` exception); otherwise the normal day's minutes on a working
    /// weekday and none on other days.
    pub open spec fn minutes_on(self, day: int) -> int {
        match self.exception_for(day) {
            Some(ex) => exception_minutes(ex),
            None => if self.definition().working_days@.contains(iso_weekday(day) as u8) {
                normal_day_minutes(self.definition())
            } else {
                0
            },
        }
    }

    /// An exception decides its day alone: a `non_working` one gives no working
    /// time; any other (`working`, `half_day`, ...) gives the minutes from its own
    /// start to its own finish (none when the finish is not later), whatever the
    /// calendar's normal day. A day without an exception gets the calendar's
    /// normal minutes on a listed weekday and none on others.
    pub proof fn lemma_minutes_on_day_kinds(self, day: int)
        ensures
            self.exception_for(day) matches Some(ex) ==> {
                let start = ex.work_start_hour * 60 + ex.work_start_minute;
                let finish = ex.work_finish_hour * 60 + ex.work_finish_minute;
                &&& ex.day_type@ == "non_working"@ ==> self.minutes_on(day) == 0
                &&& ex.day_type@ != "non_working"@ && finish > start ==> self.minutes_on(day) == finish - start
                &&& ex.day_type@ != "non_working"@ && finish <= start ==> self.minutes_on(day) == 0
            },
            self.exception_for(day) is None ==> {
                let cal = self.definition();
                let start = cal.work_start_hour * 60 + cal.work_start_minute;
                let finish = cal.work_finish_hour * 60 + cal.work_finish_minute;
                &&& cal.working_days@.contains(iso_weekday(day) as u8) && finish > start ==> self.minutes_on(day)
                    == finish - start
                &&& !(cal.working_days@.contains(iso_weekday(day) as u8) && finish > start) ==> self.minutes_on(day)
                    == 0
            },
    {
    }

    /// `day` gets some working time.
    pub open spec fn is_working(self, day: int) -> bool {
        self.minutes_on(day) > 0
    }

    /// Some day from `day` on (below `i64::MAX`) gets working time.
    pub open spec fn has_working_day_after(self, day: int) -> bool {
        exists|w: int| day <= w < i64::MAX && self.is_working(w)
    }

    /// The calendar's id.
    pub fn id(&self) -> (r: &str)
        ensures
            r@ == self.definition().calendar_id@,
    {
        self.inner.calendar_id.as_str()
    }

    /// Standard working time on a normal day, in minutes.
    pub fn minutes_per_normal_day(&self) -> (r: u32)
        ensures
            r == normal_day_minutes(self.definition()),
    {
        self.inner.working_minutes_per_day()
    }

    fn exception_slot(&self, day: i64) -> (res: Option<&CalendarException>)
        ensures
            match res {
                Some(ex) => self.exception_for(day as int) == Some(*ex),
                None => self.exception_for(day as int) is None,
            },
    {
        proof {
            use_type_invariant(self);
        }
        let r = self.exceptions.get(&day);
        proof {
            assert(self.exceptions@.contains_key(day) == (r is Some));
        }
        r
    }

    /// Working minutes available on `day` (see `minutes_on`).
    pub fn working_minutes_on_day(&self, day: i64) -> (r: u32)
        ensures
            r == self.minutes_on(day as int),
    {
        match self.exception_slot(day) {
            Some(ex) => {
                if ex.day_type == owned("non_working") {
                    0
                } else {
                    span_minutes_exec(ex.work_start_hour, ex.work_start_minute, ex.work_finish_hour, ex.work_finish_minute)
                }
            },
            None => {
                let wd = weekday_to_iso(day);
                if contains_day(&self.inner.working_days, wd) {
                    self.inner.working_minutes_per_day()
                } else {
                    0
                }
            },
        }
    }

    /// `day` gets some working time.
    pub fn is_working_day(&self, day: i64) -> (r: bool)
        ensures
            r == self.is_working(day as int),
    {
        self.working_minutes_on_day(day) > 0
    }

    /// Decides whether some day from `day` on gets working time: either a later
    /// exception day does, or the normal week has a working weekday with
    /// working hours (exceptions cover finitely many days).
    pub fn has_working_day_from(&self, day: i64) -> (r: bool)
        requires
            -0x4000_0000_0000_0000 <= day <= 0x4000_0000_0000_0000,
        ensures
            r == self.has_working_day_after(day as int),
    {
        let excs = &self.inner.exceptions;
        let n = excs.len();
        let mut i: usize = 0;
        let mut latest: i64 = day;
        while i < n
            invariant
                i <= n,
                n == excs.len(),
                excs@ == self.definition().exceptions@,
                -0x4000_0000_0000_0000 <= day <= latest <= 0x4000_0000_0000_0000,
                forall|a: int|
                    0 <= a < i ==> match spec_parse_naive_date(#[trigger] excs@[a].date@, "%Y-%m-%d"@) {
                        Some(x) => x <= latest && (x >= day ==> !self.is_working(x as int)),
                        None => true,
                    },
            decreases n - i,
        {
            if let Some(d32) = parse_naive_date(excs[i].date.as_str(), "%Y-%m-%d") {
                let d = d32 as i64;
                if d >= day && self.is_working_day(d) {
                    return true;
                }
                if d > latest {
                    latest = d;
                }
            }
            i = i + 1;
        }
        proof {
            assert forall|w: int| #[trigger] self.exception_for(w) is Some implies w <= latest && (w >= day
                ==> !self.is_working(w)) by {
                lemma_latest_exception_listed(excs@, w);
                let a = choose|a: int|
                    0 <= a < excs@.len() && spec_parse_naive_date(#[trigger] excs@[a].date@, "%Y-%m-%d"@)
                        == Some(w as i32);
            }
        }
        let normal = self.inner.working_minutes_per_day();
        let mut k: usize = 0;
        while k < self.inner.working_days.len()
            invariant
                k <= self.inner.working_days.len(),
                normal == normal_day_minutes(self.definition()),
                forall|a: int| 0 <= a < k ==> self.inner.working_days[a] >= 7 || normal == 0,
                -0x4000_0000_0000_0000 <= day <= latest <= 0x4000_0000_0000_0000,
                forall|w: int| #[trigger] self.exception_for(w) is Some ==> w <= latest,
            decreases self.inner.working_days.len() - k,
        {
            let wd = self.inner.working_days[k];
            if wd < 7 && normal > 0 {
                proof {
                    let base: int = latest + 1;
                    let w: int = base + (wd - iso_weekday(base)) % 7;
                    assert(iso_weekday(w) == wd) by (nonlinear_arith)
                        requires
                            w == base + (wd - (base - 1) % 7) % 7,
                            0 <= wd < 7,
                    ;
                    assert(w >= base) by (nonlinear_arith)
                        requires
                            w == base + (wd - (base - 1) % 7) % 7,
                    ;
                    assert(w <= base + 6) by (nonlinear_arith)
                        requires
                            w == base + (wd - (base - 1) % 7) % 7,
                    ;
                    if self.exception_for(w) is Some {
                        assert(false);
                    }
                    assert(self.definition().working_days@[k as int] == iso_weekday(w) as u8);
                    assert(self.definition().working_days@.contains(iso_weekday(w) as u8));
                    assert(self.minutes_on(w) == normal);
                    assert(self.is_working(w));
                    assert(day <= w < i64::MAX);
                }
                return true;
            }
            k = k + 1;
        }
        proof {
            assert forall|w: int| day <= w < i64::MAX implies !self.is_working(w) by {
                match self.exception_for(w) {
                    Some(ex) => {},
                    None => {
                        if normal > 0 && self.definition().working_days@.contains(iso_weekday(w) as u8) {
                            let a = choose|a: int|
                                0 <= a < self.inner.working_days.len() && self.inner.working_days[a]
                                    == iso_weekday(w) as u8;
                            assert(0 <= iso_weekday(w) < 7) by (nonlinear_arith);
                        }
                    },
                }
            }
        }
        false
    }

    /// Start of work on `day`: the start time of the exception that overrides
    /// the day, else the calendar's start time; 08:00 when that is not a time
    /// of day.
    pub open spec fn work_start_on(self, day: int) -> int {
        let (h, m) = match self.exception_for(day) {
            Some(ex) => (ex.work_start_hour, ex.work_start_minute),
            None => (self.definition().work_start_hour, self.definition().work_start_minute),
        };
        if is_clock_time(h, m) {
            time_on_day(day, h as int, m as int)
        } else {
            time_on_day(day, 8, 0)
        }
    }

    /// End of work on `day`: the finish time of the exception that overrides the
    /// day, else the calendar's finish time; 17:00 when that is not a time of day.
    pub open spec fn work_finish_on(self, day: int) -> int {
        let (h, m) = match self.exception_for(day) {
            Some(ex) => (ex.work_finish_hour, ex.work_finish_minute),
            None => (self.definition().work_finish_hour, self.definition().work_finish_minute),
        };
        if is_clock_time(h, m) {
            time_on_day(day, h as int, m as int)
        } else {
            time_on_day(day, 17, 0)
        }
    }

    /// The start and the end of work on `day` both fall within `day`.
    pub proof fn lemma_work_times_in_day(self, day: int)
        ensures
            day_of(self.work_start_on(day)) == day,
            day_of(self.work_finish_on(day)) == day,
            day_start(day) <= self.work_start_on(day) < day_start(day + 1),
            day_start(day) <= self.work_finish_on(day) < day_start(day + 1),
    {
        let cal = self.definition();
        let (sh, sm) = match self.exception_for(day) {
            Some(ex) => (ex.work_start_hour, ex.work_start_minute),
            None => (cal.work_start_hour, cal.work_start_minute),
        };
        let (fh, fm) = match self.exception_for(day) {
            Some(ex) => (ex.work_finish_hour, ex.work_finish_minute),
            None => (cal.work_finish_hour, cal.work_finish_minute),
        };
        if is_clock_time(sh, sm) {
            lemma_day_of_time(day, sh as int, sm as int);
        } else {
            lemma_day_of_time(day, 8, 0);
        }
        if is_clock_time(fh, fm) {
            lemma_day_of_time(day, fh as int, fm as int);
        } else {
            lemma_day_of_time(day, 17, 0);
        }
        lemma_day_of_bounds(self.work_start_on(day));
        lemma_day_of_bounds(self.work_finish_on(day));
    }

    /// Start of work on `day` (see `work_start_on`).
    pub fn day_work_start(&self, day: i64) -> (r: i128)
        ensures
            r == self.work_start_on(day as int),
    {
        let (h, m) = match self.exception_slot(day) {
            Some(ex) => (ex.work_start_hour, ex.work_start_minute),
            None => (self.inner.work_start_hour, self.inner.work_start_minute),
        };
        if h < 24 && m < 60 {
            at_time_on_day(day, h as u32, m as u32)
        } else {
            at_time_on_day(day, 8, 0)
        }
    }

    /// Start of work on the first working day from `day` on.
    pub fn next_work_start(&self, day: i64) -> (r: i128)
        requires
            self.has_working_day_after(day as int),
        ensures
            exists|w: int|
                #![trigger self.is_working(w)]
                {
                    &&& day <= w < i64::MAX
                    &&& self.is_working(w)
                    &&& forall|x: int| day <= x < w ==> !self.is_working(x)
                    &&& r == self.work_start_on(w)
                },
    {
        let ghost w = choose|w: int| day <= w < i64::MAX && self.is_working(w);
        let mut d = day;
        while !self.is_working_day(d)
            invariant
                day <= d <= w < i64::MAX,
                self.is_working(w),
                forall|x: int| day <= x < d ==> !self.is_working(x),
            decreases w - d,
        {
            d = d + 1;
        }
        self.day_work_start(d)
    }

    /// End of work on `day` (see `work_finish_on`).
    pub fn day_work_finish(&self, day: i64) -> (r: i128)
        ensures
            r == self.work_finish_on(day as int),
    {
        let (h, m) = match self.exception_slot(day) {
            Some(ex) => (ex.work_finish_hour, ex.work_finish_minute),
            None => (self.inner.work_finish_hour, self.inner.work_finish_minute),
        };
        if h < 24 && m < 60 {
            at_time_on_day(day, h as u32, m as u32)
        } else {
            at_time_on_day(day, 17, 0)
        }
    }

    /// Work on a later day starts after every instant of an earlier day.
    proof fn lemma_work_start_after(self, t: int, w: int)
        requires
            day_of(t) < w,
        ensures
            t < self.work_start_on(w),
            day_of(self.work_start_on(w)) == w,
    {
        lemma_day_of_bounds(t);
        self.lemma_work_times_in_day(w);
        assert(day_start(day_of(t) + 1) <= day_start(w));
    }

    /// Where working time counts from on the day of `t`: `t`, or the day's
    /// start of work when `t` is earlier.
    pub open spec fn counted_from(self, t: int) -> int {
        let ws = self.work_start_on(day_of(t));
        if t < ws { ws } else { t }
    }

    /// The working time left on the day of `t`: the instant it counts from
    /// (`counted_from`) and the whole minutes from there to the day's end of
    /// work (none once that is past); `None` on a day without working time.
    pub fn work_left_on_day(&self, t: i128) -> (r: Option<(i128, i64)>)
        requires
            is_instant_value(t as int),
        ensures
            match r {
                Some((from, m)) => {
                    &&& self.is_working(day_of(t as int))
                    &&& from == self.counted_from(t as int)
                    &&& m == whole_minutes_between(from as int, self.work_finish_on(day_of(t as int)))
                },
                None => !self.is_working(day_of(t as int)),
            },
    {
        let day = date_of(t);
        if !self.is_working_day(day) {
            return None;
        }
        let ws = self.day_work_start(day);
        let finish = self.day_work_finish(day);
        proof {
            lemma_day_of_bounds(t as int);
            self.lemma_work_times_in_day(day as int);
        }
        let from = if t < ws { ws } else { t };
        Some((from, minutes_between(from, finish)))
    }

    /// Whole minutes of working time on `day` between `from` and `end`: from
    /// the later of `from` and the day's start of work to the earlier of `end`
    /// and the day's end of work.
    pub open spec fn minutes_counted(self, day: int, from: int, end: int) -> int {
        let ws = self.work_start_on(day);
        let finish = self.work_finish_on(day);
        whole_minutes_between(if from < ws { ws } else { from }, if finish < end { finish } else { end })
    }

    /// What a day after the first contributes: a working day whose work starts
    /// before `end` counts from its start of work; other days count nothing.
    pub open spec fn later_day_minutes(self, day: int, end: int) -> Seq<int> {
        if self.is_working(day) && self.work_start_on(day) < end {
            seq![self.minutes_counted(day, self.work_start_on(day), end)]
        } else {
            Seq::empty()
        }
    }

    /// The contributions of the days `first..=last`, in day order.
    pub open spec fn later_days_minutes(self, first: int, last: int, end: int) -> Seq<int>
        decreases last + 1 - first,
    {
        if last < first {
            Seq::empty()
        } else {
            self.later_days_minutes(first, last - 1, end) + self.later_day_minutes(last, end)
        }
    }

    /// The working minutes counted on each day from `start` to `end`, in day
    /// order: the day of `start`, if it works; then each later working day whose
    /// work starts before `end`. Each day counts the time within its working
    /// hours that lies between `start` and `end`.
    pub open spec fn minutes_by_day(self, start: int, end: int) -> Seq<int> {
        if end <= start {
            Seq::empty()
        } else {
            let d0 = day_of(start);
            let first = if self.is_working(d0) {
                seq![self.minutes_counted(d0, start, end)]
            } else {
                Seq::empty()
            };
            first + self.later_days_minutes(d0 + 1, day_of(end), end)
        }
    }

    /// The walk from `start` to `end` comes to an end: some working day after
    /// the first starts work at or after `end`, so that the search for the next
    /// working day always finds one.
    pub open spec fn walk_ends(self, start: int, end: int) -> bool {
        end <= start || exists|w: int|
            #![trigger self.is_working(w)]
            day_of(start) < w < i64::MAX && self.is_working(w) && self.work_start_on(w) >= end
    }

    proof fn lemma_later_days_stable(self, first: int, a: int, b: int, end: int)
        requires
            first <= a + 1,
            a <= b,
            forall|x: int| a < x <= b ==> #[trigger] self.later_day_minutes(x, end) == Seq::<int>::empty(),
        ensures
            self.later_days_minutes(first, b, end) == self.later_days_minutes(first, a, end),
        decreases b - a,
    {
        if b > a {
            self.lemma_later_days_stable(first, a, b - 1, end);
            assert(self.later_day_minutes(b, end) == Seq::<int>::empty());
            assert(self.later_days_minutes(first, b, end) =~= self.later_days_minutes(first, b - 1, end));
        }
    }

    /// The working minutes counted on each day from `start` to `end` (see
    /// `minutes_by_day`), found by walking from working day to working day;
    /// `None` exactly when that walk would not end (see `walk_ends`).
    pub fn working_minutes_by_day(&self, start: i128, end: i128) -> (r: Option<Vec<i64>>)
        requires
            is_instant_value(start as int),
            is_instant_value(end as int),
        ensures
            r is Some <==> self.walk_ends(start as int, end as int),
            r matches Some(v) ==> {
                &&& v@.len() == self.minutes_by_day(start as int, end as int).len()
                &&& forall|i: int| 0 <= i < v@.len() ==> v@[i] == self.minutes_by_day(start as int, end as int)[i]
            },
    {
        let mut out: Vec<i64> = Vec::new();
        if end <= start {
            return Some(out);
        }
        let ghost d0 = day_of(start as int);
        let ghost first: Seq<int> = if self.is_working(d0) {
            seq![self.minutes_counted(d0, start as int, end as int)]
        } else {
            Seq::empty()
        };
        let mut current: i128 = start;
        loop
            invariant
                start <= current < end,
                is_instant_value(start as int),
                is_instant_value(end as int),
                d0 == day_of(start as int),
                first == (if self.is_working(d0) {
                    seq![self.minutes_counted(d0, start as int, end as int)]
                } else {
                    Seq::<int>::empty()
                }),
                current == start ==> out@.len() == 0,
                current != start ==> {
                    &&& d0 < day_of(current as int)
                    &&& self.is_working(day_of(current as int))
                    &&& current == self.work_start_on(day_of(current as int))
                    &&& out@.len() == (first + self.later_days_minutes(d0 + 1, day_of(current as int) - 1, end as int)).len()
                    &&& forall|i: int| 0 <= i < out@.len() ==> out@[i] == (first + self.later_days_minutes(
                        d0 + 1,
                        day_of(current as int) - 1,
                        end as int,
                    ))[i]
                },
            decreases end - current,
        {
            let date = date_of(current);
            let ghost dc: int = date as int;
            // The day reached so far, with what it contributes.
            let ghost upto: int = if current == start { d0 } else { dc };
            if self.working_minutes_on_day(date) > 0 {
                let ws = self.day_work_start(date);
                let finish = self.day_work_finish(date);
                let from = if current < ws { ws } else { current };
                let stop = if finish < end { finish } else { end };
                proof {
                    lemma_day_of_bounds(current as int);
                    self.lemma_work_times_in_day(dc);
                }
                out.push(minutes_between(from, stop));
            }
            proof {
                let so_far: Seq<int> = if current == start {
                    first
                } else {
                    first + self.later_days_minutes(d0 + 1, dc, end as int)
                };
                if current != start {
                    assert(self.later_days_minutes(d0 + 1, dc, end as int) =~= self.later_days_minutes(
                        d0 + 1,
                        dc - 1,
                        end as int,
                    ) + self.later_day_minutes(dc, end as int));
                }
                assert(self.later_days_minutes(d0 + 1, d0, end as int) =~= Seq::<int>::empty());
                assert(so_far =~= first + self.later_days_minutes(d0 + 1, upto, end as int));
                assert(out@.len() == so_far.len());
                assert(forall|i: int| 0 <= i < out@.len() ==> out@[i] == so_far[i]);
            }
            if !self.has_working_day_from(date + 1) {
                proof {
                    if exists|w: int|
                        #![trigger self.is_working(w)]
                        d0 < w < i64::MAX && self.is_working(w) && self.work_start_on(w) >= end {
                        let w = choose|w: int|
                            #![trigger self.is_working(w)]
                            d0 < w < i64::MAX && self.is_working(w) && self.work_start_on(w) >= end;
                        assert(w <= dc);
                        if w < dc {
                            self.lemma_work_times_in_day(w);
                            self.lemma_work_start_after(self.work_start_on(w), dc);
                        }
                    }
                }
                return None;
            }
            let next = self.next_work_start(date + 1);
            let ghost w = choose|w: int|
                #![trigger self.is_working(w)]
                {
                    &&& date + 1 <= w < i64::MAX
                    &&& self.is_working(w)
                    &&& forall|x: int| date + 1 <= x < w ==> !self.is_working(x)
                    &&& next == self.work_start_on(w)
                };
            proof {
                self.lemma_work_start_after(current as int, w);
                assert forall|x: int| upto < x < w implies #[trigger] self.later_day_minutes(x, end as int)
                    == Seq::<int>::empty() by {
                    if dc < x {
                        assert(!self.is_working(x));
                    } else {
                        assert(current == start);
                        assert(false);
                    }
                }
                self.lemma_later_days_stable(d0 + 1, upto, w - 1, end as int);
            }
            if next >= end {
                proof {
                    assert(self.walk_ends(start as int, end as int));
                    lemma_day_of_bounds(end as int);
                    assert forall|x: int| w - 1 < x <= day_of(end as int) implies #[trigger] self.later_day_minutes(
                        x,
                        end as int,
                    ) == Seq::<int>::empty() by {
                        if x > w {
                            self.lemma_work_start_after(self.work_start_on(w), x);
                        }
                    }
                    if w - 1 <= day_of(end as int) {
                        self.lemma_later_days_stable(d0 + 1, w - 1, day_of(end as int), end as int);
                    } else {
                        assert(upto <= day_of(end as int)) by {
                            lemma_day_of_bounds(current as int);
                        }
                        self.lemma_later_days_stable(d0 + 1, upto, day_of(end as int), end as int);
                    }
                }
                return Some(out);
            }
            current = next;
        }
    }

    /// Building a calendar ignores exceptions whose date does not read: a
    /// calendar built without them agrees on every day's working time, start
    /// and end of work.
    pub proof fn lemma_new_ignores_unreadable_dates(self, other: Self, day: int)
        requires
            other.definition().exceptions@ == readable_exceptions(self.definition().exceptions@),
            other.definition().working_days@ == self.definition().working_days@,
            other.definition().work_start_hour == self.definition().work_start_hour,
            other.definition().work_start_minute == self.definition().work_start_minute,
            other.definition().work_finish_hour == self.definition().work_finish_hour,
            other.definition().work_finish_minute == self.definition().work_finish_minute,
        ensures
            self.exception_for(day) == other.exception_for(day),
            self.minutes_on(day) == other.minutes_on(day),
            self.work_start_on(day) == other.work_start_on(day),
            self.work_finish_on(day) == other.work_finish_on(day),
    {
        lemma_unreadable_exceptions_ignored(self.definition().exceptions@, day);
    }

    /// Whole minutes of `day`'s working hours that lie between `a` and `e`;
    /// none on a day without working time.
    pub open spec fn day_overlap(self, day: int, a: int, e: int) -> int {
        if self.is_working(day) {
            self.minutes_counted(day, a, e)
        } else {
            0
        }
    }

    /// The day overlaps of the days `lo..=hi`, added up.
    pub open spec fn overlap_sum(self, lo: int, hi: int, a: int, e: int) -> int
        decreases hi + 1 - lo,
    {
        if hi < lo {
            0
        } else {
            self.overlap_sum(lo, hi - 1, a, e) + self.day_overlap(hi, a, e)
        }
    }

    proof fn lemma_overlap_sum_first(self, lo: int, hi: int, a: int, e: int)
        requires
            lo <= hi,
        ensures
            self.overlap_sum(lo, hi, a, e) == self.day_overlap(lo, a, e) + self.overlap_sum(lo + 1, hi, a, e),
        decreases hi - lo,
    {
        if hi > lo {
            self.lemma_overlap_sum_first(lo, hi - 1, a, e);
        } else {
            assert(self.overlap_sum(lo, lo - 1, a, e) == 0);
            assert(self.overlap_sum(lo + 1, hi, a, e) == 0);
        }
    }

    /// Days at the high end that overlap nothing add nothing.
    proof fn lemma_overlap_sum_trim_high(self, lo: int, mid: int, hi: int, a: int, e: int)
        requires
            lo - 1 <= mid <= hi,
            forall|d: int| mid < d <= hi ==> #[trigger] self.day_overlap(d, a, e) == 0,
        ensures
            self.overlap_sum(lo, hi, a, e) == self.overlap_sum(lo, mid, a, e),
        decreases hi - mid,
    {
        if hi > mid {
            self.lemma_overlap_sum_trim_high(lo, mid, hi - 1, a, e);
            assert(self.day_overlap(hi, a, e) == 0);
        }
    }

    /// Days at the low end that overlap nothing add nothing.
    proof fn lemma_overlap_sum_trim_low(self, lo: int, mid: int, hi: int, a: int, e: int)
        requires
            lo <= mid <= hi + 1,
            forall|d: int| lo <= d < mid ==> #[trigger] self.day_overlap(d, a, e) == 0,
        ensures
            self.overlap_sum(lo, hi, a, e) == self.overlap_sum(mid, hi, a, e),
        decreases mid - lo,
    {
        if mid > lo {
            self.lemma_overlap_sum_first(lo, hi, a, e);
            assert(self.day_overlap(lo, a, e) == 0);
            self.lemma_overlap_sum_trim_low(lo + 1, mid, hi, a, e);
        }
    }

    proof fn lemma_later_total(self, first: int, last: int, a: int, e: int)
        requires
            day_of(a) < first,
        ensures
            minutes_total(self.later_days_minutes(first, last, e)) == self.overlap_sum(first, last, a, e),
        decreases last + 1 - first,
    {
        if last >= first {
            self.lemma_later_total(first, last - 1, a, e);
            lemma_total_concat(self.later_days_minutes(first, last - 1, e), self.later_day_minutes(last, e));
            lemma_day_of_bounds(a);
            self.lemma_work_times_in_day(last);
            assert(day_start(day_of(a) + 1) <= day_start(last));
            if self.is_working(last) && self.work_start_on(last) < e {
                lemma_total_single(self.minutes_counted(last, self.work_start_on(last), e));
            } else {
                assert(self.later_day_minutes(last, e) =~= Seq::<int>::empty());
            }
        }
    }

    /// The total of `minutes_by_day` is the sum of the day overlaps from the day
    /// of `a` to the day of `e`.
    proof fn lemma_by_day_total(self, a: int, e: int)
        requires
            a < e,
        ensures
            day_of(a) <= day_of(e),
            minutes_total(self.minutes_by_day(a, e)) == self.overlap_sum(day_of(a), day_of(e), a, e),
    {
        let d0 = day_of(a);
        let de = day_of(e);
        lemma_day_of_bounds(a);
        lemma_day_of_bounds(e);
        if d0 > de {
            assert(day_start(de + 1) <= day_start(d0));
        }
        let first = if self.is_working(d0) {
            seq![self.minutes_counted(d0, a, e)]
        } else {
            Seq::<int>::empty()
        };
        lemma_total_concat(first, self.later_days_minutes(d0 + 1, de, e));
        self.lemma_later_total(d0 + 1, de, a, e);
        self.lemma_overlap_sum_first(d0, de, a, e);
        if self.is_working(d0) {
            lemma_total_single(self.minutes_counted(d0, a, e));
        }
    }

    /// On one day, the working minutes between `a` and `e` are those between `a`
    /// and `b` and those between `b` and `e`, for instants on whole minutes.
    proof fn lemma_day_split(self, d: int, a: int, b: int, e: int)
        requires
            a <= b <= e,
            b % (NANOS_PER_MINUTE as int) == 0,
            a % (NANOS_PER_MINUTE as int) == 0 || e % (NANOS_PER_MINUTE as int) == 0,
        ensures
            self.day_overlap(d, a, e) == self.day_overlap(d, a, b) + self.day_overlap(d, b, e),
    {
        if self.is_working(d) {
            let ws = self.work_start_on(d);
            let f = self.work_finish_on(d);
            let cal = self.definition();
            let (sh, sm) = match self.exception_for(d) {
                Some(ex) => (ex.work_start_hour, ex.work_start_minute),
                None => (cal.work_start_hour, cal.work_start_minute),
            };
            let (fh, fm) = match self.exception_for(d) {
                Some(ex) => (ex.work_finish_hour, ex.work_finish_minute),
                None => (cal.work_finish_hour, cal.work_finish_minute),
            };
            if is_clock_time(sh, sm) {
                lemma_time_on_minute(d, sh as int, sm as int);
            } else {
                lemma_time_on_minute(d, 8, 0);
            }
            if is_clock_time(fh, fm) {
                lemma_time_on_minute(d, fh as int, fm as int);
            } else {
                lemma_time_on_minute(d, 17, 0);
            }
            // Working time counts from `x` to `y`; the split point `b` lies
            // before, inside or after that span.
            let x = if a < ws { ws } else { a };
            let y = if f < e { f } else { e };
            if x < b && b < y {
                lemma_whole_minutes_split(x, b, y);
            }
        }
    }

    proof fn lemma_overlap_sum_split(self, lo: int, hi: int, a: int, b: int, e: int)
        requires
            a <= b <= e,
            b % (NANOS_PER_MINUTE as int) == 0,
            a % (NANOS_PER_MINUTE as int) == 0 || e % (NANOS_PER_MINUTE as int) == 0,
        ensures
            self.overlap_sum(lo, hi, a, e) == self.overlap_sum(lo, hi, a, b) + self.overlap_sum(lo, hi, b, e),
        decreases hi + 1 - lo,
    {
        if hi >= lo {
            self.lemma_overlap_sum_split(lo, hi - 1, a, b, e);
            self.lemma_day_split(hi, a, b, e);
        }
    }

    /// Working time is additive: the working minutes counted from `a` to `e`
    /// are those counted from `a` to `b` and from `b` to `e` together, when `b`
    /// and at least one of `a` and `e` lie on whole minutes (with partial
    /// minutes on both sides of `b`, the two floored counts can fall a minute
    /// short).
    pub proof fn lemma_working_minutes_additive(self, a: int, b: int, e: int)
        requires
            a <= b <= e,
            b % (NANOS_PER_MINUTE as int) == 0,
            a % (NANOS_PER_MINUTE as int) == 0 || e % (NANOS_PER_MINUTE as int) == 0,
        ensures
            minutes_total(self.minutes_by_day(a, e)) == minutes_total(self.minutes_by_day(a, b))
                + minutes_total(self.minutes_by_day(b, e)),
    {
        if a < b && b < e {
            let (da, db, de) = (day_of(a), day_of(b), day_of(e));
            self.lemma_by_day_total(a, e);
            self.lemma_by_day_total(a, b);
            self.lemma_by_day_total(b, e);
            self.lemma_overlap_sum_split(da, de, a, b, e);
            lemma_day_of_bounds(b);
            assert forall|d: int| db < d <= de implies #[trigger] self.day_overlap(d, a, b) == 0 by {
                self.lemma_work_times_in_day(d);
                assert(day_start(db + 1) <= day_start(d));
            }
            self.lemma_overlap_sum_trim_high(da, db, de, a, b);
            assert forall|d: int| da <= d < db implies #[trigger] self.day_overlap(d, b, e) == 0 by {
                self.lemma_work_times_in_day(d);
                assert(day_start(d + 1) <= day_start(db));
            }
            self.lemma_overlap_sum_trim_low(da, db, de, b, e);
        } else if a == b {
            assert(minutes_total(self.minutes_by_day(a, b)) == 0);
        } else {
            assert(minutes_total(self.minutes_by_day(b, e)) == 0);
        }
    }

    /// Builds the runtime calendar; exception dates that do not read as
    /// `YYYY-MM-DD` are ignored, and of two exceptions on one day the later wins.
    pub fn new(cal: KernelCalendar) -> (r: Self)
        ensures
            r.definition() == cal,
    {
        let mut exceptions: HashMap<i64, CalendarException> = HashMap::new();
        let n = cal.exceptions.len();
        let mut i: usize = 0;
        while i < n
            invariant
                i <= n,
                n == cal.exceptions.len(),
                indexes_exceptions(exceptions@, cal.exceptions@.take(i as int)),
            decreases n - i,
        {
            let ghost prefix = cal.exceptions@.take(i as int);
            let ghost next = cal.exceptions@.take(i + 1);
            assert(next.drop_last() =~= prefix);
            let ex = &cal.exceptions[i];
            if let Some(d32) = parse_naive_date(ex.date.as_str(), "%Y-%m-%d") {
                let d = d32 as i64;
                let ghost before = exceptions@;
                exceptions.insert(d, ex.duplicate());
                proof {
                    assert forall|x: i64|
                        #![trigger exceptions@.contains_key(x)]
                        #![trigger latest_exception(next, x as int)]
                        latest_exception(next, x as int) == if exceptions@.contains_key(x) {
                            Some(exceptions@[x])
                        } else {
                            None::<CalendarException>
                        } by {
                        if x != d {
                            assert(x as i32 != d32 || !(-0x8000_0000 <= x < 0x8000_0000));
                            assert(latest_exception(next, x as int) == latest_exception(prefix, x as int));
                            assert(before.contains_key(x) == exceptions@.contains_key(x));
                        } else {
                            assert(latest_exception(next, x as int) == Some(*ex));
                        }
                    }
                }
            } else {
                assert forall|x: i64|
                    #![trigger exceptions@.contains_key(x)]
                    #![trigger latest_exception(next, x as int)]
                    latest_exception(next, x as int) == if exceptions@.contains_key(x) {
                        Some(exceptions@[x])
                    } else {
                        None::<CalendarException>
                    } by {
                    assert(latest_exception(next, x as int) == latest_exception(prefix, x as int));
                }
            }
            i = i + 1;
        }
        assert(cal.exceptions@.take(n as int) =~= cal.exceptions@);
        RuntimeCalendar { inner: cal, exceptions }
    }
}

fn contains_day(days: &Vec<u8>, wd: u8) -> (r: bool)
    ensures
        r == days@.contains(wd),
{
    let mut i: usize = 0;
    while i < days.len()
        invariant
            i <= days.len(),
            forall|a: int| 0 <= a < i ==> days[a] != wd,
        decreases days.len() - i,
    {
        if days[i] == wd {
            return true;
        }
        i = i + 1;
    }
    false
}

/// The standard calendar: Monday to Friday, 08:00 to 17:00 UTC, no exceptions.
pub fn default_calendar() -> (r: RuntimeCalendar)
    ensures
        r.definition().calendar_id@ == "__default__"@,
        r.definition().name@ == "Standard"@,
        r.definition().timezone@ == "UTC"@,
        r.definition().working_days@ == seq![0u8, 1u8, 2u8, 3u8, 4u8],
        r.definition().work_start_hour == 8,
        r.definition().work_start_minute == 0,
        r.definition().work_finish_hour == 17,
        r.definition().work_finish_minute == 0,
        r.definition().exceptions@.len() == 0,
{
    RuntimeCalendar::new(
        KernelCalendar {
            calendar_id: owned("__default__"),
            name: owned("Standard"),
            timezone: owned("UTC"),
            working_days: default_working_days(),
            work_start_hour: 8,
            work_start_minute: 0,
            work_finish_hour: 17,
            work_finish_minute: 0,
            exceptions: Vec::new(),
        },
    )
}


// ── Calendar lookup ──────────────────────────────────────────────────────────

/// The definition listed last under `id`.
pub open spec fn last_with_id(defs: Seq<KernelCalendar>, id: Seq<char>) -> Option<KernelCalendar>
    decreases defs.len(),
{
    if defs.len() == 0 {
        None
    } else if defs.last().calendar_id@ == id {
        Some(defs.last())
    } else {
        last_with_id(defs.drop_last(), id)
    }
}

/// `cal` is the standard calendar (see `default_calendar`).
pub open spec fn is_standard(cal: KernelCalendar) -> bool {
    &&& cal.calendar_id@ == "__default__"@
    &&& cal.name@ == "Standard"@
    &&& cal.timezone@ == "UTC"@
    &&& cal.working_days@ == seq![0u8, 1u8, 2u8, 3u8, 4u8]
    &&& cal.work_start_hour == 8
    &&& cal.work_start_minute == 0
    &&& cal.work_finish_hour == 17
    &&& cal.work_finish_minute == 0
    &&& cal.exceptions@.len() == 0
}

/// What a set built from `defs` with default id `did` holds under `key`:
/// `Some(Some(def))` for a definition (the last listed under that id),
/// `Some(None)` for the standard calendar, which is held under `__default__`
/// whenever no definition carries the default id, and `None` when nothing is held.
pub open spec fn calendar_entry(defs: Seq<KernelCalendar>, did: Seq<char>, key: Seq<char>) -> Option<
    Option<KernelCalendar>,
> {
    if key == "__default__"@ && last_with_id(defs, did) is None {
        Some(None)
    } else {
        match last_with_id(defs, key) {
            Some(d) => Some(Some(d)),
            None => None,
        }
    }
}

/// `cals` holds exactly the entries of a set built from `defs` with default
/// id `did`, one calendar per id.
spec fn holds_entries(cals: Seq<RuntimeCalendar>, defs: Seq<KernelCalendar>, did: Seq<char>) -> bool {
    &&& forall|i: int, j: int|
        0 <= i < j < cals.len() ==> (#[trigger] cals[i]).definition().calendar_id@
            != (#[trigger] cals[j]).definition().calendar_id@
    &&& forall|i: int|
        0 <= i < cals.len() ==> match calendar_entry(defs, did, (#[trigger] cals[i]).definition().calendar_id@) {
            Some(Some(d)) => cals[i].definition() == d,
            Some(None) => is_standard(cals[i].definition()),
            None => false,
        }
    &&& forall|key: Seq<char>|
        #[trigger] calendar_entry(defs, did, key) is Some ==> exists|i: int|
            0 <= i < cals.len() && (#[trigger] cals[i]).definition().calendar_id@ == key
}

/// The calendars of a request, looked up by id.
pub struct CalendarSet {
    calendars: Vec<RuntimeCalendar>,
    default_id: String,
    defs: Ghost<Seq<KernelCalendar>>,
}

impl CalendarSet {
    /// The definitions the set was built from.
    pub closed spec fn definitions(self) -> Seq<KernelCalendar> {
        self.defs@
    }

    /// The id that lookups without an id use.
    pub closed spec fn default_id(self) -> Seq<char> {
        self.default_id@
    }

    /// What the set holds under `key`: `Some(Some(def))` for a definition (the
    /// last listed under that id), `Some(None)` for the standard calendar, which
    /// is held under `__default__` whenever no definition carries the default
    /// id, and `None` when nothing is held.
    pub open spec fn entry(self, key: Seq<char>) -> Option<Option<KernelCalendar>> {
        calendar_entry(self.definitions(), self.default_id(), key)
    }

    /// What a lookup of `id` finds: the entry under `id` (the default id when
    /// none is given), else the entry under `__default__`.
    pub open spec fn lookup(self, id: Option<Seq<char>>) -> Option<Option<KernelCalendar>> {
        let key = match id {
            Some(k) => k,
            None => self.default_id(),
        };
        if self.entry(key) is Some {
            self.entry(key)
        } else {
            self.entry("__default__"@)
        }
    }

    #[verifier::type_invariant]
    closed spec fn wf(self) -> bool {
        holds_entries(self.calendars@, self.defs@, self.default_id@)
    }

    /// Builds the set: each calendar under its id (of two with one id, the
    /// later listed), and the standard calendar under `__default__` when no
    /// calendar carries the default id (`__default__` when none is given).
    pub fn new(defs: Vec<KernelCalendar>, default_calendar_id: Option<String>) -> (r: Self)
        ensures
            r.definitions() == defs@,
            r.default_id() == (match default_calendar_id {
                Some(s) => s@,
                None => "__default__"@,
            }),
    {
        let ghost all = defs@;
        let mut rest = defs;
        let mut cals: Vec<RuntimeCalendar> = Vec::new();
        while rest.len() > 0
            invariant
                all.len() >= rest@.len(),
                rest@ == all.take(rest@.len() as int),
                forall|i: int, j: int|
                    0 <= i < j < cals.len() ==> (#[trigger] cals[i]).definition().calendar_id@
                        != (#[trigger] cals[j]).definition().calendar_id@,
                forall|i: int|
                    0 <= i < cals.len() ==> last_with_id(all, (#[trigger] cals[i]).definition().calendar_id@)
                        == Some(cals[i].definition()),
                forall|id: Seq<char>|
                    (forall|i: int| 0 <= i < cals.len() ==> (#[trigger] cals[i]).definition().calendar_id@ != id)
                        ==> #[trigger] last_with_id(all, id) == last_with_id(rest@, id),
            decreases rest@.len(),
        {
            let ghost before = rest@;
            let def = rest.pop().unwrap();
            proof {
                assert(rest@ =~= before.drop_last());
                assert(rest@ == all.take(rest@.len() as int)) by {
                    assert(all.take(rest@.len() as int) =~= all.take(before.len() as int).drop_last());
                }
                assert forall|id: Seq<char>| id != def.calendar_id@ implies last_with_id(before, id)
                    == last_with_id(rest@, id) by {}
                assert(last_with_id(before, def.calendar_id@) == Some(def));
            }
            let found = find_calendar(&cals, def.calendar_id.as_str());
            if found.is_none() {
                let ghost cals_before = cals@;
                cals.push(RuntimeCalendar::new(def));
                proof {
                    let n = cals.len() - 1;
                    assert(cals[n].definition() == before.last());
                    assert forall|i: int| 0 <= i < cals.len() implies last_with_id(
                        all,
                        (#[trigger] cals[i]).definition().calendar_id@,
                    ) == Some(cals[i].definition()) by {
                        if i < n {
                            assert(cals[i] == cals_before[i]);
                        } else {
                            assert(forall|j: int|
                                0 <= j < cals_before.len() ==> (#[trigger] cals_before[j]).definition().calendar_id@
                                    != def.calendar_id@);
                            assert(last_with_id(all, def.calendar_id@) == last_with_id(before, def.calendar_id@));
                        }
                    }
                    assert forall|id: Seq<char>|
                        (forall|i: int| 0 <= i < cals.len() ==> (#[trigger] cals[i]).definition().calendar_id@ != id)
                            implies #[trigger] last_with_id(all, id) == last_with_id(rest@, id) by {
                        assert(cals[n].definition().calendar_id@ != id);
                        assert forall|i: int| 0 <= i < cals_before.len() implies (
                        #[trigger] cals_before[i]).definition().calendar_id@ != id by {
                            assert(cals[i] == cals_before[i]);
                        }
                    }
                    assert forall|i: int, j: int|
                        0 <= i < j < cals.len() implies (#[trigger] cals[i]).definition().calendar_id@
                            != (#[trigger] cals[j]).definition().calendar_id@ by {
                        assert(cals[i] == cals_before[i]);
                        if j < n {
                            assert(cals[j] == cals_before[j]);
                        }
                    }
                }
            } else {
                proof {
                    let k = found->0;
                    assert forall|id: Seq<char>|
                        (forall|i: int| 0 <= i < cals.len() ==> (#[trigger] cals[i]).definition().calendar_id@ != id)
                            implies #[trigger] last_with_id(all, id) == last_with_id(rest@, id) by {
                        assert(cals[k as int].definition().calendar_id@ != id);
                    }
                }
            }
        }
        proof {
            assert(rest@.len() == 0);
            assert forall|id: Seq<char>| #[trigger] last_with_id(rest@, id) is None by {}
        }
        let default_id = match default_calendar_id {
            Some(s) => s,
            None => owned("__default__"),
        };
        let has_default = find_calendar(&cals, default_id.as_str());
        let ghost cals_mid = cals@;
        let ghost slot_at: int = -1;
        if has_default.is_none() {
            // The standard calendar goes under `__default__`, replacing any there.
            match find_calendar(&cals, "__default__") {
                Some(j) => {
                    cals.set(j, default_calendar());
                    proof {
                        slot_at = j as int;
                    }
                },
                None => {
                    cals.push(default_calendar());
                    proof {
                        slot_at = cals.len() - 1;
                    }
                },
            }
        }
        proof {
            reveal_strlit("__default__");
            if has_default is Some {
                let k = has_default->0;
                assert(last_with_id(all, default_id@) is Some) by {
                    assert(cals_mid[k as int].definition().calendar_id@ == default_id@);
                }
                assert(cals@ == cals_mid);
                assert forall|key: Seq<char>| #[trigger] calendar_entry(all, default_id@, key) is Some implies exists|i: int|
                    0 <= i < cals.len() && (#[trigger] cals[i]).definition().calendar_id@ == key by {
                    if forall|i: int| 0 <= i < cals.len() ==> (#[trigger] cals[i]).definition().calendar_id@ != key {
                        assert(last_with_id(all, key) == last_with_id(rest@, key));
                    }
                }
            } else {
                assert(last_with_id(all, default_id@) is None) by {
                    assert(last_with_id(all, default_id@) == last_with_id(rest@, default_id@));
                }
                assert(0 <= slot_at < cals.len());
                assert(is_standard(cals[slot_at].definition()));
                assert forall|i: int| 0 <= i < cals.len() && i != slot_at implies (#[trigger] cals[i]) == cals_mid[i]
                    && cals[i].definition().calendar_id@ != "__default__"@ by {}
                assert forall|key: Seq<char>| #[trigger] calendar_entry(all, default_id@, key) is Some implies exists|i: int|
                    0 <= i < cals.len() && (#[trigger] cals[i]).definition().calendar_id@ == key by {
                    if key == "__default__"@ {
                        assert(cals[slot_at].definition().calendar_id@ == key);
                    } else {
                        if forall|i: int| 0 <= i < cals_mid.len() ==> (#[trigger] cals_mid[i]).definition().calendar_id@ != key {
                            assert(last_with_id(all, key) == last_with_id(rest@, key));
                        }
                        let i = choose|i: int|
                            0 <= i < cals_mid.len() && (#[trigger] cals_mid[i]).definition().calendar_id@ == key;
                        assert(i != slot_at);
                        assert(cals[i].definition().calendar_id@ == key);
                    }
                }
                assert forall|i: int, j: int|
                    0 <= i < j < cals.len() implies (#[trigger] cals[i]).definition().calendar_id@
                        != (#[trigger] cals[j]).definition().calendar_id@ by {
                    if i != slot_at && j != slot_at {
                        assert(cals_mid[i] == cals[i] && cals_mid[j] == cals[j]);
                    }
                }
            }
            assert(holds_entries(cals@, all, default_id@));
        }
        let r = CalendarSet { calendars: cals, default_id, defs: Ghost(all) };
        r
    }

    /// The calendar a lookup of `id` finds (see `lookup`); `None` when there is
    /// none, which happens only when a calendar carries the default id and
    /// neither `id` nor `__default__` is held.
    pub fn get(&self, id: Option<&str>) -> (r: Option<&RuntimeCalendar>)
        ensures
            match r {
                Some(c) => match self.lookup(opt_str_view(id)) {
                    Some(Some(d)) => c.definition() == d,
                    Some(None) => is_standard(c.definition()),
                    None => false,
                },
                None => self.lookup(opt_str_view(id)) is None,
            },
    {
        proof {
            use_type_invariant(self);
        }
        let key: &str = match id {
            Some(k) => k,
            None => self.default_id.as_str(),
        };
        match self.position(key) {
            Some(i) => Some(&self.calendars[i]),
            None => match self.position("__default__") {
                Some(i) => Some(&self.calendars[i]),
                None => None,
            },
        }
    }

    fn position(&self, key: &str) -> (r: Option<usize>)
        ensures
            match r {
                Some(i) => i < self.calendars.len() && self.calendars[i as int].definition().calendar_id@ == key@
                    && self.entry(key@) is Some,
                None => self.entry(key@) is None,
            },
    {
        proof {
            use_type_invariant(self);
        }
        let r = find_calendar(&self.calendars, key);
        proof {
            if let Some(k) = r {
                assert(self.entry(self.calendars[k as int].definition().calendar_id@) is Some);
            } else if self.entry(key@) is Some {
                let i = choose|i: int|
                    0 <= i < self.calendars.len() && (#[trigger] self.calendars[i]).definition().calendar_id@ == key@;
            }
        }
        r
    }
}

fn find_calendar(cals: &Vec<RuntimeCalendar>, id: &str) -> (r: Option<usize>)
    ensures
        match r {
            Some(k) => k < cals.len() && cals[k as int].definition().calendar_id@ == id@,
            None => forall|i: int| 0 <= i < cals.len() ==> (#[trigger] cals[i]).definition().calendar_id@ != id@,
        },
{
    let mut k: usize = 0;
    while k < cals.len()
        invariant
            k <= cals.len(),
            forall|i: int| 0 <= i < k ==> (#[trigger] cals[i]).definition().calendar_id@ != id@,
        decreases cals.len() - k,
    {
        if same_text(cals[k].id(), id) {
            return Some(k);
        }
        k = k + 1;
    }
    None
}

/// The text of an optional `&str`.
pub open spec fn opt_str_view(o: Option<&str>) -> Option<Seq<char>> {
    match o {
        Some(s) => Some(s@),
        None => None,
    }
}

} // verus!
