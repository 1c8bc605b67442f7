//! Civil timestamps with a local-timezone offset, and signed durations.
//!
//! A [`Timestamp`] carries the wall-clock fields a user sees (year through
//! second, plus sub-second nanoseconds) together with the UTC offset that was
//! in effect, so an instant is recovered exactly. A [`Duration`] is a signed
//! count of nanoseconds; subtracting one timestamp from another compares the
//! instants they denote, not their wall-clock fields.

use chrono::{Datelike, Offset, Timelike};
use vstd::prelude::*;

verus! {

/// One instant of civil time: date and time-of-day fields plus the
/// local-timezone offset (in seconds east of UTC) they are expressed in.
#[derive(Clone, Copy, PartialEq, Eq, Structural, Debug)]
pub struct Timestamp {
    pub year: i32,
    pub month: u8,
    pub day: u8,
    pub hour: u8,
    pub minute: u8,
    pub second: u8,
    /// Sub-second nanoseconds; values of `1_000_000_000` and above encode a
    /// leap second within the preceding second.
    pub nanos: u32,
    /// Seconds east of UTC; strictly between minus and plus one day.
    pub offset_secs: i32,
}

/// A signed span of time, counted in nanoseconds.
#[derive(Clone, Copy, PartialEq, Eq, Structural, Debug)]
pub struct Duration {
    pub nanos: i128,
}

/// Whether `year` is a leap year of the proleptic Gregorian calendar.
pub open spec fn is_leap_year(year: int) -> bool {
    year % 4 == 0 && (year % 100 != 0 || year % 400 == 0)
}

/// Number of days in the given month of the given year.
pub open spec fn days_in_month(year: int, month: int) -> int {
    if month == 2 {
        if is_leap_year(year) { 29 } else { 28 }
    } else if month == 4 || month == 6 || month == 9 || month == 11 {
        30
    } else {
        31
    }
}

/// Days since 1970-01-01 of the civil date `year-month-day`, for the
/// proleptic Gregorian calendar. The year is shifted by 400_400 years — a
/// multiple of the 400-year leap cycle — so that every division below acts
/// on nonnegative values; the matching 1001 eras of 146_097 days each are
/// taken back off at the end, together with the 719_468 days from the
/// cycle start 0000-03-01 to the epoch.
pub open spec fn days_from_civil(year: int, month: int, day: int) -> int {
    let yy = (if month <= 2 { year - 1 } else { year }) + 400_400;
    let era = yy / 400;
    let yoe = yy % 400;
    let mp = if month <= 2 { month + 9 } else { month - 3 };
    let doy = (153 * mp + 2) / 5 + day - 1;
    let doe = yoe * 365 + yoe / 4 - yoe / 100 + doy;
    era * 146_097 + doe - 719_468 - 146_243_097
}

/// Seconds since the epoch 1970-01-01T00:00:00 UTC of the instant `t`
/// denotes (its wall-clock fields minus its UTC offset).
pub open spec fn epoch_secs(t: Timestamp) -> int {
    days_from_civil(t.year as int, t.month as int, t.day as int) * 86_400 + t.hour * 3600
        + t.minute * 60 + t.second - t.offset_secs
}

/// Nanoseconds since the epoch of the instant `t` denotes.
pub open spec fn epoch_nanos(t: Timestamp) -> int {
    epoch_secs(t) * 1_000_000_000 + t.nanos
}

impl Timestamp {
    /// The fields form a real calendar date and time.
    pub open spec fn valid(self) -> bool {
        &&& -400_000 <= self.year <= 400_000
        &&& 1 <= self.month <= 12
        &&& 1 <= self.day <= days_in_month(self.year as int, self.month as int)
        &&& self.hour < 24
        &&& self.minute < 60
        &&& self.second < 60
        &&& self.nanos < 2_000_000_000
        &&& -86_400 < self.offset_secs < 86_400
    }

    /// Builds a timestamp from its fields, or returns `None` when they do
    /// not form a real calendar date and time.
    pub fn new(
        year: i32,
        month: u8,
        day: u8,
        hour: u8,
        minute: u8,
        second: u8,
        nanos: u32,
        offset_secs: i32,
    ) -> (r: Option<Timestamp>)
        ensures
            match r {
                Some(t) => t.valid() && t == (Timestamp {
                    year,
                    month,
                    day,
                    hour,
                    minute,
                    second,
                    nanos,
                    offset_secs,
                }),
                None => !(Timestamp {
                    year,
                    month,
                    day,
                    hour,
                    minute,
                    second,
                    nanos,
                    offset_secs,
                }).valid(),
            },
    {
        let t = Timestamp { year, month, day, hour, minute, second, nanos, offset_secs };
        if -400_000 <= year && year <= 400_000 && 1 <= month && month <= 12 && 1 <= day && day
            <= days_in_month_exec(year, month) && hour < 24 && minute < 60 && second < 60 && nanos
            < 2_000_000_000 && -86_400 < offset_secs && offset_secs < 86_400 {
            Some(t)
        } else {
            None
        }
    }

    /// Nanoseconds since the epoch of the instant this timestamp denotes.
    pub fn to_epoch_nanos(&self) -> (n: i128)
        requires
            self.valid(),
        ensures
            n == epoch_nanos(*self),
    {
        let base: i64 = if self.month <= 2 { self.year as i64 - 1 } else { self.year as i64 };
        assert(base + 400_400 >= 0);
        let yy: u64 = (base + 400_400) as u64;
        let era: u64 = yy / 400;
        let yoe: u64 = yy % 400;
        let mp: u64 = if self.month <= 2 { self.month as u64 + 9 } else { self.month as u64 - 3 };
        let doy: u64 = (153 * mp + 2) / 5 + self.day as u64 - 1;
        let doe: u64 = yoe * 365 + yoe / 4 - yoe / 100 + doy;
        assert(yoe * 365 <= 399 * 365) by (nonlinear_arith)
            requires
                yoe <= 399,
        ;
        assert(era <= 2002) by (nonlinear_arith)
            requires
                era == yy / 400,
                yy <= 800_401,
        ;
        assert(era * 146_097 <= 2002 * 146_097) by (nonlinear_arith)
            requires
                era <= 2002,
        ;
        let days: i64 = (era * 146_097 + doe) as i64 - 719_468 - 146_243_097;
        let secs: i64 = days * 86_400 + self.hour as i64 * 3600 + self.minute as i64 * 60
            + self.second as i64 - self.offset_secs as i64;
        secs as i128 * 1_000_000_000 + self.nanos as i128
    }

    /// The span from `earlier` to `self`, as a signed duration between the
    /// instants the two timestamps denote. Negative when `self` denotes the
    /// earlier instant.
    pub fn since(&self, earlier: &Timestamp) -> (d: Duration)
        requires
            self.valid(),
            earlier.valid(),
        ensures
            d.nanos == epoch_nanos(*self) - epoch_nanos(*earlier),
    {
        let a = self.to_epoch_nanos();
        let b = earlier.to_epoch_nanos();
        proof {
            lemma_epoch_nanos_bounded(*self);
            lemma_epoch_nanos_bounded(*earlier);
        }
        Duration { nanos: a - b }
    }
}

/// The epoch count of a valid timestamp is small against the range of
/// 128-bit arithmetic, so differences of two of them never overflow.
pub proof fn lemma_epoch_nanos_bounded(t: Timestamp)
    requires
        t.valid(),
    ensures
        -1_000_000_000_000_000_000_000_000_000 < epoch_nanos(t)
            < 1_000_000_000_000_000_000_000_000_000,
{
    let y = t.year as int;
    let m = t.month as int;
    let d = t.day as int;
    let yy = (if m <= 2 { y - 1 } else { y }) + 400_400;
    assert(0 <= yy <= 800_401);
    assert(0 <= yy / 400 <= 2002) by (nonlinear_arith)
        requires
            0 <= yy <= 800_401,
    ;
    assert(0 <= yy % 400 < 400);
    assert((yy % 400) * 365 <= 399 * 365) by (nonlinear_arith)
        requires
            0 <= yy % 400 < 400,
    ;
    assert((yy / 400) * 146_097 <= 2002 * 146_097) by (nonlinear_arith)
        requires
            0 <= yy / 400 <= 2002,
    ;
    let days = days_from_civil(y, m, d);
    assert(-300_000_000 < days < 300_000_000);
    let secs = epoch_secs(t);
    assert(-30_000_000_000_000 < secs < 30_000_000_000_000);
    assert(secs * 1_000_000_000 <= 30_000_000_000_000 * 1_000_000_000) by (nonlinear_arith)
        requires
            secs < 30_000_000_000_000,
    ;
    assert(secs * 1_000_000_000 >= (-30_000_000_000_000) * 1_000_000_000) by (nonlinear_arith)
        requires
            secs > -30_000_000_000_000,
    ;
}

/// Whether `year` is a leap year of the proleptic Gregorian calendar.
pub fn is_leap_year_exec(year: i32) -> (r: bool)
    ensures
        r == is_leap_year(year as int),
{
    year % 4 == 0 && (year % 100 != 0 || year % 400 == 0)
}

/// Number of days in the given month of the given year.
pub fn days_in_month_exec(year: i32, month: u8) -> (r: u8)
    ensures
        r as int == days_in_month(year as int, month as int),
{
    if month == 2 {
        if is_leap_year_exec(year) {
            29
        } else {
            28
        }
    } else if month == 4 || month == 6 || month == 9 || month == 11 {
        30
    } else {
        31
    }
}

/// Relies on `chrono::Local::now` and the `Datelike`/`Timelike`/`Offset`
/// accessors: the current local wall-clock time is handed back as civil
/// fields in their documented ranges, together with the local UTC offset.
#[verifier::external_body]
pub(crate) fn now_local() -> (t: Timestamp)
    ensures
        t.valid(),
{
    let n = chrono::Local::now();
    Timestamp {
        year: n.year(),
        month: n.month() as u8,
        day: n.day() as u8,
        hour: n.hour() as u8,
        minute: n.minute() as u8,
        second: n.second() as u8,
        nanos: n.nanosecond(),
        offset_secs: n.offset().fix().local_minus_utc(),
    }
}

} // verus!
