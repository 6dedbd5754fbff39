//! Calendar dates, weekdays and moments in time, and the local clock and
//! time zone that chrono provides.
use crate::text::{digit_char, digit_str};
use vstd::string::*;
use chrono::{Datelike, Local, TimeZone};
use vstd::prelude::*;

verus! {

pub const NANOS_PER_SEC: i128 = 1_000_000_000;

pub const NANOS_PER_DAY: i128 = 86_400_000_000_000;

/// A moment as the local clock gives it: the local calendar date, and the
/// instant as whole seconds since the Unix epoch plus nanoseconds.
#[derive(Clone, Copy, Debug, PartialEq, Eq, Structural)]
pub struct Moment {
    pub year: i32,
    pub month: u32,
    pub day: u32,
    pub secs: i64,
    pub nanos: u32,
}

/// Nanoseconds since the Unix epoch of the instant `secs` + `nanos`.
pub open spec fn instant_of(secs: i64, nanos: u32) -> int {
    secs * NANOS_PER_SEC + nanos
}

/// Nanoseconds since the Unix epoch, computed without overflow.
pub fn nanos_since_epoch(secs: i64, nanos: u32) -> (r: i128)
    ensures
        r == instant_of(secs, nanos),
{
    assert(-0x8000_0000_0000_0000 * 1_000_000_000 <= secs * 1_000_000_000
        <= 0x7fff_ffff_ffff_ffff * 1_000_000_000) by (nonlinear_arith)
        requires
            -0x8000_0000_0000_0000 <= secs <= 0x7fff_ffff_ffff_ffff,
    ;
    (secs as i128) * NANOS_PER_SEC + (nanos as i128)
}

impl Moment {
    pub open spec fn instant(self) -> int {
        instant_of(self.secs, self.nanos)
    }
}

/// A day of the week.
#[derive(Clone, Copy, Debug, PartialEq, Eq, Structural)]
pub enum Weekday {
    Mon,
    Tue,
    Wed,
    Thu,
    Fri,
    Sat,
    Sun,
}

/// The weekday that is `i` days after Monday, for `i` below 7.
pub open spec fn weekday_at(i: nat) -> Weekday {
    if i == 0 {
        Weekday::Mon
    } else if i == 1 {
        Weekday::Tue
    } else if i == 2 {
        Weekday::Wed
    } else if i == 3 {
        Weekday::Thu
    } else if i == 4 {
        Weekday::Fri
    } else if i == 5 {
        Weekday::Sat
    } else {
        Weekday::Sun
    }
}

/// The three-letter English name of a weekday.
pub open spec fn abbreviation_of(w: Weekday) -> Seq<char> {
    match w {
        Weekday::Mon => "Mon"@,
        Weekday::Tue => "Tue"@,
        Weekday::Wed => "Wed"@,
        Weekday::Thu => "Thu"@,
        Weekday::Fri => "Fri"@,
        Weekday::Sat => "Sat"@,
        Weekday::Sun => "Sun"@,
    }
}

impl Weekday {
    /// The weekday `i` days after Monday.
    pub fn from_index(i: u32) -> (r: Weekday)
        requires
            i < 7,
        ensures
            r == weekday_at(i as nat),
    {
        if i == 0 {
            Weekday::Mon
        } else if i == 1 {
            Weekday::Tue
        } else if i == 2 {
            Weekday::Wed
        } else if i == 3 {
            Weekday::Thu
        } else if i == 4 {
            Weekday::Fri
        } else if i == 5 {
            Weekday::Sat
        } else {
            Weekday::Sun
        }
    }

    /// The three-letter English name, as in `Fri`.
    pub fn abbreviation(&self) -> (r: &'static str)
        ensures
            r@ == abbreviation_of(*self),
    {
        match self {
            Weekday::Mon => "Mon",
            Weekday::Tue => "Tue",
            Weekday::Wed => "Wed",
            Weekday::Thu => "Thu",
            Weekday::Fri => "Fri",
            Weekday::Sat => "Sat",
            Weekday::Sun => "Sun",
        }
    }
}

/// Leap years of the proleptic Gregorian calendar.
pub open spec fn is_leap_year(y: int) -> bool {
    (y % 4 == 0 && y % 100 != 0) || y % 400 == 0
}

pub open spec fn days_in_month(y: int, m: int) -> int {
    if m == 2 {
        if is_leap_year(y) {
            29
        } else {
            28
        }
    } else if m == 4 || m == 6 || m == 9 || m == 11 {
        30
    } else {
        31
    }
}

/// Whether day `d` of month `m` exists in year `y`.
pub open spec fn is_valid_date(y: int, m: int, d: int) -> bool {
    1 <= m <= 12 && 1 <= d <= days_in_month(y, m)
}

/// Whether day `day` of month `month` exists in year `year`.
pub fn valid_date(year: i32, month: u32, day: u32) -> (r: bool)
    ensures
        r == is_valid_date(year as int, month as int, day as int),
{
    if month < 1 || month > 12 || day < 1 {
        return false;
    }
    let leap = (year % 4 == 0 && year % 100 != 0) || year % 400 == 0;
    let last: u32 = if month == 2 {
        if leap {
            29
        } else {
            28
        }
    } else if month == 4 || month == 6 || month == 9 || month == 11 {
        30
    } else {
        31
    };
    day <= last
}

/// The two-digit, zero-padded decimal text of `n`, below 100.
pub open spec fn two_digits(n: nat) -> Seq<char> {
    seq![digit_char(n / 10), digit_char(n % 10)]
}

/// The date as `DD/MM`, both zero-padded.
pub open spec fn day_month_text(day: nat, month: nat) -> Seq<char> {
    two_digits(day) + "/"@ + two_digits(month)
}

/// The date as `DD/MM`, both zero-padded.
pub fn day_month(day: u32, month: u32) -> (r: String)
    requires
        day < 100,
        month < 100,
    ensures
        r@ == day_month_text(day as nat, month as nat),
{
    let mut r = String::new();
    r.append(digit_str(day / 10));
    r.append(digit_str(day % 10));
    r.append("/");
    r.append(digit_str(month / 10));
    r.append(digit_str(month % 10));
    assert(r@ =~= day_month_text(day as nat, month as nat));
    r
}

/// Days from 1970-01-01 to the given date of the proleptic Gregorian
/// calendar (negative before it), by eras of 400 years.
pub open spec fn days_from_civil(year: int, month: int, day: int) -> int {
    let y = if month <= 2 {
        year - 1
    } else {
        year
    };
    let era = y / 400;
    let yoe = y - era * 400;
    let mp = if month > 2 {
        month - 3
    } else {
        month + 9
    };
    let doy = (153 * mp + 2) / 5 + day - 1;
    let doe = yoe * 365 + yoe / 4 - yoe / 100 + doy;
    era * 146097 + doe - 719468
}

/// The weekday of a calendar date, as a count of days after Monday:
/// 1970-01-01 was a Thursday.
pub open spec fn weekday_of(year: int, month: int, day: int) -> nat {
    ((days_from_civil(year, month, day) + 3) % 7) as nat
}

/// Seconds from the epoch to midnight UTC of the given date.
pub open spec fn midnight_utc_secs(year: int, month: int, day: int) -> int {
    86400 * days_from_civil(year, month, day)
}

/// Whether the instant of `m` can be a moment of its local date: local time
/// is the instant plus an offset strictly within a day either way, and falls
/// within that date.
pub open spec fn moment_fits_date(m: Moment) -> bool {
    let d = midnight_utc_secs(m.year as int, m.month as int, m.day as int);
    -86400 < m.secs - d < 2 * 86400
}

/// Relies on chrono's `Local::now` and its `Datelike` accessors: the current
/// local date, and the instant as seconds and nanoseconds since the epoch.
/// Month and day stay within the ranges that chrono documents. chrono's
/// `timestamp` is the local date and time less the offset, and a
/// `FixedOffset` lies strictly between -86400 and 86400 seconds.
#[verifier::external_body]
pub(crate) fn local_now() -> (r: Moment)
    ensures
        1 <= r.month <= 12,
        1 <= r.day <= 31,
        moment_fits_date(r),
{
    let now = Local::now();
    Moment {
        year: now.year(),
        month: now.month(),
        day: now.day(),
        secs: now.timestamp(),
        nanos: now.timestamp_subsec_nanos(),
    }
}

/// Relies on chrono's `Local.with_ymd_and_hms(year, month, day, 0, 0, 0)`
/// with `single`: the instant of local midnight on that date, as seconds and
/// nanoseconds since the epoch, and its weekday from `num_days_from_monday`.
/// chrono returns nothing for a date that does not exist; it may also return
/// nothing where the local time zone skips or repeats that midnight. The
/// instant is local midnight less the offset, which lies strictly between
/// -86400 and 86400 seconds, with no fraction of a second.
#[verifier::external_body]
pub(crate) fn local_midnight(year: i32, month: u32, day: u32) -> (r: Option<(i64, u32, u32)>)
    ensures
        r is Some ==> is_valid_date(year as int, month as int, day as int),
        match r {
            Some((s, n, w)) => {
                &&& w == weekday_of(year as int, month as int, day as int)
                &&& n == 0
                &&& -86400 < s - midnight_utc_secs(year as int, month as int, day as int) < 86400
            },
            None => true,
        },
{
    match Local.with_ymd_and_hms(year, month, day, 0, 0, 0).single() {
        Some(t) => Some((t.timestamp(), t.timestamp_subsec_nanos(), t.weekday().num_days_from_monday())),
        None => None,
    }
}

} // verus!
