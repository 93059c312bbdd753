//! Calendar date and time of day of a Unix timestamp, for log lines.

use vstd::prelude::*;

verus! {

/// A leap year of the Gregorian calendar.
pub open spec fn is_leap(y: int) -> bool {
    y % 4 == 0 && (y % 100 != 0 || y % 400 == 0)
}

/// The number of days of year `y`.
pub open spec fn year_len(y: int) -> int {
    if is_leap(y) {
        366
    } else {
        365
    }
}

/// The number of days of month `m` (1 to 12) of year `y`.
pub open spec fn month_len(y: int, m: int) -> int {
    if m == 2 {
        if is_leap(y) {
            29
        } else {
            28
        }
    } else if m == 4 || m == 6 || m == 9 || m == 11 {
        30
    } else {
        31
    }
}

/// Days from 1970-01-01 to January 1 of year `y` (from 1970 on).
pub open spec fn days_to_year(y: int) -> int
    decreases y - 1970,
{
    if y <= 1970 {
        0
    } else {
        days_to_year(y - 1) + year_len(y - 1)
    }
}

/// Days from January 1 to the first day of month `m` of year `y`.
pub open spec fn days_to_month(y: int, m: int) -> int
    decreases m,
{
    if m <= 1 {
        0
    } else {
        days_to_month(y, m - 1) + month_len(y, m - 1)
    }
}

/// `y-m-d` is a date from 1970 on, and it is `days` days after 1970-01-01.
pub open spec fn is_civil_date(days: int, y: int, m: int, d: int) -> bool {
    &&& y >= 1970
    &&& 1 <= m <= 12
    &&& 1 <= d <= month_len(y, m)
    &&& days_to_year(y) + days_to_month(y, m) + d - 1 == days
}

/// The date and time of day, in UTC, of a moment after 1970-01-01.
#[derive(Debug, Clone, Copy, PartialEq, Eq, Structural)]
pub struct CivilTime {
    pub year: i64,
    pub month: u64,
    pub day: u64,
    pub hour: u64,
    pub minute: u64,
    pub second: u64,
    pub millis: u32,
}

/// Leap years below `x` counted from year 1, by the Gregorian rules.
spec fn leaps_through(x: int) -> int {
    x / 4 - x / 100 + x / 400
}

proof fn lemma_days_to_year_closed(y: int)
    requires
        y >= 1970,
    ensures
        days_to_year(y) == 365 * (y - 1970) + leaps_through(y - 1) - leaps_through(1969),
    decreases y - 1970,
{
    if y > 1970 {
        lemma_days_to_year_closed(y - 1);
        let x = y - 1;
        assert(leaps_through(x) - leaps_through(x - 1) == if is_leap(x) { 1int } else { 0int });
    }
}

/// Later years start later.
proof fn lemma_days_to_year_mono(a: int, b: int)
    requires
        1970 <= a <= b,
    ensures
        days_to_year(a) <= days_to_year(b),
    decreases b - a,
{
    if a < b {
        lemma_days_to_year_mono(a, b - 1);
    }
}

/// Four hundred years hold 146097 days.
proof fn lemma_era(y: int)
    requires
        y >= 1970,
    ensures
        days_to_year(y + 400) == days_to_year(y) + 146097,
{
    lemma_days_to_year_closed(y);
    lemma_days_to_year_closed(y + 400);
    assert(leaps_through(y + 399) == leaps_through(y - 1) + 97);
}

proof fn lemma_eras(k: nat)
    ensures
        days_to_year((1970 + 400 * k) as int) == 146097 * k,
    decreases k,
{
    if k > 0 {
        lemma_eras((k - 1) as nat);
        lemma_era((1970 + 400 * (k - 1)) as int);
        assert(1970 + 400 * (k - 1) + 400 == 1970 + 400 * k);
    }
}

proof fn lemma_year_of_months(y: int)
    ensures
        days_to_month(y, 13) == year_len(y),
        forall|m: int| 1 <= m <= 13 ==> days_to_month(y, m) >= 0,
{
    reveal_with_fuel(days_to_month, 13);
}

/// The number of days of year `y`, as an integer.
fn year_days(y: u64) -> (r: u64)
    ensures
        r == year_len(y as int),
{
    if y % 4 == 0 && (y % 100 != 0 || y % 400 == 0) {
        366
    } else {
        365
    }
}

/// The number of days of month `m` of year `y`, as an integer.
fn month_days(y: u64, m: u64) -> (r: u64)
    ensures
        r == month_len(y as int, m as int),
{
    if m == 2 {
        if y % 4 == 0 && (y % 100 != 0 || y % 400 == 0) {
            29
        } else {
            28
        }
    } else if m == 4 || m == 6 || m == 9 || m == 11 {
        30
    } else {
        31
    }
}

/// The UTC date and time of `total_secs` seconds and `millis` milliseconds after
/// 1970-01-01T00:00:00.
pub fn civil_time(total_secs: u64, millis: u32) -> (r: CivilTime)
    ensures
        is_civil_date(
            (total_secs / 86400) as int,
            r.year as int,
            r.month as int,
            r.day as int,
        ),
        r.hour == (total_secs % 86400) / 3600,
        r.minute == (total_secs % 3600) / 60,
        r.second == total_secs % 60,
        r.millis == millis,
{
    let days = total_secs / 86400;
    let day_secs = total_secs % 86400;
    let hour = day_secs / 3600;
    let minute = (day_secs % 3600) / 60;
    let second = day_secs % 60;
    proof {
        assert((total_secs % 86400) % 3600 == total_secs % 3600) by (nonlinear_arith);
        assert((total_secs % 86400) % 60 == total_secs % 60) by (nonlinear_arith);
    }
    // Whole eras of 400 years first, then the years and months that are left.
    let eras = days / 146097;
    let mut rem = days % 146097;
    assert(days <= 0xffff_ffff_ffff_ffffu64 / 86400);
    let mut y: u64 = 1970 + 400 * eras;
    proof {
        lemma_eras(eras as nat);
        lemma_era((1970 + 400 * eras) as int);
        assert(days == 146097 * eras + rem);
    }
    while rem >= year_days(y)
        invariant
            days_to_year(y as int) + rem == days,
            1970 + 400 * eras <= y <= 1970 + 400 * eras + 400,
            eras == days / 146097,
            days <= 0xffff_ffff_ffff_ffffu64 / 86400,
            days < days_to_year(1970 + 400 * eras + 400),
        decreases rem,
    {
        let yl = year_days(y);
        proof {
            if y + 1 > 1970 + 400 * eras + 400 {
                lemma_days_to_year_mono(1970 + 400 * eras + 400, (y + 1) as int);
            }
        }
        rem = rem - yl;
        y = y + 1;
    }
    let mut m: u64 = 1;
    proof {
        lemma_year_of_months(y as int);
    }
    while rem >= month_days(y, m)
        invariant
            1 <= m <= 12,
            days_to_year(y as int) + days_to_month(y as int, m as int) + rem == days,
            rem < year_len(y as int) - days_to_month(y as int, m as int),
            days_to_month(y as int, 13) == year_len(y as int),
        decreases 12 - m,
    {
        let ml = month_days(y, m);
        rem = rem - ml;
        m = m + 1;
        if m == 13 {
            proof {
                assert(false);
            }
        }
    }
    CivilTime {
        year: y as i64,
        month: m,
        day: rem + 1,
        hour,
        minute,
        second,
        millis,
    }
}

} // verus!
