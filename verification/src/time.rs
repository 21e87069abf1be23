//! Calendar timestamps with second precision.
//!
//! A [`Timestamp`] holds the plain calendar fields of one point in time.
//! Validity ([`ts_valid`]) means the fields name a real calendar date and
//! time of day in years 0 through 9999, so that the fixed-width encoding of
//! the codec is always possible.  Ordering is lexicographic over the fields,
//! which coincides with chronological order.

use vstd::prelude::*;

verus! {

/// One point in time, split into its calendar fields.
#[derive(Clone, Copy, PartialEq, Eq, Structural, Debug)]
pub struct Timestamp {
    pub year: u32,
    pub month: u32,
    pub day: u32,
    pub hour: u32,
    pub minute: u32,
    pub second: u32,
}

pub open spec fn is_leap_year(y: int) -> bool {
    (y % 4 == 0 && y % 100 != 0) || y % 400 == 0
}

pub open spec fn days_in_month(y: int, m: int) -> int {
    if m == 2 {
        if is_leap_year(y) {
            29
        } else {
            28
        }
    } else if m == 4 || m == 6 || m == 9 || m == 11 {
        30
    } else {
        31
    }
}

/// The fields name a real calendar date within the encodable year range.
pub open spec fn valid_date(y: int, m: int, d: int) -> bool {
    0 <= y <= 9999 && 1 <= m <= 12 && 1 <= d <= days_in_month(y, m)
}

/// The timestamp names a real date and a real time of day.
pub open spec fn ts_valid(t: Timestamp) -> bool {
    valid_date(t.year as int, t.month as int, t.day as int) && t.hour < 24 && t.minute < 60
        && t.second < 60
}

/// Strict chronological order: lexicographic over the calendar fields.
pub open spec fn ts_lt(a: Timestamp, b: Timestamp) -> bool {
    a.year < b.year || (a.year == b.year && (a.month < b.month || (a.month == b.month && (a.day
        < b.day || (a.day == b.day && (a.hour < b.hour || (a.hour == b.hour && (a.minute
        < b.minute || (a.minute == b.minute && a.second < b.second)))))))))
}

pub open spec fn ts_le(a: Timestamp, b: Timestamp) -> bool {
    ts_lt(a, b) || a == b
}

/// Decides [`ts_lt`] on two timestamps.
pub fn ts_before(a: &Timestamp, b: &Timestamp) -> (r: bool)
    ensures
        r == ts_lt(*a, *b),
{
    if a.year != b.year {
        a.year < b.year
    } else if a.month != b.month {
        a.month < b.month
    } else if a.day != b.day {
        a.day < b.day
    } else if a.hour != b.hour {
        a.hour < b.hour
    } else if a.minute != b.minute {
        a.minute < b.minute
    } else {
        a.second < b.second
    }
}

/// Exactly one of `ts_lt(a, b)`, `ts_lt(b, a)` and `a == b` holds.
pub proof fn lemma_ts_order_total(a: Timestamp, b: Timestamp)
    ensures
        ts_le(a, b) || ts_le(b, a),
        ts_lt(a, b) ==> !ts_le(b, a),
        !ts_lt(a, b) && !ts_lt(b, a) ==> a == b,
{
}

/// The ISO 8601 week that a calendar date falls in, as its week-based year
/// paired with its week number.  The value is fixed by the date alone.
pub uninterp spec fn iso_week_of(y: int, m: int, d: int) -> (int, int);

/// Relies on `chrono::NaiveDate::from_ymd_opt` and `chrono::Datelike::iso_week`:
/// a valid calendar date in years 0 through 9999 is in range for `NaiveDate`,
/// and its ISO 8601 week (week-based year and week number) is a function of
/// the year, month and day alone.
#[verifier::external_body]
pub(crate) fn iso_week_of_date(year: u32, month: u32, day: u32) -> (r: (i32, u32))
    requires
        valid_date(year as int, month as int, day as int),
    ensures
        iso_week_of(year as int, month as int, day as int) == (r.0 as int, r.1 as int),
{
    let date = chrono::NaiveDate::from_ymd_opt(year as i32, month, day).unwrap();
    let week = chrono::Datelike::iso_week(&date);
    (week.year(), week.week())
}

/// The ISO week pair of a whole timestamp; only the date part matters.
pub open spec fn ts_iso_week(t: Timestamp) -> (int, int) {
    iso_week_of(t.year as int, t.month as int, t.day as int)
}

} // verus!
