//! The civil calendar in UTC: which day of which month of which year a
//! second since the Unix epoch falls on.

use vstd::prelude::*;
use chrono::{Datelike, Timelike};

verus! {

/// The year of the Unix epoch.
pub const EPOCH_YEAR: u64 = 1970;

/// The last year that has keys.
pub const LAST_YEAR: u64 = 3000;

/// Number of seconds in a day.
pub const DAY: u64 = 86400;

/// Number of seconds in an hour.
pub const HOUR: u64 = 3600;

/// The last second of [`LAST_YEAR`].
pub const MAX_TIMESTAMP: u64 = 32535215999;

/// The day number of the last day of [`LAST_YEAR`].
pub const MAX_DAY: u64 = 376564;

/// Whether `y` is a leap year of the Gregorian calendar.
pub open spec fn is_leap(y: int) -> bool {
    y % 4 == 0 && (y % 100 != 0 || y % 400 == 0)
}

/// The number of days of year `y`.
pub open spec fn year_length(y: int) -> int {
    if is_leap(y) {
        366
    } else {
        365
    }
}

/// The number of days of month `m` of year `y`.
pub open spec fn days_in_month(y: int, m: int) -> int {
    if m == 2 {
        if is_leap(y) {
            29
        } else {
            28
        }
    } else if m == 4 || m == 6 || m == 9 || m == 11 {
        30
    } else {
        31
    }
}

/// The number of days of year `y` that lie before its month `m`.
pub open spec fn days_before_month(y: int, m: int) -> int
    decreases m,
{
    if m <= 1 {
        0
    } else {
        days_before_month(y, m - 1) + days_in_month(y, m - 1)
    }
}

/// The number of days from the first day of 1970 to the first day of `y`.
pub open spec fn days_before_year(y: int) -> int
    decreases y,
{
    if y <= 1970 {
        0
    } else {
        days_before_year(y - 1) + year_length(y - 1)
    }
}

/// Whether `(y, m, d)` is a date from 1970 on.
pub open spec fn is_date(y: int, m: int, d: int) -> bool {
    &&& y >= 1970
    &&& 1 <= m <= 12
    &&& 1 <= d <= days_in_month(y, m)
}

/// The number of days from the first day of 1970 to the date `(y, m, d)`.
pub open spec fn day_number(y: int, m: int, d: int) -> int {
    days_before_year(y) + days_before_month(y, m) + d - 1
}

/// The date with the given day number.
pub open spec fn civil_of_day(n: int) -> (int, int, int) {
    choose|c: (int, int, int)| is_date(c.0, c.1, c.2) && day_number(c.0, c.1, c.2) == n
}

/// The first day number of each month of a year.
pub proof fn lemma_month_starts(y: int)
    ensures
        days_before_month(y, 1) == 0,
        days_before_month(y, 2) == 31,
        days_before_month(y, 3) == 31 + days_in_month(y, 2),
        days_before_month(y, 4) == 62 + days_in_month(y, 2),
        days_before_month(y, 5) == 92 + days_in_month(y, 2),
        days_before_month(y, 6) == 123 + days_in_month(y, 2),
        days_before_month(y, 7) == 153 + days_in_month(y, 2),
        days_before_month(y, 8) == 184 + days_in_month(y, 2),
        days_before_month(y, 9) == 215 + days_in_month(y, 2),
        days_before_month(y, 10) == 245 + days_in_month(y, 2),
        days_before_month(y, 11) == 276 + days_in_month(y, 2),
        days_before_month(y, 12) == 306 + days_in_month(y, 2),
        days_before_month(y, 13) == year_length(y),
{
    reveal_with_fuel(days_before_month, 14);
}

/// A later year starts after the whole of an earlier year.
pub proof fn lemma_year_starts_grow(y1: int, y2: int)
    requires
        1970 <= y1 < y2,
    ensures
        days_before_year(y1) + year_length(y1) <= days_before_year(y2),
    decreases y2,
{
    if y1 + 1 < y2 {
        lemma_year_starts_grow(y1, y2 - 1);
    }
}

/// The first day number of a year in closed form.
pub proof fn lemma_year_start_closed(y: int)
    requires
        y >= 1970,
    ensures
        days_before_year(y) == 365 * (y - 1970) + (y - 1) / 4 - (y - 1) / 100 + (y - 1) / 400 - 477,
    decreases y,
{
    if y > 1970 {
        lemma_year_start_closed(y - 1);
        let x = y - 1;
        assert(x / 4 - (x - 1) / 4 == if x % 4 == 0 { 1int } else { 0 });
        assert(x / 100 - (x - 1) / 100 == if x % 100 == 0 { 1int } else { 0 });
        assert(x / 400 - (x - 1) / 400 == if x % 400 == 0 { 1int } else { 0 });
        assert(x % 400 == 0 ==> x % 100 == 0);
        assert(x % 100 == 0 ==> x % 4 == 0);
    }
}

/// An earlier date has a smaller day number.
pub proof fn lemma_day_number_order(y1: int, m1: int, d1: int, y2: int, m2: int, d2: int)
    requires
        is_date(y1, m1, d1),
        is_date(y2, m2, d2),
        y1 < y2 || (y1 == y2 && (m1 < m2 || (m1 == m2 && d1 < d2))),
    ensures
        day_number(y1, m1, d1) < day_number(y2, m2, d2),
{
    lemma_month_starts(y1);
    lemma_month_starts(y2);
    if y1 < y2 {
        lemma_year_starts_grow(y1, y2);
    }
}

/// Two dates with the same day number are the same date.
pub proof fn lemma_day_number_injective(y1: int, m1: int, d1: int, y2: int, m2: int, d2: int)
    requires
        is_date(y1, m1, d1),
        is_date(y2, m2, d2),
        day_number(y1, m1, d1) == day_number(y2, m2, d2),
    ensures
        y1 == y2 && m1 == m2 && d1 == d2,
{
    if y1 < y2 || (y1 == y2 && (m1 < m2 || (m1 == m2 && d1 < d2))) {
        lemma_day_number_order(y1, m1, d1, y2, m2, d2);
    } else if y2 < y1 || (y1 == y2 && (m2 < m1 || (m1 == m2 && d2 < d1))) {
        lemma_day_number_order(y2, m2, d2, y1, m1, d1);
    }
}

/// Every day from the epoch on is a date.
pub proof fn lemma_civil_exists(n: int)
    requires
        n >= 0,
    ensures
        is_date(civil_of_day(n).0, civil_of_day(n).1, civil_of_day(n).2),
        day_number(civil_of_day(n).0, civil_of_day(n).1, civil_of_day(n).2) == n,
    decreases n,
{
    if n == 0 {
        lemma_month_starts(1970);
        let c = (1970int, 1int, 1int);
        assert(is_date(c.0, c.1, c.2) && day_number(c.0, c.1, c.2) == n);
    } else {
        lemma_civil_exists(n - 1);
        let p = civil_of_day(n - 1);
        lemma_month_starts(p.0);
        lemma_month_starts(p.0 + 1);
        let c = if p.2 < days_in_month(p.0, p.1) {
            (p.0, p.1, p.2 + 1)
        } else if p.1 < 12 {
            (p.0, p.1 + 1, 1int)
        } else {
            (p.0 + 1, 1int, 1int)
        };
        assert(days_before_year(p.0 + 1) == days_before_year(p.0) + year_length(p.0));
        assert(is_date(c.0, c.1, c.2) && day_number(c.0, c.1, c.2) == n);
    }
}

/// A date is the date of its day number.
pub proof fn lemma_civil_of_day(y: int, m: int, d: int)
    requires
        is_date(y, m, d),
    ensures
        civil_of_day(day_number(y, m, d)) == (y, m, d),
{
    let n = day_number(y, m, d);
    let w = (y, m, d);
    assert(is_date(w.0, w.1, w.2) && day_number(w.0, w.1, w.2) == n);
    let c = civil_of_day(n);
    lemma_day_number_injective(c.0, c.1, c.2, y, m, d);
}

/// An earlier day number belongs to an earlier date.
pub proof fn lemma_civil_order(n1: int, n2: int)
    requires
        0 <= n1 < n2,
    ensures
        ({
            let a = civil_of_day(n1);
            let b = civil_of_day(n2);
            a.0 < b.0 || (a.0 == b.0 && (a.1 < b.1 || (a.1 == b.1 && a.2 < b.2)))
        }),
{
    lemma_civil_exists(n1);
    lemma_civil_exists(n2);
    let a = civil_of_day(n1);
    let b = civil_of_day(n2);
    if !(a.0 < b.0 || (a.0 == b.0 && (a.1 < b.1 || (a.1 == b.1 && a.2 < b.2)))) {
        if a.0 == b.0 && a.1 == b.1 && a.2 == b.2 {
        } else {
            lemma_day_number_order(b.0, b.1, b.2, a.0, a.1, a.2);
        }
    }
}

/// Dates up to the last day with a key lie in years up to the last year.
pub proof fn lemma_year_bound(y: int, m: int, d: int)
    requires
        is_date(y, m, d),
        day_number(y, m, d) <= MAX_DAY,
    ensures
        y <= LAST_YEAR,
{
    lemma_year_start_closed(3001);
    lemma_month_starts(y);
    if y > 3001 {
        lemma_year_starts_grow(3001, y);
    }
}

/// Dates up to the last year have day numbers up to the last day with a key.
pub proof fn lemma_day_bound(y: int, m: int, d: int)
    requires
        is_date(y, m, d),
        y <= LAST_YEAR,
    ensures
        0 <= day_number(y, m, d) <= MAX_DAY,
{
    lemma_year_start_closed(3001);
    lemma_year_start_closed(y);
    lemma_month_starts(y);
    lemma_year_starts_grow(y, 3001);
}

/// The date and the hour of the day on which a second since the epoch
/// falls in UTC, as `chrono::DateTime::from_timestamp` and the accessors
/// `year`, `month`, `day` and `hour` give them. The contract states the
/// proleptic Gregorian calendar that chrono documents: the date is the one
/// whose day number is the number of whole days since the epoch, and the hour
/// is the number of whole hours into that day.
#[verifier::external_body]
pub(crate) fn utc_fields(ts: u64) -> (r: (u64, u64, u64, u64))
    requires
        ts <= MAX_TIMESTAMP,
    ensures
        is_date(r.0 as int, r.1 as int, r.2 as int),
        day_number(r.0 as int, r.1 as int, r.2 as int) == ts / DAY,
        r.3 == (ts % DAY) / HOUR,
{
    let t = chrono::DateTime::from_timestamp(ts as i64, 0).unwrap();
    (t.year() as u64, t.month() as u64, t.day() as u64, t.hour() as u64)
}

/// Whether `y` is a leap year.
pub fn is_leap_year(y: u64) -> (r: bool)
    ensures
        r == is_leap(y as int),
{
    y % 4 == 0 && (y % 100 != 0 || y % 400 == 0)
}

/// The number of days of month `m` of year `y`.
pub fn month_length(y: u64, m: u64) -> (r: u64)
    ensures
        r == days_in_month(y as int, m as int),
{
    if m == 2 {
        if is_leap_year(y) {
            29
        } else {
            28
        }
    } else if m == 4 || m == 6 || m == 9 || m == 11 {
        30
    } else {
        31
    }
}

/// The day number of the date `(y, m, d)`.
pub fn day_number_of(y: u64, m: u64, d: u64) -> (r: u64)
    requires
        is_date(y as int, m as int, d as int),
        y <= LAST_YEAR,
    ensures
        r == day_number(y as int, m as int, d as int),
        r <= MAX_DAY,
{
    proof {
        lemma_year_start_closed(y as int);
        lemma_month_starts(y as int);
        lemma_day_bound(y as int, m as int, d as int);
    }
    let x = y - 1;
    let year_start = 365 * (y - 1970) + x / 4 - x / 100 + x / 400 - 477;
    let february = month_length(y, 2);
    let month_start: u64 = if m == 1 {
        0
    } else if m == 2 {
        31
    } else if m == 3 {
        31 + february
    } else if m == 4 {
        62 + february
    } else if m == 5 {
        92 + february
    } else if m == 6 {
        123 + february
    } else if m == 7 {
        153 + february
    } else if m == 8 {
        184 + february
    } else if m == 9 {
        215 + february
    } else if m == 10 {
        245 + february
    } else if m == 11 {
        276 + february
    } else {
        306 + february
    };
    year_start + month_start + d - 1
}

} // verus!
