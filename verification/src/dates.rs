//! Dates of the proleptic Gregorian calendar, by days.

use vstd::prelude::*;
use crate::text::{concat2, padded};

verus! {

use crate::text::padded_decimal;

/// Whether a year has a leap day.
pub open spec fn is_leap(year: int) -> bool {
    year % 4 == 0 && (year % 100 != 0 || year % 400 == 0)
}

/// How many days the years before a year have, counted from year 0.
pub open spec fn days_before_year(year: int) -> int {
    365 * year + (year + 3) / 4 - (year + 99) / 100 + (year + 399) / 400
}

/// How many days a month has.
pub open spec fn days_in_month(year: int, month: int) -> int {
    if month == 2 {
        if is_leap(year) {
            29
        } else {
            28
        }
    } else if month == 4 || month == 6 || month == 9 || month == 11 {
        30
    } else {
        31
    }
}

/// How many days the months of a year before a month have.
pub open spec fn days_before_month(year: int, month: int) -> int
    decreases month,
{
    if month <= 1 {
        0
    } else {
        days_before_month(year, month - 1) + days_in_month(year, month - 1)
    }
}

/// A date.
#[derive(Debug, Clone, Copy)]
pub struct Date {
    /// The year.
    pub year: u64,
    /// The month, from 1.
    pub month: u64,
    /// The day of the month, from 1.
    pub day: u64,
}

/// Whether a date is one of the calendar.
pub open spec fn is_date(date: Date) -> bool {
    1 <= date.month <= 12 && 1 <= date.day <= days_in_month(date.year as int, date.month as int)
}

/// How many days lie between the first day of 1970 and a date.
pub open spec fn day_number(date: Date) -> int {
    days_before_year(date.year as int) - 719528 + days_before_month(
        date.year as int,
        date.month as int,
    ) + date.day - 1
}

proof fn lemma_months(year: int)
    ensures
        days_before_month(year, 1) == 0,
        days_before_month(year, 2) == 31,
        ({
            let leap: int = if is_leap(year) {
                1
            } else {
                0
            };
            &&& days_before_month(year, 3) == 59 + leap
            &&& days_before_month(year, 4) == 90 + leap
            &&& days_before_month(year, 5) == 120 + leap
            &&& days_before_month(year, 6) == 151 + leap
            &&& days_before_month(year, 7) == 181 + leap
            &&& days_before_month(year, 8) == 212 + leap
            &&& days_before_month(year, 9) == 243 + leap
            &&& days_before_month(year, 10) == 273 + leap
            &&& days_before_month(year, 11) == 304 + leap
            &&& days_before_month(year, 12) == 334 + leap
        }),
{
    reveal_with_fuel(days_before_month, 13);
}

/// The days before a year that is `a` spans of 400 years, `b` centuries, `c`
/// spans of 4 years and `e` years after year 0.
proof fn lemma_year(a: int, b: int, c: int, e: int)
    requires
        0 <= a,
        0 <= b <= 3,
        0 <= c <= 24,
        0 <= e <= 3,
    ensures
        ({
            let year = 400 * a + 100 * b + 4 * c + e;
            let leap: int = if is_leap(year) {
                1
            } else {
                0
            };
            &&& is_leap(year) == (e == 0 && (c != 0 || b == 0))
            &&& days_before_year(year) + 59 + leap == 146097 * a + 36524 * b + 1461 * c + 365 * e
                + 60
            &&& days_before_year(year + 1) == days_before_year(year) + 365 + leap
        }),
{
    let year = 400 * a + 100 * b + 4 * c + e;
    assert(year % 4 == e);
    assert(year % 100 == 4 * c + e);
    assert(year % 400 == 100 * b + 4 * c + e);
    assert((year + 3) / 4 == 100 * a + 25 * b + c + (e + 3) / 4);
    assert((year + 99) / 100 == 4 * a + b + (4 * c + e + 99) / 100);
    assert((year + 399) / 400 == a + (100 * b + 4 * c + e + 399) / 400);
    assert((year + 4) / 4 == 100 * a + 25 * b + c + (e + 4) / 4);
    assert((year + 100) / 100 == 4 * a + b + (4 * c + e + 100) / 100);
    assert((year + 400) / 400 == a + (100 * b + 4 * c + e + 400) / 400);
}

/// The date that lies a number of days after the first day of 1970.
pub fn date_after(days: u64) -> (out: Date)
    requires
        days <= 200_000_000_000_000,
    ensures
        is_date(out),
        day_number(out) == days,
        out.year <= days + 1970,
{
    // Years are taken to start in March here, so that a leap day ends one.
    let z: u64 = days + 719468;
    let a: u64 = z / 146097;
    let in_era: u64 = z % 146097;
    let b: u64 = if in_era / 36524 > 3 {
        3
    } else {
        in_era / 36524
    };
    let in_century: u64 = in_era - b * 36524;
    let c: u64 = in_century / 1461;
    let in_four: u64 = in_century % 1461;
    let e: u64 = if in_four / 365 > 3 {
        3
    } else {
        in_four / 365
    };
    let day_of_year: u64 = in_four - e * 365;
    let march_year: u64 = 400 * a + 100 * b + 4 * c + e;
    let m: u64 = (5 * day_of_year + 2) / 153;
    proof {
        assert(0 <= day_of_year <= 365);
        assert(0 <= m <= 11);
        lemma_year(a as int, b as int, c as int, e as int);
        lemma_months(march_year as int);
        lemma_months(march_year + 1);
        assert(z == 146097 * a + 36524 * b + 1461 * c + 365 * e + day_of_year);
    }
    let day: u64 = day_of_year - (153 * m + 2) / 5 + 1;
    let (year, month) = if m < 10 {
        (march_year, m + 3)
    } else {
        (march_year + 1, m - 9)
    };
    proof {
        lemma_next_leap(march_year as int, a as int, b as int, c as int, e as int);
        if m == 11 && day_of_year == 365 {
            assert(e == 3);
        }
    }
    Date { year, month, day }
}

/// Whether the year after one is a leap year.
proof fn lemma_next_leap(year: int, a: int, b: int, c: int, e: int)
    requires
        0 <= a,
        0 <= b <= 3,
        0 <= c <= 24,
        0 <= e <= 3,
        year == 400 * a + 100 * b + 4 * c + e,
    ensures
        is_leap(year + 1) == (e == 3 && (c != 24 || b == 3)),
{
    assert((year + 1) % 4 == (e + 1) % 4);
    assert((year + 1) % 100 == (4 * c + e + 1) % 100);
    assert((year + 1) % 400 == (100 * b + 4 * c + e + 1) % 400);
}

/// A date and a time of day as RFC 3339 writes them for UTC.
pub open spec fn rfc3339_text(date: Date, second_of_day: nat) -> Seq<char> {
    padded_decimal(date.year as nat, 4) + "-"@ + padded_decimal(date.month as nat, 2) + "-"@
        + padded_decimal(date.day as nat, 2) + "T"@ + padded_decimal(second_of_day / 3600, 2)
        + ":"@ + padded_decimal((second_of_day / 60) % 60, 2) + ":"@ + padded_decimal(
        second_of_day % 60,
        2,
    ) + "Z"@
}

/// The seconds that a timestamp shows: a number that signed seconds cannot
/// hold is shown as the first second of 1970.
pub open spec fn shown_seconds(secs: u64) -> nat {
    if secs <= i64::MAX {
        secs as nat
    } else {
        0
    }
}

/// Render a receipt timestamp: seconds since the unix epoch as RFC 3339 UTC.
pub fn rfc3339_utc(secs: u64) -> (out: String)
    ensures
        exists|date: Date|
            is_date(date) && day_number(date) == shown_seconds(secs) / 86400 && out@
                == #[trigger] rfc3339_text(date, shown_seconds(secs) % 86400),
{
    let shown: u64 = if secs <= 9_223_372_036_854_775_807 {
        secs
    } else {
        0
    };
    let days: u64 = shown / 86400;
    let rest: u64 = shown % 86400;
    let date = date_after(days);
    let mut out = concat2(padded(date.year, 4).as_str(), "-");
    out.append(padded(date.month, 2).as_str());
    out.append("-");
    out.append(padded(date.day, 2).as_str());
    out.append("T");
    out.append(padded(rest / 3600, 2).as_str());
    out.append(":");
    out.append(padded((rest / 60) % 60, 2).as_str());
    out.append(":");
    out.append(padded(rest % 60, 2).as_str());
    out.append("Z");
    assert(out@ == rfc3339_text(date, shown_seconds(secs) % 86400));
    out
}

proof fn lemma_years_grow(x: int, y: int)
    requires
        0 <= x < y,
    ensures
        days_before_year(x) + 365 + (if is_leap(x) {
            1int
        } else {
            0int
        }) <= days_before_year(y),
    decreases y - x,
{
    let a = x / 400;
    let b = (x % 400) / 100;
    let c = (x % 100) / 4;
    let e = x % 4;
    assert(x == 400 * a + 100 * b + 4 * c + e);
    lemma_year(a, b, c, e);
    if x + 1 < y {
        lemma_years_grow(x + 1, y);
    }
}

proof fn lemma_months_grow(year: int, m: int, n: int)
    requires
        1 <= m < n <= 13,
    ensures
        days_before_month(year, m) + days_in_month(year, m) <= days_before_month(year, n),
    decreases n - m,
{
    if m + 1 < n {
        lemma_months_grow(year, m, n - 1);
    }
}

/// A day has one date: two dates of the calendar with the same day number are
/// the same.
pub proof fn law_a_day_has_one_date(x: Date, y: Date)
    requires
        is_date(x),
        is_date(y),
        day_number(x) == day_number(y),
    ensures
        x == y,
{
    lemma_months(x.year as int);
    lemma_months(y.year as int);
    if x.year < y.year {
        lemma_years_grow(x.year as int, y.year as int);
        lemma_in_year(x);
    } else if y.year < x.year {
        lemma_years_grow(y.year as int, x.year as int);
        lemma_in_year(y);
    } else if x.month < y.month {
        lemma_months_grow(x.year as int, x.month as int, y.month as int);
    } else if y.month < x.month {
        lemma_months_grow(x.year as int, y.month as int, x.month as int);
    }
}

proof fn lemma_in_year(x: Date)
    requires
        is_date(x),
    ensures
        days_before_month(x.year as int, x.month as int) + x.day <= 365 + (if is_leap(
            x.year as int,
        ) {
            1int
        } else {
            0int
        }),
{
    lemma_months(x.year as int);
}

/// A year has 366 days where it is a leap year and 365 otherwise; its months
/// have the days of the calendar, and the days before a month are those of the
/// months before it.
pub proof fn law_years_and_months_have_their_days(year: int, month: int)
    requires
        0 <= year,
        1 <= month <= 12,
    ensures
        days_before_year(0) == 0,
        days_before_year(year + 1) - days_before_year(year) == if is_leap(year) {
            366int
        } else {
            365
        },
        days_before_month(year, 1) == 0,
        days_before_month(year, month + 1) - days_before_month(year, month) == (if month == 2 {
            if is_leap(year) {
                29int
            } else {
                28
            }
        } else if month == 4 || month == 6 || month == 9 || month == 11 {
            30
        } else {
            31
        }),
        days_before_month(year, 13) == days_before_year(year + 1) - days_before_year(year),
        is_leap(year) <==> (year % 4 == 0 && !(year % 100 == 0)) || year % 400 == 0,
{
    reveal_with_fuel(days_before_month, 14);
    assert(year % 400 == 0 ==> year % 4 == 0 && year % 100 == 0);
}

/// Days are counted from the first of January 1970: that is day zero, the next
/// day of a month is the next day, and the first of a month follows the last of
/// the month before.
pub proof fn law_days_are_counted_from_the_epoch(date: Date)
    requires
        is_date(date),
    ensures
        day_number(Date { year: 1970, month: 1, day: 1 }) == 0,
        date.day < days_in_month(date.year as int, date.month as int) ==> day_number(
            Date { year: date.year, month: date.month, day: (date.day + 1) as u64 },
        ) == day_number(date) + 1,
        date.day == days_in_month(date.year as int, date.month as int) && date.month < 12
            ==> day_number(
            Date { year: date.year, month: (date.month + 1) as u64, day: 1 },
        ) == day_number(date) + 1,
{
    assert(days_before_year(1970) == 719528);
    assert(days_before_month(1970, 1) == 0);
}

/// A moment is written as its date and its time of day, each part in as many
/// digits as it has places, and in universal time: the hours, minutes and
/// seconds make up the second of the day.
pub proof fn law_moments_are_written_part_by_part(date: Date, second_of_day: nat, h: nat, m: nat, s: nat)
    requires
        m < 60,
        s < 60,
        second_of_day == h * 3600 + m * 60 + s,
    ensures
        rfc3339_text(date, second_of_day) == padded_decimal(date.year as nat, 4) + "-"@
            + padded_decimal(date.month as nat, 2) + "-"@ + padded_decimal(date.day as nat, 2)
            + "T"@ + padded_decimal(h, 2) + ":"@ + padded_decimal(m, 2) + ":"@ + padded_decimal(
            s,
            2,
        ) + "Z"@,
{
    assert(second_of_day / 3600 == h);
    assert((second_of_day / 60) % 60 == m);
    assert(second_of_day % 60 == s);
}

} // verus!
