//! Calendar dates and the Gregorian calendar rules.
//!
//! A [`CalendarDate`] is a plain (year, month, day) triple restricted to the
//! four-digit years that the textual `YYYY-MM-DD` form can carry. The spec
//! functions here give the calendar its meaning: leap years, month lengths,
//! and a day numbering that linearizes valid dates.

use vstd::prelude::*;

verus! {

/// A calendar date: `year` 0..=9999, `month` 1..=12, `day` 1..=days in month.
#[derive(Clone, Copy, PartialEq, Eq, Structural, Debug)]
pub struct CalendarDate {
    pub year: u16,
    pub month: u8,
    pub day: u8,
}

/// Gregorian leap-year rule: divisible by 4 and not by 100, or divisible by 400.
pub open spec fn spec_is_leap_year(year: int) -> bool {
    (year % 4 == 0 && year % 100 != 0) || year % 400 == 0
}

/// Number of days in a month; 0 for a month outside 1..=12.
pub open spec fn spec_days_in_month(year: int, month: int) -> int {
    if month == 1 || month == 3 || month == 5 || month == 7 || month == 8 || month == 10
        || month == 12 {
        31
    } else if month == 4 || month == 6 || month == 9 || month == 11 {
        30
    } else if month == 2 {
        if spec_is_leap_year(year) {
            29
        } else {
            28
        }
    } else {
        0
    }
}

impl CalendarDate {
    /// A date is valid when the month exists and the day fits that month.
    pub open spec fn valid(self) -> bool {
        &&& self.year <= 9999
        &&& 1 <= self.month <= 12
        &&& 1 <= self.day <= spec_days_in_month(self.year as int, self.month as int)
    }
}

/// Year `year` has an extra day (February 29) exactly under the Gregorian rule.
pub fn is_leap_year(year: u16) -> (r: bool)
    ensures
        r == spec_is_leap_year(year as int),
{
    (year % 4 == 0 && year % 100 != 0) || year % 400 == 0
}

/// Days in the given month of the given year; 0 when the month is not 1..=12.
pub fn days_in_month(year: u16, month: u8) -> (r: u8)
    ensures
        r == spec_days_in_month(year as int, month as int),
{
    match month {
        1 | 3 | 5 | 7 | 8 | 10 | 12 => 31,
        4 | 6 | 9 | 11 => 30,
        2 => if is_leap_year(year) {
            29
        } else {
            28
        },
        _ => 0,
    }
}

/// Days in a whole year under the leap rule.
pub open spec fn spec_days_in_year(year: int) -> int {
    if spec_is_leap_year(year) {
        366
    } else {
        365
    }
}

/// Days of year `year` that lie before month `month` (0 for January).
pub open spec fn spec_days_before_month(year: int, month: int) -> int
    decreases month,
{
    if month <= 1 {
        0
    } else {
        spec_days_before_month(year, month - 1) + spec_days_in_month(year, month - 1)
    }
}

/// Days that lie before January 1 of year `year`, counted from year 0.
pub open spec fn spec_days_before_year(year: int) -> int
    decreases year,
{
    if year <= 0 {
        0
    } else {
        spec_days_before_year(year - 1) + spec_days_in_year(year - 1)
    }
}

/// Position of a date on the day line: day 1 of year 0 is number 1, and each
/// next valid date is one higher. Differences of day numbers are elapsed days.
pub open spec fn spec_day_number(d: CalendarDate) -> int {
    spec_days_before_year(d.year as int) + spec_days_before_month(d.year as int, d.month as int)
        + d.day
}

/// Lexicographic order on (year, month, day); on valid dates it is calendar order.
pub open spec fn spec_date_le(a: CalendarDate, b: CalendarDate) -> bool {
    ||| a.year < b.year
    ||| (a.year == b.year && a.month < b.month)
    ||| (a.year == b.year && a.month == b.month && a.day <= b.day)
}

/// The last date the ten-character textual form can carry.
pub open spec fn spec_max_date() -> CalendarDate {
    CalendarDate { year: 9999, month: 12, day: 31 }
}

proof fn lemma_days_before_month_nonneg(year: int, month: int)
    ensures
        0 <= spec_days_before_month(year, month),
    decreases month,
{
    if month > 1 {
        lemma_days_before_month_nonneg(year, month - 1);
    }
}

proof fn lemma_days_before_month_monotonic(year: int, m1: int, m2: int)
    requires
        m1 <= m2,
    ensures
        spec_days_before_month(year, m1) <= spec_days_before_month(year, m2),
    decreases m2 - m1,
{
    if m1 < m2 {
        lemma_days_before_month_monotonic(year, m1, m2 - 1);
    }
}

/// The days of the twelve months add up to the year's day count.
pub proof fn lemma_year_is_twelve_months(year: int)
    ensures
        spec_days_before_month(year, 13) == spec_days_in_year(year),
{
    reveal_with_fuel(spec_days_before_month, 13);
}

/// A valid (month, day) position lies within the year's day count.
proof fn lemma_day_in_year_bound(year: int, month: int, day: int)
    requires
        1 <= month <= 12,
        1 <= day <= spec_days_in_month(year, month),
    ensures
        1 <= spec_days_before_month(year, month) + day <= spec_days_in_year(year),
{
    lemma_days_before_month_nonneg(year, month);
    lemma_days_before_month_monotonic(year, month + 1, 13);
    lemma_year_is_twelve_months(year);
}

proof fn lemma_days_before_year_monotonic(y1: int, y2: int)
    requires
        0 <= y1 <= y2,
    ensures
        spec_days_before_year(y1) <= spec_days_before_year(y2),
    decreases y2 - y1,
{
    if y1 < y2 {
        lemma_days_before_year_monotonic(y1, y2 - 1);
    }
}

proof fn lemma_date_lt_day_number(a: CalendarDate, b: CalendarDate)
    requires
        a.valid(),
        b.valid(),
        spec_date_le(a, b),
        a != b,
    ensures
        spec_day_number(a) < spec_day_number(b),
{
    if a.year < b.year {
        lemma_day_in_year_bound(a.year as int, a.month as int, a.day as int);
        lemma_days_before_year_monotonic(a.year as int + 1, b.year as int);
        lemma_days_before_month_nonneg(b.year as int, b.month as int);
    } else if a.month < b.month {
        lemma_days_before_month_monotonic(a.year as int, a.month as int + 1, b.month as int);
    }
}

/// On valid dates the lexicographic order agrees with the day-number order.
pub proof fn lemma_date_le_day_number(a: CalendarDate, b: CalendarDate)
    requires
        a.valid(),
        b.valid(),
    ensures
        spec_date_le(a, b) <==> spec_day_number(a) <= spec_day_number(b),
{
    if spec_date_le(a, b) {
        if a != b {
            lemma_date_lt_day_number(a, b);
        }
    } else {
        lemma_date_lt_day_number(b, a);
    }
}

/// Every valid date lies at or before the last representable date.
pub proof fn lemma_day_number_le_max(d: CalendarDate)
    requires
        d.valid(),
    ensures
        spec_day_number(d) <= spec_day_number(spec_max_date()),
        1 <= spec_day_number(d),
{
    lemma_date_le_day_number(d, spec_max_date());
    lemma_days_before_month_nonneg(d.year as int, d.month as int);
    lemma_days_before_year_nonneg(d.year as int);
}

proof fn lemma_days_before_year_nonneg(year: int)
    ensures
        0 <= spec_days_before_year(year),
    decreases year,
{
    if year > 0 {
        lemma_days_before_year_nonneg(year - 1);
    }
}

/// Day number of a valid date, computed by summing whole years, then whole
/// months, then the day of month.
pub fn day_number(d: &CalendarDate) -> (n: u32)
    requires
        d.valid(),
    ensures
        n == spec_day_number(*d),
{
    let mut acc: u32 = 0;
    let mut y: u16 = 0;
    while y < d.year
        invariant
            y <= d.year <= 9999,
            acc == spec_days_before_year(y as int),
            acc as int <= 366 * (y as int),
        decreases d.year - y,
    {
        let step: u32 = if is_leap_year(y) {
            366
        } else {
            365
        };
        acc = acc + step;
        y = y + 1;
    }
    let mut m: u8 = 1;
    while m < d.month
        invariant
            1 <= m <= d.month,
            d.valid(),
            acc == spec_days_before_year(d.year as int) + spec_days_before_month(
                d.year as int,
                m as int,
            ),
            acc as int <= 366 * 9999 + 31 * (m as int),
        decreases d.month - m,
    {
        acc = acc + days_in_month(d.year, m) as u32;
        m = m + 1;
    }
    acc + d.day as u32
}

/// Whether `a` falls on or before `b` in calendar order.
pub fn date_le(a: &CalendarDate, b: &CalendarDate) -> (r: bool)
    ensures
        r == spec_date_le(*a, *b),
{
    if a.year != b.year {
        a.year < b.year
    } else if a.month != b.month {
        a.month < b.month
    } else {
        a.day <= b.day
    }
}

/// The date one day later, or `None` past the last representable date.
pub open spec fn spec_next_day(d: CalendarDate) -> Option<CalendarDate> {
    if d.day < spec_days_in_month(d.year as int, d.month as int) {
        Some(CalendarDate { year: d.year, month: d.month, day: (d.day + 1) as u8 })
    } else if d.month < 12 {
        Some(CalendarDate { year: d.year, month: (d.month + 1) as u8, day: 1 })
    } else if d.year < 9999 {
        Some(CalendarDate { year: (d.year + 1) as u16, month: 1, day: 1 })
    } else {
        None
    }
}

/// Stepping one day forward keeps validity and raises the day number by one.
pub proof fn lemma_next_day(d: CalendarDate)
    requires
        d.valid(),
    ensures
        match spec_next_day(d) {
            Some(n) => n.valid() && spec_day_number(n) == spec_day_number(d) + 1,
            None => d == spec_max_date(),
        },
{
    if d.day < spec_days_in_month(d.year as int, d.month as int) {
    } else if d.month < 12 {
    } else if d.year < 9999 {
        lemma_year_is_twelve_months(d.year as int);
    }
}

/// The date one day after `d`, or `None` past the last representable date.
pub fn next_day(d: &CalendarDate) -> (r: Option<CalendarDate>)
    requires
        d.valid(),
    ensures
        r == spec_next_day(*d),
{
    if d.day < days_in_month(d.year, d.month) {
        Some(CalendarDate { year: d.year, month: d.month, day: d.day + 1 })
    } else if d.month < 12 {
        Some(CalendarDate { year: d.year, month: d.month + 1, day: 1 })
    } else if d.year < 9999 {
        Some(CalendarDate { year: d.year + 1, month: 1, day: 1 })
    } else {
        None
    }
}

/// The date `n` days after `d`, or `None` when that runs past the last
/// representable date.
pub open spec fn spec_add_days(d: CalendarDate, n: nat) -> Option<CalendarDate>
    decreases n,
{
    if n == 0 {
        Some(d)
    } else {
        match spec_next_day(d) {
            Some(x) => spec_add_days(x, (n - 1) as nat),
            None => None,
        }
    }
}

/// Adding days moves the day number by exactly that count; it fails exactly
/// when the target lies past the last representable date.
pub proof fn lemma_add_days(d: CalendarDate, n: nat)
    requires
        d.valid(),
    ensures
        match spec_add_days(d, n) {
            Some(r) => r.valid() && spec_day_number(r) == spec_day_number(d) + n,
            None => spec_day_number(d) + n > spec_day_number(spec_max_date()),
        },
    decreases n,
{
    if n > 0 {
        lemma_next_day(d);
        match spec_next_day(d) {
            Some(x) => {
                lemma_add_days(x, (n - 1) as nat);
            },
            None => {
            },
        }
    }
}

/// The date `n` days after `d`, or `None` past the last representable date.
pub fn add_days(d: &CalendarDate, n: u32) -> (r: Option<CalendarDate>)
    requires
        d.valid(),
    ensures
        r == spec_add_days(*d, n as nat),
{
    let mut cur: CalendarDate = *d;
    let mut i: u32 = 0;
    while i < n
        invariant
            i <= n,
            cur.valid(),
            spec_add_days(*d, n as nat) == spec_add_days(cur, (n - i) as nat),
        decreases n - i,
    {
        match next_day(&cur) {
            Some(x) => {
                proof {
                    lemma_next_day(cur);
                }
                cur = x;
            },
            None => {
                return None;
            },
        }
        i = i + 1;
    }
    Some(cur)
}

/// The date `n` months later: the month steps forward on the month line and
/// the day of month is kept, clamped to the target month's length. `None`
/// when the target year is not representable.
pub open spec fn spec_add_months(d: CalendarDate, n: int) -> Option<CalendarDate> {
    let t = 12 * (d.year as int) + (d.month as int) - 1 + n;
    let y = t / 12;
    let m = t % 12 + 1;
    if y > 9999 {
        None
    } else {
        Some(
            CalendarDate {
                year: y as u16,
                month: m as u8,
                day: if d.day as int <= spec_days_in_month(y, m) {
                    d.day
                } else {
                    spec_days_in_month(y, m) as u8
                },
            },
        )
    }
}

/// The date `n` months after `d` with the day clamped to the target month,
/// or `None` when the target year is not representable.
pub fn add_months(d: &CalendarDate, n: u32) -> (r: Option<CalendarDate>)
    requires
        d.valid(),
    ensures
        r == spec_add_months(*d, n as int),
        r matches Some(x) ==> x.valid(),
{
    let t: u64 = 12 * (d.year as u64) + (d.month as u64) - 1 + (n as u64);
    let y: u64 = t / 12;
    let m: u64 = t % 12 + 1;
    if y > 9999 {
        return None;
    }
    let year: u16 = y as u16;
    let month: u8 = m as u8;
    let dim: u8 = days_in_month(year, month);
    let day: u8 = if d.day <= dim {
        d.day
    } else {
        dim
    };
    Some(CalendarDate { year, month, day })
}

} // verus!
