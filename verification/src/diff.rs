//! Civil breakdown of the span between two dates.
//!
//! The difference of two calendar dates is reported the way a person reads
//! it: whole years, then whole months, then weeks and days, following
//! calendar month boundaries rather than dividing a raw day count. When the
//! end's day of month is smaller than the start's, one month is borrowed and
//! repaid in days of the month before the end's month; a borrow that still
//! leaves a negative day count (a rare leap-boundary case) is clamped to one
//! day. Each part saturates to zero if it cannot be reported in its byte.

use crate::date::{days_in_month, spec_days_in_month, CalendarDate};
use vstd::prelude::*;

verus! {

/// A value reported in a byte; anything out of range saturates to zero.
pub open spec fn spec_sat_u8(x: int) -> u8 {
    if 0 <= x <= 255 {
        x as u8
    } else {
        0
    }
}

/// The month before the end's month, wrapping January back to December. The
/// day count borrowed is always taken in the end's year, December included.
pub open spec fn spec_prev_month(b: CalendarDate) -> int {
    if b.month == 1 {
        12
    } else {
        b.month - 1
    }
}

/// Whether the difference must borrow a month to keep the day part at zero
/// or above.
pub open spec fn spec_diff_borrows(a: CalendarDate, b: CalendarDate) -> bool {
    b.day < a.day
}

/// The day part of the difference, before splitting into weeks and days:
/// the plain day gap, or the gap repaid from the month before the end's
/// month, clamped to one if even the borrow leaves it negative.
pub open spec fn spec_diff_day_part(a: CalendarDate, b: CalendarDate) -> int {
    if spec_diff_borrows(a, b) {
        let dn = b.day - a.day + spec_days_in_month(b.year as int, spec_prev_month(b));
        if dn < 0 {
            1
        } else {
            dn
        }
    } else {
        b.day - a.day
    }
}

/// The month gap after a possible day borrow, before the year borrow.
pub open spec fn spec_diff_months_raw(a: CalendarDate, b: CalendarDate) -> int {
    if spec_diff_borrows(a, b) {
        b.month - a.month - 1
    } else {
        b.month - a.month
    }
}

/// The month part of the difference, folded into 0..=11 by borrowing a year.
pub open spec fn spec_diff_months(a: CalendarDate, b: CalendarDate) -> int {
    if spec_diff_months_raw(a, b) < 0 {
        spec_diff_months_raw(a, b) + 12
    } else {
        spec_diff_months_raw(a, b)
    }
}

/// The year part of the difference, one less when a year was borrowed.
pub open spec fn spec_diff_years(a: CalendarDate, b: CalendarDate) -> int {
    if spec_diff_months_raw(a, b) < 0 {
        b.year - a.year - 1
    } else {
        b.year - a.year
    }
}

/// The civil (years, months, weeks, days) breakdown from `a` to `b`.
pub open spec fn spec_date_difference(a: CalendarDate, b: CalendarDate) -> (u8, u8, u8, u8) {
    (
        spec_sat_u8(spec_diff_years(a, b)),
        spec_sat_u8(spec_diff_months(a, b)),
        spec_sat_u8(spec_diff_day_part(a, b) / 7),
        spec_sat_u8(spec_diff_day_part(a, b) % 7),
    )
}

/// The civil (years, months, weeks, days) breakdown between two valid dates.
/// The months, weeks and days parts are always normalized to their display
/// sub-ranges; the year part saturates to zero when it cannot be reported.
pub fn date_difference(start: &CalendarDate, end: &CalendarDate) -> (r: (u8, u8, u8, u8))
    requires
        start.valid(),
        end.valid(),
    ensures
        r == spec_date_difference(*start, *end),
        r.1 <= 11,
        r.2 <= 4,
        r.3 <= 6,
{
    let mut yn: i32 = end.year as i32 - start.year as i32;
    let mut mn: i32 = end.month as i32 - start.month as i32;
    let mut dn: i32 = end.day as i32 - start.day as i32;
    if dn < 0 {
        mn = mn - 1;
        let prev: u8 = if end.month == 1 {
            12
        } else {
            end.month - 1
        };
        dn = dn + days_in_month(end.year, prev) as i32;
        if dn < 0 {
            dn = 1;
        }
    }
    if mn < 0 {
        yn = yn - 1;
        mn = mn + 12;
    }
    let years: u8 = if 0 <= yn && yn <= 255 {
        yn as u8
    } else {
        0
    };
    (years, mn as u8, (dn / 7) as u8, (dn % 7) as u8)
}

} // verus!
