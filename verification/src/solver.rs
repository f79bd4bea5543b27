//! The compound-growth solver's calendar legwork and guards.
//!
//! The solvers relate a start amount, a final amount, a growth rate and an
//! elapsed day count. Everything about the calendar — counting the elapsed
//! days between two date texts, advancing a start date by a civil span, and
//! deciding when a solver may run at all — is exact integer work and lives
//! here. The host evaluates the growth formulas themselves on the day count
//! this module hands it.

use crate::date::{
    add_days, add_months, date_le, day_number, lemma_add_days, lemma_date_le_day_number,
    lemma_day_number_le_max, lemma_year_is_twelve_months, spec_add_days, spec_add_months,
    spec_date_le, spec_day_number, spec_days_in_month, CalendarDate,
};
use crate::diff::{
    spec_date_difference, spec_diff_borrows, spec_diff_day_part, spec_diff_months,
    spec_diff_months_raw, spec_diff_years, spec_prev_month, date_difference,
};
use crate::text::{format_date, lemma_parse_valid, parse_date, spec_format, spec_parse};
use vstd::arithmetic::div_mod::{lemma_fundamental_div_mod, lemma_fundamental_div_mod_converse};
use vstd::prelude::*;

verus! {

/// Exact day count from `start` to `end`; negative when `end` lies earlier.
pub fn elapsed_days(start: &CalendarDate, end: &CalendarDate) -> (n: i64)
    requires
        start.valid(),
        end.valid(),
    ensures
        n == spec_day_number(*end) - spec_day_number(*start),
{
    let s: u32 = day_number(start);
    let e: u32 = day_number(end);
    e as i64 - s as i64
}

/// Advancing a date by a civil span: the months step first, then the days,
/// and a step off the representable range leaves the date unchanged.
pub open spec fn spec_advance_date(
    d: CalendarDate,
    years: int,
    months: int,
    weeks: int,
    days: int,
) -> CalendarDate {
    match spec_add_months(d, 12 * years + months) {
        Some(x) => match spec_add_days(x, (7 * weeks + days) as nat) {
            Some(r) => r,
            None => d,
        },
        None => d,
    }
}

/// The date a civil (years, months, weeks, days) span ahead of `start`: the
/// months are added first (day of month clamped to the target month), then
/// the days. If either step would leave the representable range, the start
/// is returned unchanged.
pub fn advance_date(start: &CalendarDate, years: u8, months: u8, weeks: u8, days: u8) -> (r:
    CalendarDate)
    requires
        start.valid(),
    ensures
        r == spec_advance_date(*start, years as int, months as int, weeks as int, days as int),
        r.valid(),
{
    let month_count: u32 = 12 * (years as u32) + months as u32;
    let day_count: u32 = 7 * (weeks as u32) + days as u32;
    match add_months(start, month_count) {
        Some(x) => {
            match add_days(&x, day_count) {
                Some(r) => {
                    proof {
                        lemma_add_days(x, day_count as nat);
                    }
                    r
                },
                None => *start,
            }
        },
        None => *start,
    }
}

/// The day count the compound-growth solvers run on: both texts must parse,
/// the dates must be in order, and the count must be positive.
pub open spec fn spec_compounding_days(start_text: Seq<char>, end_text: Seq<char>) -> Option<
    i64,
> {
    match (spec_parse(start_text), spec_parse(end_text)) {
        (Some(sd), Some(fd)) => {
            if spec_date_le(sd, fd) && spec_day_number(fd) > spec_day_number(sd) {
                Some((spec_day_number(fd) - spec_day_number(sd)) as i64)
            } else {
                None
            }
        },
        _ => None,
    }
}

/// The elapsed day count between two date texts, exactly when both parse,
/// the start falls on or before the end, and at least one day has passed.
pub fn compounding_days(start_text: &str, end_text: &str) -> (r: Option<i64>)
    ensures
        r == spec_compounding_days(start_text@, end_text@),
{
    proof {
        lemma_parse_valid(start_text@);
        lemma_parse_valid(end_text@);
    }
    match (parse_date(start_text), parse_date(end_text)) {
        (Some(sd), Some(fd)) => {
            if date_le(&sd, &fd) {
                let n: i64 = elapsed_days(&sd, &fd);
                if n > 0 {
                    Some(n)
                } else {
                    None
                }
            } else {
                None
            }
        },
        _ => None,
    }
}

/// Whether the compound-growth solvers may run at all: they are guarded
/// against a day count of zero and against a start amount of zero, and
/// compute nothing in either case.
pub fn solve_guard(elapsed_day_count: i64, start_amount_is_zero: bool) -> (ok: bool)
    ensures
        ok == (elapsed_day_count > 0 && !start_amount_is_zero),
{
    elapsed_day_count > 0 && !start_amount_is_zero
}

/// The civil breakdown between two date texts, when both parse and the
/// start falls on or before the end.
pub open spec fn spec_duration_between(start_text: Seq<char>, end_text: Seq<char>) -> Option<
    (u8, u8, u8, u8),
> {
    match (spec_parse(start_text), spec_parse(end_text)) {
        (Some(sd), Some(fd)) => {
            if spec_date_le(sd, fd) {
                Some(spec_date_difference(sd, fd))
            } else {
                None
            }
        },
        _ => None,
    }
}

/// The civil (years, months, weeks, days) breakdown between two date texts;
/// `None` when either text fails to parse or the dates are out of order.
pub fn duration_between(start_text: &str, end_text: &str) -> (r: Option<(u8, u8, u8, u8)>)
    ensures
        r == spec_duration_between(start_text@, end_text@),
        r matches Some(p) ==> p.1 <= 11 && p.2 <= 4 && p.3 <= 6,
{
    proof {
        lemma_parse_valid(start_text@);
        lemma_parse_valid(end_text@);
    }
    match (parse_date(start_text), parse_date(end_text)) {
        (Some(sd), Some(fd)) => {
            if date_le(&sd, &fd) {
                Some(date_difference(&sd, &fd))
            } else {
                None
            }
        },
        _ => None,
    }
}

/// The end-date text got by advancing a start-date text by a civil span;
/// `None` exactly when the start text fails to parse.
pub fn advanced_final_date(start_text: &str, years: u8, months: u8, weeks: u8, days: u8) -> (r:
    Option<String>)
    ensures
        match r {
            Some(t) => spec_parse(start_text@) matches Some(sd) && t@ == spec_format(
                spec_advance_date(sd, years as int, months as int, weeks as int, days as int),
            ),
            None => spec_parse(start_text@) is None,
        },
{
    proof {
        lemma_parse_valid(start_text@);
    }
    match parse_date(start_text) {
        Some(sd) => {
            let d: CalendarDate = advance_date(&sd, years, months, weeks, days);
            Some(format_date(&d))
        },
        None => None,
    }
}

/// The date reached by advancing `a` by the civil breakdown from `a` to `b`.
pub open spec fn spec_advance_after_diff(a: CalendarDate, b: CalendarDate) -> CalendarDate {
    let p = spec_date_difference(a, b);
    spec_advance_date(a, p.0 as int, p.1 as int, p.2 as int, p.3 as int)
}

/// The breakdown leads back to the end date: for ordered valid dates whose
/// year gap the breakdown can report, advancing the start by the reported
/// (years, months, weeks, days) lands on the end date or at most six days
/// short of it, never past it; when no month is borrowed (the end's day of
/// month is not below the start's) it lands on the end date exactly. The
/// shortfall arises only in borrow cases where the start's day of month
/// exceeds the borrow month's length.
pub proof fn lemma_diff_advance_close(a: CalendarDate, b: CalendarDate)
    requires
        a.valid(),
        b.valid(),
        spec_date_le(a, b),
        b.year - a.year <= 255,
    ensures
        spec_advance_after_diff(a, b).valid(),
        spec_day_number(b) - 6 <= spec_day_number(spec_advance_after_diff(a, b)) <= spec_day_number(
            b,
        ),
        !spec_diff_borrows(a, b) ==> spec_advance_after_diff(a, b) == b,
{
    let p = spec_date_difference(a, b);
    let ay = a.year as int;
    let am = a.month as int;
    let ad = a.day as int;
    let by = b.year as int;
    let bm = b.month as int;
    let bd = b.day as int;
    let mraw = spec_diff_months_raw(a, b);
    let ycount = spec_diff_years(a, b);
    let mcount = spec_diff_months(a, b);
    let dpart = spec_diff_day_part(a, b);

    // The reported parts carry no saturation here.
    assert(mraw < 0 ==> ay < by);
    assert(0 <= ycount <= 255);
    assert(0 <= mcount <= 11);
    assert(0 <= dpart <= 30);
    assert(p.0 as int == ycount);
    assert(p.1 as int == mcount);
    lemma_fundamental_div_mod(dpart, 7);
    assert(p.2 as int == dpart / 7);
    assert(p.3 as int == dpart % 7);
    let dcount = 7 * (p.2 as int) + (p.3 as int);
    assert(dcount == dpart);

    // The month step of the advance.
    let mtotal = 12 * (p.0 as int) + (p.1 as int);
    assert(mtotal == 12 * (by - ay) + mraw);
    let t = 12 * ay + am - 1 + mtotal;
    lemma_day_number_le_max(b);

    if !spec_diff_borrows(a, b) {
        // No day borrow: the month step lands on the end's month with the
        // start's day of month kept, and the day step closes the gap exactly.
        assert(t == 12 * by + (bm - 1));
        lemma_fundamental_div_mod_converse(t, 12, by, bm - 1);
        let x = spec_add_months(a, mtotal)->Some_0;
        assert(x.year as int == by && x.month as int == bm && x.day as int == ad);
        assert(x.valid());
        assert(spec_day_number(x) + dpart == spec_day_number(b));
        lemma_add_days(x, dpart as nat);
        let r = spec_add_days(x, dpart as nat)->Some_0;
        assert(spec_day_number(r) == spec_day_number(b));
        // Equal day numbers of valid dates are the same date.
        lemma_date_le_day_number(r, b);
        lemma_date_le_day_number(b, r);
        assert(r == b);
    } else {
        // A month was borrowed: the month step lands on the month before the
        // end's month; its length is the borrowed day count.
        let big = spec_days_in_month(by, spec_prev_month(b));
        if bm >= 2 {
            assert(t == 12 * by + (bm - 2));
            lemma_fundamental_div_mod_converse(t, 12, by, bm - 2);
        } else {
            // January wraps to the previous year's December, which is 31
            // days in every year, the same count the borrow used.
            assert(by >= 1);
            assert(t == 12 * (by - 1) + 11);
            lemma_fundamental_div_mod_converse(t, 12, by - 1, 11);
        }
        let x = spec_add_months(a, mtotal)->Some_0;
        let xl = spec_days_in_month(x.year as int, x.month as int);
        assert(xl == big);
        assert(x.valid());
        // The end lies `big - x.day + bd` days past the landing date.
        if bm >= 2 {
            assert(spec_day_number(b) == spec_day_number(x) + (big - x.day) + bd);
        } else {
            lemma_year_is_twelve_months(by - 1);
            assert(spec_day_number(b) == spec_day_number(x) + (big - x.day) + bd);
        }
        assert(ad <= 31);
        assert(big >= 28);
        if bd - ad + big >= 0 {
            assert(dpart == bd - ad + big);
            if ad <= big {
                assert(x.day as int == ad);
                assert(spec_day_number(x) + dpart == spec_day_number(b));
            } else {
                assert(x.day as int == big);
                assert(spec_day_number(x) + dpart == spec_day_number(b) - (ad - big));
                assert(1 <= ad - big <= 3);
            }
        } else {
            // Even the borrow left the day gap negative (a rare
            // leap-boundary case); it was clamped to a single day.
            assert(dpart == 1);
            assert(ad > big);
            assert(x.day as int == big);
            assert(1 <= bd <= 2);
            assert(spec_day_number(x) + dpart == spec_day_number(b) - (bd - 1));
        }
        lemma_add_days(x, dpart as nat);
    }
}

} // verus!
