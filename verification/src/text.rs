//! The fixed `YYYY-MM-DD` textual form of a date.
//!
//! Parsing accepts exactly ten characters: a four-digit year, a two-digit
//! month and a two-digit day, separated by hyphens, and only when the triple
//! names a real calendar date. Formatting writes a valid date back in the
//! same form, and the round trip is proved: parsing a formatted date gives
//! the date back.

use crate::date::{
    days_in_month, CalendarDate, spec_date_le, spec_days_in_month,
};
use vstd::arithmetic::div_mod::{
    lemma_div_denominator, lemma_div_is_ordered, lemma_fundamental_div_mod,
};
use vstd::prelude::*;
use vstd::string::{StrSliceExecFns, StringExecFns};

verus! {

/// The character that writes the decimal digit `n`.
pub open spec fn spec_digit_char(n: int) -> char {
    ((48 + n) as u8) as char
}

/// Whether `c` is a decimal digit.
pub open spec fn spec_is_digit(c: char) -> bool {
    48 <= c as int <= 57
}

/// The decimal value of a digit character.
pub open spec fn spec_digit_val(c: char) -> int {
    c as int - 48
}

/// The ten characters that write a date: `YYYY-MM-DD`.
pub open spec fn spec_format(d: CalendarDate) -> Seq<char> {
    let y = d.year as int;
    let m = d.month as int;
    let dd = d.day as int;
    seq![
        spec_digit_char(y / 1000),
        spec_digit_char((y / 100) % 10),
        spec_digit_char((y / 10) % 10),
        spec_digit_char(y % 10),
        '-',
        spec_digit_char(m / 10),
        spec_digit_char(m % 10),
        '-',
        spec_digit_char(dd / 10),
        spec_digit_char(dd % 10),
    ]
}

/// The date a ten-character `YYYY-MM-DD` text names, or `None` when the text
/// does not match the pattern or names no real calendar date.
pub open spec fn spec_parse(s: Seq<char>) -> Option<CalendarDate> {
    if s.len() == 10 && spec_is_digit(s[0]) && spec_is_digit(s[1]) && spec_is_digit(s[2])
        && spec_is_digit(s[3]) && s[4] == '-' && spec_is_digit(s[5]) && spec_is_digit(s[6])
        && s[7] == '-' && spec_is_digit(s[8]) && spec_is_digit(s[9]) {
        let y = 1000 * spec_digit_val(s[0]) + 100 * spec_digit_val(s[1]) + 10 * spec_digit_val(
            s[2],
        ) + spec_digit_val(s[3]);
        let m = 10 * spec_digit_val(s[5]) + spec_digit_val(s[6]);
        let dd = 10 * spec_digit_val(s[8]) + spec_digit_val(s[9]);
        if 1 <= m <= 12 && 1 <= dd <= spec_days_in_month(y, m) {
            Some(CalendarDate { year: y as u16, month: m as u8, day: dd as u8 })
        } else {
            None
        }
    } else {
        None
    }
}

/// The decimal value of a digit character, or `None` for any other character.
fn digit_val(c: char) -> (r: Option<u8>)
    ensures
        match r {
            Some(v) => spec_is_digit(c) && v == spec_digit_val(c) && v <= 9,
            None => !spec_is_digit(c),
        },
{
    match c {
        '0' => Some(0),
        '1' => Some(1),
        '2' => Some(2),
        '3' => Some(3),
        '4' => Some(4),
        '5' => Some(5),
        '6' => Some(6),
        '7' => Some(7),
        '8' => Some(8),
        '9' => Some(9),
        _ => None,
    }
}

/// The one-character text that writes the digit `v`.
fn digit_str(v: u8) -> (r: &'static str)
    requires
        v <= 9,
    ensures
        r@.len() == 1,
        r@[0] == spec_digit_char(v as int),
{
    proof {
        reveal_strlit("0");
        reveal_strlit("1");
        reveal_strlit("2");
        reveal_strlit("3");
        reveal_strlit("4");
        reveal_strlit("5");
        reveal_strlit("6");
        reveal_strlit("7");
        reveal_strlit("8");
        reveal_strlit("9");
    }
    match v {
        0 => "0",
        1 => "1",
        2 => "2",
        3 => "3",
        4 => "4",
        5 => "5",
        6 => "6",
        7 => "7",
        8 => "8",
        _ => "9",
    }
}

/// Writes a valid date in the fixed `YYYY-MM-DD` form.
pub fn format_date(d: &CalendarDate) -> (r: String)
    requires
        d.valid(),
    ensures
        r@ == spec_format(*d),
{
    proof {
        reveal_strlit("-");
        lemma_div_is_ordered(d.year as int, 9999, 1000);
    }
    let y: u16 = d.year;
    let mut r: String = String::new();
    r.append(digit_str((y / 1000) as u8));
    r.append(digit_str(((y / 100) % 10) as u8));
    r.append(digit_str(((y / 10) % 10) as u8));
    r.append(digit_str((y % 10) as u8));
    r.append("-");
    r.append(digit_str(d.month / 10));
    r.append(digit_str(d.month % 10));
    r.append("-");
    r.append(digit_str(d.day / 10));
    r.append(digit_str(d.day % 10));
    proof {
        assert(r@ =~= spec_format(*d));
    }
    r
}

/// Reads a date from its fixed `YYYY-MM-DD` form; `None` when the text does
/// not match the pattern or names no real calendar date.
pub fn parse_date(s: &str) -> (r: Option<CalendarDate>)
    ensures
        r == spec_parse(s@),
{
    proof {
        reveal_strlit("-");
    }
    if s.unicode_len() != 10 {
        return None;
    }
    if s.get_char(4) != '-' || s.get_char(7) != '-' {
        return None;
    }
    let v0 = digit_val(s.get_char(0));
    let v1 = digit_val(s.get_char(1));
    let v2 = digit_val(s.get_char(2));
    let v3 = digit_val(s.get_char(3));
    let v5 = digit_val(s.get_char(5));
    let v6 = digit_val(s.get_char(6));
    let v8 = digit_val(s.get_char(8));
    let v9 = digit_val(s.get_char(9));
    match (v0, v1, v2, v3, v5, v6, v8, v9) {
        (
            Some(a),
            Some(b),
            Some(c),
            Some(d),
            Some(e),
            Some(f),
            Some(g),
            Some(h),
        ) => {
            let year: u16 = 1000 * (a as u16) + 100 * (b as u16) + 10 * (c as u16) + (d as u16);
            let month: u8 = 10 * e + f;
            let day: u8 = 10 * g + h;
            if month < 1 || month > 12 {
                return None;
            }
            if day < 1 || day > days_in_month(year, month) {
                return None;
            }
            Some(CalendarDate { year, month, day })
        },
        _ => None,
    }
}

/// A text is a wholly valid date entry: it parses, and it has exactly the
/// canonical ten-character length.
pub fn is_valid(s: &str) -> (r: bool)
    ensures
        r == (spec_parse(s@) is Some && s@.len() == 10),
{
    parse_date(s).is_some() && s.unicode_len() == 10
}

/// Both texts parse and the first date falls on or before the second.
pub fn is_range_valid(start: &str, end: &str) -> (r: bool)
    ensures
        r == match (spec_parse(start@), spec_parse(end@)) {
            (Some(a), Some(b)) => spec_date_le(a, b),
            _ => false,
        },
{
    let sd = parse_date(start);
    let ed = parse_date(end);
    match (sd, ed) {
        (Some(a), Some(b)) => crate::date::date_le(&a, &b),
        _ => false,
    }
}

/// Whatever parses is a valid calendar date.
pub proof fn lemma_parse_valid(s: Seq<char>)
    ensures
        spec_parse(s) matches Some(d) ==> d.valid(),
{
}

/// Splitting a four-digit number into its decimal digits loses nothing.
proof fn lemma_four_digit_recompose(y: int)
    requires
        0 <= y <= 9999,
    ensures
        1000 * (y / 1000) + 100 * ((y / 100) % 10) + 10 * ((y / 10) % 10) + y % 10 == y,
        0 <= y / 1000 <= 9,
        0 <= (y / 100) % 10 <= 9,
        0 <= (y / 10) % 10 <= 9,
        0 <= y % 10 <= 9,
{
    lemma_fundamental_div_mod(y, 10);
    lemma_fundamental_div_mod(y / 10, 10);
    lemma_fundamental_div_mod(y / 100, 10);
    lemma_div_denominator(y, 10, 10);
    lemma_div_denominator(y, 100, 10);
    lemma_div_is_ordered(y, 9999, 1000);
    lemma_div_is_ordered(0, y, 1000);
}

/// Splitting a two-digit number into its decimal digits loses nothing.
proof fn lemma_two_digit_recompose(m: int)
    requires
        0 <= m <= 99,
    ensures
        10 * (m / 10) + m % 10 == m,
        0 <= m / 10 <= 9,
        0 <= m % 10 <= 9,
{
    lemma_fundamental_div_mod(m, 10);
    lemma_div_is_ordered(m, 99, 10);
    lemma_div_is_ordered(0, m, 10);
}

/// Round trip: parsing the formatted form of any valid date gives the date
/// back unchanged.
pub proof fn lemma_parse_format_roundtrip(d: CalendarDate)
    requires
        d.valid(),
    ensures
        spec_parse(spec_format(d)) == Some(d),
{
    let s = spec_format(d);
    lemma_four_digit_recompose(d.year as int);
    lemma_two_digit_recompose(d.month as int);
    lemma_two_digit_recompose(d.day as int);
    assert(spec_parse(s) == Some(d));
}

} // verus!
