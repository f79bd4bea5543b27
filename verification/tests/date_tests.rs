use compounder::date::{
    add_days, add_months, date_le, day_number, days_in_month, is_leap_year, next_day,
    CalendarDate,
};

fn date(year: u16, month: u8, day: u8) -> CalendarDate {
    CalendarDate { year, month, day }
}

#[test]
fn leap_year_rule() {
    assert!(is_leap_year(2000));
    assert!(!is_leap_year(1900));
    assert!(is_leap_year(2024));
    assert!(!is_leap_year(2023));
}

#[test]
fn leap_year_more_boundaries() {
    assert!(is_leap_year(0));
    assert!(is_leap_year(2400));
    assert!(!is_leap_year(2100));
    assert!(!is_leap_year(1));
    assert!(is_leap_year(4));
}

#[test]
fn month_lengths() {
    assert_eq!(days_in_month(2023, 1), 31);
    assert_eq!(days_in_month(2023, 4), 30);
    assert_eq!(days_in_month(2023, 2), 28);
    assert_eq!(days_in_month(2024, 2), 29);
    assert_eq!(days_in_month(2023, 12), 31);
    assert_eq!(days_in_month(2023, 9), 30);
}

#[test]
fn month_out_of_range_has_no_days() {
    assert_eq!(days_in_month(2023, 0), 0);
    assert_eq!(days_in_month(2023, 13), 0);
}

#[test]
fn day_numbers_start_at_one() {
    assert_eq!(day_number(&date(0, 1, 1)), 1);
    assert_eq!(day_number(&date(0, 12, 31)), 366);
    assert_eq!(day_number(&date(1, 1, 1)), 367);
}

#[test]
fn day_numbers_count_leap_days() {
    let jan1_2024 = day_number(&date(2024, 1, 1));
    let jan1_2025 = day_number(&date(2025, 1, 1));
    assert_eq!(jan1_2025 - jan1_2024, 366);
    let jan1_2023 = day_number(&date(2023, 1, 1));
    assert_eq!(jan1_2024 - jan1_2023, 365);
}

#[test]
fn calendar_ordering() {
    assert!(date_le(&date(2023, 12, 31), &date(2024, 1, 1)));
    assert!(date_le(&date(2024, 1, 1), &date(2024, 1, 1)));
    assert!(date_le(&date(2024, 1, 31), &date(2024, 2, 1)));
    assert!(!date_le(&date(2024, 2, 1), &date(2024, 1, 31)));
    assert!(!date_le(&date(2025, 1, 1), &date(2024, 12, 31)));
}

#[test]
fn next_day_steps() {
    assert_eq!(next_day(&date(2024, 2, 28)), Some(date(2024, 2, 29)));
    assert_eq!(next_day(&date(2023, 2, 28)), Some(date(2023, 3, 1)));
    assert_eq!(next_day(&date(2023, 12, 31)), Some(date(2024, 1, 1)));
    assert_eq!(next_day(&date(9999, 12, 31)), None);
}

#[test]
fn add_days_crosses_boundaries() {
    assert_eq!(add_days(&date(2024, 2, 27), 3), Some(date(2024, 3, 1)));
    assert_eq!(add_days(&date(2023, 2, 27), 3), Some(date(2023, 3, 2)));
    assert_eq!(add_days(&date(2024, 1, 1), 0), Some(date(2024, 1, 1)));
    assert_eq!(add_days(&date(9999, 12, 30), 2), None);
}

#[test]
fn add_months_keeps_or_clamps_the_day() {
    assert_eq!(add_months(&date(2024, 1, 15), 1), Some(date(2024, 2, 15)));
    assert_eq!(add_months(&date(2024, 1, 31), 1), Some(date(2024, 2, 29)));
    assert_eq!(add_months(&date(2023, 1, 31), 1), Some(date(2023, 2, 28)));
    assert_eq!(add_months(&date(2023, 11, 30), 3), Some(date(2024, 2, 29)));
    assert_eq!(add_months(&date(2023, 5, 10), 12), Some(date(2024, 5, 10)));
    assert_eq!(add_months(&date(2023, 12, 31), 2), Some(date(2024, 2, 29)));
    assert_eq!(add_months(&date(9999, 12, 15), 1), None);
}
