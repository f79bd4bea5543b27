use compounder::date::{date_le, CalendarDate};
use compounder::diff::date_difference;
use compounder::solver::{
    advance_date, advanced_final_date, compounding_days, duration_between, elapsed_days,
    solve_guard,
};

fn date(year: u16, month: u8, day: u8) -> CalendarDate {
    CalendarDate { year, month, day }
}

#[test]
fn difference_full_breakdown() {
    let a = date(2023, 1, 15);
    let b = date(2024, 3, 20);
    assert_eq!(date_difference(&a, &b), (1, 2, 0, 5));
}

#[test]
fn difference_borrow_stays_non_negative() {
    let a = date(2024, 1, 31);
    let b = date(2024, 3, 1);
    assert_eq!(date_difference(&a, &b), (0, 1, 0, 1));
}

#[test]
fn difference_of_equal_dates_is_zero() {
    let a = date(2024, 6, 10);
    assert_eq!(date_difference(&a, &a), (0, 0, 0, 0));
}

#[test]
fn difference_borrows_a_year() {
    let a = date(2023, 11, 10);
    let b = date(2024, 2, 5);
    assert_eq!(date_difference(&a, &b), (0, 2, 3, 5));
}

#[test]
fn difference_splits_weeks_and_days() {
    let a = date(2024, 1, 1);
    let b = date(2024, 1, 30);
    assert_eq!(date_difference(&a, &b), (0, 0, 4, 1));
}

#[test]
fn difference_saturates_out_of_range_years() {
    let a = date(1700, 1, 1);
    let b = date(2024, 1, 1);
    assert_eq!(date_difference(&a, &b), (0, 0, 0, 0));
    let reversed = date_difference(&date(2025, 5, 5), &date(2020, 1, 1));
    assert_eq!(reversed, (0, 7, 3, 6));
}

#[test]
fn elapsed_day_counts() {
    assert_eq!(elapsed_days(&date(2024, 1, 1), &date(2025, 1, 1)), 366);
    assert_eq!(elapsed_days(&date(2023, 1, 1), &date(2024, 1, 1)), 365);
    assert_eq!(elapsed_days(&date(2024, 3, 1), &date(2024, 3, 1)), 0);
    assert_eq!(elapsed_days(&date(2024, 3, 2), &date(2024, 3, 1)), -1);
}

#[test]
fn advance_adds_months_before_days() {
    let start = date(2024, 1, 30);
    assert_eq!(advance_date(&start, 0, 1, 0, 1), date(2024, 3, 1));
}

#[test]
fn advance_clamps_into_short_months() {
    assert_eq!(advance_date(&date(2024, 1, 31), 0, 1, 0, 0), date(2024, 2, 29));
    assert_eq!(advance_date(&date(2023, 1, 31), 0, 1, 0, 0), date(2023, 2, 28));
    assert_eq!(advance_date(&date(2023, 1, 15), 1, 2, 0, 5), date(2024, 3, 20));
    assert_eq!(advance_date(&date(2024, 1, 1), 0, 0, 2, 3), date(2024, 1, 18));
}

#[test]
fn advance_out_of_range_returns_the_start() {
    assert_eq!(advance_date(&date(9999, 12, 31), 0, 0, 0, 1), date(9999, 12, 31));
    assert_eq!(advance_date(&date(9999, 12, 15), 0, 1, 0, 0), date(9999, 12, 15));
    assert_eq!(advance_date(&date(9999, 1, 15), 1, 0, 0, 0), date(9999, 1, 15));
}

#[test]
fn advance_by_difference_lands_on_or_near_the_end() {
    let pairs = [
        (date(2023, 1, 15), date(2024, 3, 20)),
        (date(2024, 1, 31), date(2024, 3, 1)),
        (date(2024, 1, 31), date(2024, 3, 5)),
        (date(2023, 11, 10), date(2024, 2, 5)),
        (date(2000, 2, 29), date(2024, 2, 29)),
    ];
    for (a, b) in pairs {
        let (years, months, weeks, days) = date_difference(&a, &b);
        let landed = advance_date(&a, years, months, weeks, days);
        assert!(date_le(&landed, &b));
        let gap = elapsed_days(&landed, &b);
        assert!((0..=6).contains(&gap));
    }
}

#[test]
fn advance_by_difference_borrow_shortfall() {
    let a = date(2024, 1, 31);
    let b = date(2024, 3, 5);
    let (years, months, weeks, days) = date_difference(&a, &b);
    assert_eq!((years, months, weeks, days), (0, 1, 0, 3));
    assert_eq!(advance_date(&a, years, months, weeks, days), date(2024, 3, 3));
}

#[test]
fn compounding_day_counts() {
    assert_eq!(compounding_days("2024-01-01", "2025-01-01"), Some(366));
    assert_eq!(compounding_days("2023-01-15", "2024-03-20"), Some(430));
    assert_eq!(compounding_days("2024-01-01", "2024-01-01"), None);
    assert_eq!(compounding_days("2024-01-02", "2024-01-01"), None);
    assert_eq!(compounding_days("2024-1-1", "2025-01-01"), None);
    assert_eq!(compounding_days("2024-01-01", "not a date"), None);
}

#[test]
fn solver_guards_reject_zero_inputs() {
    assert!(!solve_guard(0, false));
    assert!(!solve_guard(365, true));
    assert!(!solve_guard(0, true));
    assert!(!solve_guard(-5, false));
    assert!(solve_guard(365, false));
    assert!(solve_guard(1, false));
}

#[test]
fn duration_between_texts() {
    assert_eq!(duration_between("2023-01-15", "2024-03-20"), Some((1, 2, 0, 5)));
    assert_eq!(duration_between("2024-03-20", "2023-01-15"), None);
    assert_eq!(duration_between("2023-01-15", "2024-03"), None);
    assert_eq!(duration_between("2024-05-05", "2024-05-05"), Some((0, 0, 0, 0)));
}

#[test]
fn advanced_final_date_texts() {
    assert_eq!(
        advanced_final_date("2023-01-15", 1, 2, 0, 5),
        Some(String::from("2024-03-20"))
    );
    assert_eq!(
        advanced_final_date("2024-01-31", 0, 1, 0, 0),
        Some(String::from("2024-02-29"))
    );
    assert_eq!(
        advanced_final_date("9999-12-31", 0, 0, 0, 1),
        Some(String::from("9999-12-31"))
    );
    assert_eq!(advanced_final_date("2024-13-01", 1, 0, 0, 0), None);
}
