use compounder::widgets::{Datefield, ErrorField, Switch};

#[test]
fn error_field_keeps_value_and_flag() {
    let f = ErrorField::new(String::from("1000"), true);
    assert_eq!(f.value, "1000");
    assert!(f.valid);
    let g = ErrorField::new(String::from("oops"), false);
    assert_eq!(g.value, "oops");
    assert!(!g.valid);
}

#[test]
fn switch_keeps_its_state() {
    assert!(Switch::new(true).state);
    assert!(!Switch::new(false).state);
}

#[test]
fn date_field_judges_its_text() {
    let good = Datefield::new(String::from("2024-02-29"));
    assert_eq!(good.value, "2024-02-29");
    assert!(good.valid);
    let bad = Datefield::new(String::from("2024-02-30"));
    assert!(!bad.valid);
    let short = Datefield::new(String::from("2024-2-1"));
    assert!(!short.valid);
}
