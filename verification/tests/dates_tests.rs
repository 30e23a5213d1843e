use heavy_metal_notifier::calendar::Month;
use heavy_metal_notifier::dates::{days_in_month, is_leap_year, Date};

#[test]
fn leap_years_follow_the_gregorian_rule() {
    assert!(is_leap_year(2024));
    assert!(!is_leap_year(2025));
    assert!(!is_leap_year(1900));
    assert!(is_leap_year(2000));
}

#[test]
fn month_lengths() {
    assert_eq!(days_in_month(2025, Month::January), 31);
    assert_eq!(days_in_month(2025, Month::February), 28);
    assert_eq!(days_in_month(2024, Month::February), 29);
    assert_eq!(days_in_month(2025, Month::April), 30);
    assert_eq!(days_in_month(2025, Month::December), 31);
}

#[test]
fn from_calendar_date_validates() {
    assert_eq!(
        Date::from_calendar_date(2024, Month::February, 29),
        Some(Date { year: 2024, month: Month::February, day: 29 })
    );
    assert_eq!(Date::from_calendar_date(2025, Month::February, 29), None);
    assert_eq!(Date::from_calendar_date(2025, Month::June, 31), None);
    assert_eq!(Date::from_calendar_date(2025, Month::June, 0), None);
    assert_eq!(Date::from_calendar_date(10000, Month::June, 1), None);
}

#[test]
fn month_numbers_round_trip() {
    for n in 1..=12u8 {
        assert_eq!(Month::from_number(n).number(), n);
    }
}
