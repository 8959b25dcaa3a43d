use meteroid::dates::{days_in_month, is_leap, CivilDate};

fn date(y: u32, m: u32, d: u32) -> CivilDate {
    CivilDate::from_ymd(y, m, d).unwrap()
}

#[test]
fn day_numbers_count_calendar_days() {
    assert_eq!(date(1, 1, 1).day_number(), 0);
    assert_eq!(date(2023, 1, 10).day_number() - date(2023, 1, 1).day_number(), 9);
    assert_eq!(date(2024, 1, 1).day_number() - date(2023, 1, 1).day_number(), 365);
    assert_eq!(date(2025, 1, 1).day_number() - date(2024, 1, 1).day_number(), 366);
    assert_eq!(date(1970, 1, 1).day_number(), 719_162);
    assert_eq!(date(1970, 1, 2).start_seconds() - date(1970, 1, 1).start_seconds(), 86_400);
}

#[test]
fn leap_years_follow_the_gregorian_rule() {
    assert!(is_leap(2024));
    assert!(!is_leap(2023));
    assert!(!is_leap(1900));
    assert!(is_leap(2000));
    assert_eq!(days_in_month(2023, 2), 28);
    assert_eq!(days_in_month(2024, 2), 29);
    assert_eq!(days_in_month(2023, 4), 30);
    assert_eq!(days_in_month(2023, 12), 31);
}

#[test]
fn invalid_dates_are_refused() {
    assert!(CivilDate::from_ymd(2023, 2, 29).is_none());
    assert!(CivilDate::from_ymd(2023, 13, 1).is_none());
    assert!(CivilDate::from_ymd(0, 1, 1).is_none());
    assert!(CivilDate::from_ymd(2023, 4, 31).is_none());
}

#[test]
fn month_arithmetic_clamps_to_month_end() {
    assert_eq!(date(2023, 1, 31).checked_add_months(1), Some(date(2023, 2, 28)));
    assert_eq!(date(2023, 11, 15).checked_add_months(3), Some(date(2024, 2, 15)));
    assert_eq!(date(2023, 3, 31).checked_sub_months(1), Some(date(2023, 2, 28)));
    assert_eq!(date(2023, 1, 10).checked_sub_months(1), Some(date(2022, 12, 10)));
    assert_eq!(date(9999, 12, 1).checked_add_months(1), None);
    assert_eq!(date(1, 1, 1).checked_sub_months(1), None);
}
