use event_calendar::date::Date;
use event_calendar::error::AppError;

#[test]
fn parse_then_format_is_canonical() {
    let d = Date::parse("2024-01-02").unwrap();
    assert_eq!(d.format(), "2024-01-02");
}

#[test]
fn parse_then_format_normalizes_widths() {
    let d = Date::parse("2024-1-2").unwrap();
    assert_eq!(d.format(), "2024-01-02");
    let d = Date::parse("0024-001-0002").unwrap();
    assert_eq!(d.format(), "0024-01-02");
}

#[test]
fn format_keeps_wide_years() {
    let d = Date::parse("12345-7-9").unwrap();
    assert_eq!(d.format(), "12345-07-09");
}

#[test]
fn parse_reads_fields_in_order() {
    let d = Date::parse("1999-12-31").unwrap();
    assert_eq!(d.year, 1999);
    assert_eq!(d.month, 12);
    assert_eq!(d.day, 31);
}

#[test]
fn parse_rejects_wrong_field_count() {
    assert!(matches!(Date::parse("2024-01"), Err(AppError::InvalidDateFormat)));
    assert!(matches!(Date::parse("2024-01-02-03"), Err(AppError::InvalidDateFormat)));
    assert!(matches!(Date::parse("20240102"), Err(AppError::InvalidDateFormat)));
    assert!(matches!(Date::parse(""), Err(AppError::InvalidDateFormat)));
}

#[test]
fn parse_rejects_non_numbers() {
    assert!(matches!(Date::parse("2024-ab-01"), Err(AppError::InvalidDateNumber)));
    assert!(matches!(Date::parse("2024--01"), Err(AppError::InvalidDateNumber)));
    assert!(matches!(Date::parse("-1-2"), Err(AppError::InvalidDateNumber)));
    assert!(matches!(
        Date::parse("99999999999999999999-1-1"),
        Err(AppError::InvalidDateNumber)
    ));
}

#[test]
fn parse_does_not_range_check() {
    let d = Date::parse("2024-13-01").unwrap();
    assert_eq!(d.month, 13);
    let d = Date::parse("2024-01-32").unwrap();
    assert_eq!(d.day, 32);
}

#[test]
fn validate_rejects_bad_month() {
    let d = Date::parse("2024-13-01").unwrap();
    assert!(matches!(d.validate(), Err(AppError::InvalidMonth(13))));
    let d = Date::parse("2024-0-01").unwrap();
    assert!(matches!(d.validate(), Err(AppError::InvalidMonth(0))));
}

#[test]
fn validate_rejects_bad_day() {
    let d = Date::parse("2024-01-32").unwrap();
    assert!(matches!(d.validate(), Err(AppError::InvalidDay(32))));
    let d = Date::parse("2024-01-0").unwrap();
    assert!(matches!(d.validate(), Err(AppError::InvalidDay(0))));
}

#[test]
fn validate_accepts_range() {
    assert!(Date::parse("2024-01-01").unwrap().validate().is_ok());
    assert!(Date::parse("2024-12-31").unwrap().validate().is_ok());
    // day-of-month is deliberately not cross-checked against the month
    assert!(Date::parse("2024-02-31").unwrap().validate().is_ok());
}

#[test]
fn compare_orders_by_year_month_day() {
    let a = Date::parse("2023-12-31").unwrap();
    let b = Date::parse("2024-01-01").unwrap();
    let c = Date::parse("2024-01-02").unwrap();
    assert_eq!(a.compare(&b), core::cmp::Ordering::Less);
    assert_eq!(b.compare(&c), core::cmp::Ordering::Less);
    assert_eq!(c.compare(&a), core::cmp::Ordering::Greater);
    assert_eq!(b.compare(&b), core::cmp::Ordering::Equal);
    assert!(a.lt(&b) && b.lt(&c) && !c.lt(&a));
}
