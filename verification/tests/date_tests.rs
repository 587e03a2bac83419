use when_rs::date::CalendarDate;

fn new_date(year: i32, month: u32, day: u32) -> CalendarDate {
    CalendarDate::new(year, month, day).unwrap()
}

#[test]
fn date_calculation() {
    let date = new_date(2021, 9, 21);
    let date2 = date.add_days(3).unwrap();
    assert_eq!(date2.num_days_from_ce() - date.num_days_from_ce(), 3);
    assert_eq!(date2.sub_days(3).unwrap(), date);
}

#[test]
fn date_construction() {
    let date = new_date(1999, 6, 17);
    assert_eq!(date.year(), 1999);
    assert_eq!(date.month(), 6);
    assert_eq!(date.day(), 17);
}

#[test]
fn rejects_invalid_dates() {
    assert!(CalendarDate::new(2021, 2, 29).is_none());
    assert!(CalendarDate::new(2020, 2, 29).is_some());
    assert!(CalendarDate::new(2021, 13, 1).is_none());
    assert!(CalendarDate::new(2021, 0, 1).is_none());
    assert!(CalendarDate::new(2021, 4, 31).is_none());
    assert!(CalendarDate::new(0, 1, 1).is_none());
}

#[test]
fn leap_year_ordinals() {
    assert_eq!(new_date(2020, 2, 29).ordinal(), 60);
    assert_eq!(new_date(2020, 12, 31).ordinal(), 366);
    assert_eq!(new_date(2021, 12, 31).ordinal(), 365);
    assert_eq!(new_date(2000, 3, 1).ordinal(), 61);
    assert_eq!(new_date(1900, 3, 1).ordinal(), 60);
}

#[test]
fn weekday_numbers() {
    // 2021-09-21 was a Tuesday, 2021-09-20 a Monday, 2038-01-20 a Wednesday.
    assert_eq!(new_date(2021, 9, 21).weekday(), 2);
    assert_eq!(new_date(2021, 9, 20).weekday(), 1);
    assert_eq!(new_date(2038, 1, 20).weekday(), 3);
    // Day one of the common era is a Monday.
    assert_eq!(new_date(1, 1, 1).weekday(), 1);
}

#[test]
fn add_days_crosses_year_boundary() {
    let date = new_date(2020, 12, 28);
    let date2 = date.add_days(7).unwrap();
    assert_eq!(date2, new_date(2021, 1, 4));
    let date3 = date2.sub_days(7).unwrap();
    assert_eq!(date3, date);
}

#[test]
fn chronological_order() {
    let a = new_date(2020, 12, 31);
    let b = new_date(2021, 1, 1);
    assert!(a.le(&b));
    assert!(!b.le(&a));
    assert!(a.le(&a));
}

#[test]
fn sub_days_below_first_day_fails() {
    let date = new_date(1, 1, 2);
    assert!(date.sub_days(1).is_some());
    assert!(date.sub_days(2).is_none());
}
