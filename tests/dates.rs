use bank_calendar::date::{is_leap_year, last_day_of_month, Date, Weekday, MAX_DAY, MIN_DAY};

#[test]
fn leap_years() {
    assert!(is_leap_year(2020));
    assert!(is_leap_year(2000));
    assert!(!is_leap_year(1900));
    assert!(!is_leap_year(2019));
    assert!(is_leap_year(-4));
    assert!(!is_leap_year(400000));
}

#[test]
fn month_lengths() {
    assert_eq!(last_day_of_month(2020, 2), 29);
    assert_eq!(last_day_of_month(2019, 2), 28);
    assert_eq!(last_day_of_month(2019, 11), 30);
    assert_eq!(last_day_of_month(2019, 12), 31);
    assert_eq!(last_day_of_month(2019, 1), 31);
}

#[test]
fn day_numbers() {
    assert_eq!(Date::from_ymd_opt(1, 1, 1).unwrap().day_number(), 1);
    assert_eq!(Date::from_ymd_opt(1970, 1, 1).unwrap().day_number(), 719163);
    assert_eq!(Date::from_ymd_opt(2019, 11, 20).unwrap().day_number(), 737383);
    assert_eq!(Date::from_ymd_opt(2019, 2, 29), None);
    assert_eq!(Date::from_ymd_opt(2019, 13, 1), None);
    assert_eq!(Date::from_ymd_opt(400000, 1, 1), None);
}

#[test]
fn year_month_day_of_a_date() {
    let d = Date::from_day_number(737383).unwrap();
    assert_eq!((d.year(), d.month(), d.day()), (2019, 11, 20));
    let d = Date::from_day_number(0).unwrap();
    assert_eq!((d.year(), d.month(), d.day()), (0, 12, 31));
    assert_eq!(Date::from_day_number(MAX_DAY + 1), None);
    assert_eq!(Date::from_day_number(MIN_DAY - 1), None);
}

#[test]
fn first_and_last_dates() {
    let last = Date::from_day_number(MAX_DAY).unwrap();
    assert_eq!((last.year(), last.month(), last.day()), (262142, 12, 31));
    assert_eq!(last.succ_opt(), None);
    let first = Date::from_day_number(MIN_DAY).unwrap();
    assert_eq!((first.year(), first.month(), first.day()), (-262143, 1, 1));
    assert_eq!(first.pred_opt(), None);
}

#[test]
fn weekdays_of_dates() {
    assert_eq!(Date::from_ymd_opt(2020, 11, 1).unwrap().weekday(), Weekday::Sun);
    assert_eq!(Date::from_ymd_opt(2019, 11, 4).unwrap().weekday(), Weekday::Mon);
    assert_eq!(Date::from_ymd_opt(1, 1, 1).unwrap().weekday(), Weekday::Mon);
    assert_eq!(Date::from_ymd_opt(0, 12, 31).unwrap().weekday(), Weekday::Sun);
    assert_eq!(Date::from_day_number(MIN_DAY).unwrap().weekday().num_days_from_monday() < 7, true);
    assert_eq!(Weekday::Fri.num_days_from_monday(), 4);
}

#[test]
fn day_steps() {
    let d = Date::from_ymd_opt(2019, 12, 31).unwrap();
    assert_eq!(d.succ_opt(), Date::from_ymd_opt(2020, 1, 1));
    assert_eq!(Date::from_ymd_opt(2020, 3, 1).unwrap().pred_opt(), Date::from_ymd_opt(2020, 2, 29));
    assert_eq!(d.checked_add_days(-365), Date::from_ymd_opt(2018, 12, 31));
    assert_eq!(d.checked_add_days(i32::MAX), None);
}
