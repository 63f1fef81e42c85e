use bank_calendar::calendar::{Calendar, Holiday, NthWeekday};
use bank_calendar::date::{Date, Weekday};

fn ymd(year: i32, month: u32, day: u32) -> Date {
    Date::from_ymd_opt(year, month, day).unwrap()
}

#[test]
fn fixed_dates_calendar() {
    let holidays = vec![
        Holiday::SingularDay(ymd(2019, 11, 20)),
        Holiday::SingularDay(ymd(2019, 11, 24)),
        Holiday::SingularDay(ymd(2019, 11, 25)),
        Holiday::WeekDay(Weekday::Sat),
        Holiday::WeekDay(Weekday::Sun),
    ];
    let cal = Calendar::calc_calendar(&holidays, 2019, 2019).unwrap();

    assert_eq!(false, cal.is_business_day(ymd(2019, 11, 20)));
    assert_eq!(true, cal.is_business_day(ymd(2019, 11, 21)));
    assert_eq!(true, cal.is_business_day(ymd(2019, 11, 22)));
    // weekend
    assert_eq!(false, cal.is_business_day(ymd(2019, 11, 23)));
    assert_eq!(true, cal.is_weekend(ymd(2019, 11, 23)));
    assert_eq!(false, cal.is_holiday(ymd(2019, 11, 23)));
    // weekend and holiday
    assert_eq!(false, cal.is_business_day(ymd(2019, 11, 24)));
    assert_eq!(true, cal.is_weekend(ymd(2019, 11, 24)));
    assert_eq!(true, cal.is_holiday(ymd(2019, 11, 24)));
    assert_eq!(false, cal.is_business_day(ymd(2019, 11, 25)));
    assert_eq!(true, cal.is_business_day(ymd(2019, 11, 26)));
}

#[test]
fn test_yearly_day() {
    let holidays = vec![
        Holiday::YearlyDay { month: 11, day: 1, first: None, last: None },
        Holiday::YearlyDay { month: 11, day: 2, first: Some(2019), last: None },
        Holiday::YearlyDay { month: 11, day: 3, first: None, last: Some(2019) },
        Holiday::YearlyDay { month: 11, day: 4, first: Some(2019), last: Some(2019) },
    ];
    let cal = Calendar::calc_calendar(&holidays, 2018, 2020).unwrap();

    assert_eq!(true, cal.is_holiday(ymd(2018, 11, 1)));
    assert_eq!(true, cal.is_holiday(ymd(2019, 11, 1)));
    assert_eq!(true, cal.is_holiday(ymd(2020, 11, 1)));

    assert_eq!(false, cal.is_holiday(ymd(2018, 11, 2)));
    assert_eq!(true, cal.is_holiday(ymd(2019, 11, 2)));
    assert_eq!(true, cal.is_holiday(ymd(2020, 11, 2)));

    assert_eq!(true, cal.is_holiday(ymd(2018, 11, 3)));
    assert_eq!(true, cal.is_holiday(ymd(2019, 11, 3)));
    assert_eq!(false, cal.is_holiday(ymd(2020, 11, 3)));

    assert_eq!(false, cal.is_holiday(ymd(2018, 11, 4)));
    assert_eq!(true, cal.is_holiday(ymd(2019, 11, 4)));
    assert_eq!(false, cal.is_holiday(ymd(2020, 11, 4)));
}

#[test]
fn test_movable_yearly_day() {
    let holidays = vec![
        Holiday::MovableYearlyDay { month: 11, day: 1, first: None, last: None },
        Holiday::MovableYearlyDay { month: 11, day: 2, first: None, last: None },
        Holiday::MovableYearlyDay { month: 11, day: 10, first: None, last: Some(2019) },
        Holiday::MovableYearlyDay { month: 11, day: 17, first: Some(2019), last: None },
        Holiday::MovableYearlyDay { month: 11, day: 24, first: Some(2019), last: Some(2019) },
    ];
    let cal = Calendar::calc_calendar(&holidays, 2018, 2020).unwrap();
    assert_eq!(true, cal.is_holiday(ymd(2018, 11, 1)));
    assert_eq!(true, cal.is_holiday(ymd(2018, 11, 2)));
    assert_eq!(true, cal.is_holiday(ymd(2019, 11, 1)));
    assert_eq!(true, cal.is_holiday(ymd(2019, 11, 4)));
    assert_eq!(true, cal.is_holiday(ymd(2020, 11, 2)));
    assert_eq!(true, cal.is_holiday(ymd(2020, 11, 3)));

    assert_eq!(true, cal.is_holiday(ymd(2018, 11, 12)));
    assert_eq!(true, cal.is_holiday(ymd(2019, 11, 11)));
    assert_eq!(false, cal.is_holiday(ymd(2020, 11, 10)));
    assert_eq!(false, cal.is_holiday(ymd(2018, 11, 19)));
    assert_eq!(true, cal.is_holiday(ymd(2019, 11, 18)));
    assert_eq!(true, cal.is_holiday(ymd(2020, 11, 17)));
    assert_eq!(false, cal.is_holiday(ymd(2018, 11, 26)));
    assert_eq!(true, cal.is_holiday(ymd(2019, 11, 25)));
    assert_eq!(false, cal.is_holiday(ymd(2020, 11, 24)));
}

// Good Friday example
#[test]
fn test_easter_offset() {
    let holidays = vec![Holiday::EasterOffset(-2)];
    let cal = Calendar::calc_calendar(&holidays, 2019, 2020).unwrap();
    assert_eq!(false, cal.is_business_day(ymd(2019, 4, 19)));
    assert_eq!(false, cal.is_business_day(ymd(2020, 4, 10)));
}

#[test]
fn test_month_weekday() {
    let holidays = vec![
        Holiday::MonthWeekday { month: 11, weekday: Weekday::Mon, nth: NthWeekday::First, first: None, last: None },
        Holiday::MonthWeekday { month: 11, weekday: Weekday::Tue, nth: NthWeekday::Second, first: None, last: None },
        Holiday::MonthWeekday { month: 11, weekday: Weekday::Wed, nth: NthWeekday::Third, first: None, last: None },
        Holiday::MonthWeekday { month: 11, weekday: Weekday::Thu, nth: NthWeekday::Fourth, first: None, last: None },
        Holiday::MonthWeekday { month: 11, weekday: Weekday::Fri, nth: NthWeekday::Last, first: None, last: None },
        Holiday::MonthWeekday { month: 11, weekday: Weekday::Sat, nth: NthWeekday::First, first: None, last: Some(2018) },
        Holiday::MonthWeekday { month: 11, weekday: Weekday::Sun, nth: NthWeekday::Last, first: Some(2020), last: None },
    ];
    let cal = Calendar::calc_calendar(&holidays, 2018, 2020).unwrap();
    assert_eq!(true, cal.is_holiday(ymd(2019, 11, 4)));
    assert_eq!(true, cal.is_holiday(ymd(2019, 11, 12)));
    assert_eq!(true, cal.is_holiday(ymd(2019, 11, 20)));
    assert_eq!(true, cal.is_holiday(ymd(2019, 11, 28)));
    assert_eq!(true, cal.is_holiday(ymd(2019, 11, 29)));

    assert_eq!(true, cal.is_holiday(ymd(2018, 11, 3)));
    assert_eq!(false, cal.is_holiday(ymd(2019, 11, 2)));
    assert_eq!(false, cal.is_holiday(ymd(2020, 11, 7)));
    assert_eq!(false, cal.is_holiday(ymd(2018, 11, 25)));
    assert_eq!(false, cal.is_holiday(ymd(2019, 11, 24)));
    assert_eq!(true, cal.is_holiday(ymd(2020, 11, 29)));
}
