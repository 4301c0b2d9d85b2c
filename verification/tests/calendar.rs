use flights::{get_month, YearMonth, MAX_DAY, MAX_YEAR, MIN_DAY, MIN_YEAR};
use time::{Date, Month};

fn month(year: i32, number: u8) -> YearMonth {
    YearMonth::new(year, number).unwrap()
}

#[test]
fn limits_are_those_of_the_calendar() {
    assert_eq!(MIN_DAY, Date::MIN.to_julian_day());
    assert_eq!(MAX_DAY, Date::MAX.to_julian_day());
    assert_eq!(MIN_YEAR, Date::MIN.year());
    assert_eq!(MAX_YEAR, Date::MAX.year());
}

#[test]
fn new_accepts_the_months_of_the_calendar() {
    assert!(YearMonth::new(2024, 1).is_some());
    assert!(YearMonth::new(2024, 12).is_some());
    assert!(YearMonth::new(-9999, 1).is_some());
    assert!(YearMonth::new(9999, 12).is_some());
    assert!(YearMonth::new(2024, 0).is_none());
    assert!(YearMonth::new(2024, 13).is_none());
    assert!(YearMonth::new(10000, 1).is_none());
    assert!(YearMonth::new(-10000, 1).is_none());
    let m = month(2023, 11);
    assert_eq!(m.year(), 2023);
    assert_eq!(m.month(), 11);
}

#[test]
fn next_rolls_over_in_december() {
    assert_eq!(month(2023, 11).next(), Some(month(2023, 12)));
    assert_eq!(month(2023, 12).next(), Some(month(2024, 1)));
    assert_eq!(month(-1, 12).next(), Some(month(0, 1)));
    assert_eq!(month(9999, 11).next(), Some(month(9999, 12)));
    assert_eq!(month(9999, 12).next(), None);
}

#[test]
fn of_day_gives_the_month_of_a_julian_day() {
    assert_eq!(YearMonth::of_day(2_451_545), month(2000, 1));
    assert_eq!(YearMonth::of_day(2_458_485), month(2019, 1));
    assert_eq!(YearMonth::of_day(2_458_849), month(2019, 12));
    assert_eq!(YearMonth::of_day(0), month(-4713, 11));
    assert_eq!(YearMonth::of_day(MIN_DAY), month(-9999, 1));
    assert_eq!(YearMonth::of_day(MAX_DAY), month(9999, 12));
}

#[test]
fn first_day_gives_the_julian_day_of_the_first() {
    assert_eq!(month(2000, 1).first_day(), 2_451_545);
    assert_eq!(month(2019, 1).first_day(), 2_458_485);
    assert_eq!(month(2019, 12).first_day(), 2_458_849 - 30);
    assert_eq!(month(-9999, 1).first_day(), MIN_DAY);
    assert_eq!(month(9999, 12).first_day(), MAX_DAY - 30);
}

#[test]
fn get_month_spans_the_whole_month() {
    let (from, to) = get_month(&month(2024, 2));
    assert_eq!(from, Date::from_calendar_date(2024, Month::February, 1).unwrap().to_julian_day());
    assert_eq!(to, Date::from_calendar_date(2024, Month::March, 1).unwrap().to_julian_day());
    assert_eq!(to - from, 29);
    let (from, to) = get_month(&month(2023, 2));
    assert_eq!(to - from, 28);
    let (from, to) = get_month(&month(2023, 12));
    assert_eq!(from, Date::from_calendar_date(2023, Month::December, 1).unwrap().to_julian_day());
    assert_eq!(to, Date::from_calendar_date(2024, Month::January, 1).unwrap().to_julian_day());
    assert_eq!(to - from, 31);
}

#[test]
fn every_day_of_a_month_lies_in_it() {
    for (year, number) in [(2024, 2), (2023, 12), (1999, 4), (-44, 3)] {
        let m = month(year, number);
        let (from, to) = get_month(&m);
        for day in from..to {
            assert_eq!(YearMonth::of_day(day), m);
        }
        assert_eq!(YearMonth::of_day(to), m.next().unwrap());
        assert!(YearMonth::of_day(from - 1) != m);
    }
}

#[test]
fn last_month_of_the_calendar_has_no_next() {
    assert!(month(9999, 12).is_last());
    assert!(!month(9999, 11).is_last());
    assert!(!month(2024, 12).is_last());
    assert_eq!(month(2024, 12).following_month(), month(2025, 1));
    assert_eq!(month(2024, 1).following_month(), month(2024, 2));
    assert_eq!(month(-9999, 12).following_month(), month(-9998, 1));
}
