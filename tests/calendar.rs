use lgg::calendar::{Date, Time, MAX_DAY, MIN_DAY};
use lgg::keywords::Keywords;
use lgg::resolve::{parse_date_token, ParseOptions};

#[test]
fn calendar_bounds() {
    let first = Date::from_ymd(1, 1, 1).unwrap();
    let last = Date::from_ymd(9999, 12, 31).unwrap();
    assert_eq!(first.days, MIN_DAY);
    assert_eq!(last.days, MAX_DAY);
    assert!(Date::from_ymd(10000, 1, 1).is_none());
    assert!(Date::from_ymd(0, 12, 31).is_none());
    assert!(last.add_days(1).is_none());
    assert!(first.add_days(-1).is_none());
    assert_eq!(first.weekday_index(), 0);
}

#[test]
fn invalid_calendar_days_are_rejected() {
    assert!(Date::from_ymd(2025, 2, 29).is_none());
    assert!(Date::from_ymd(2024, 2, 29).is_some());
    assert!(Date::from_ymd(2025, 13, 1).is_none());
}

#[test]
fn day_numbers_and_weekdays() {
    let d = Date::from_ymd(1999, 9, 3).unwrap();
    assert_eq!(d.days, 730_000);
    assert_eq!(d.weekday_index(), 4);
    assert_eq!(d.ymd(), (1999, 9, 3));
    assert_eq!(Date::from_ymd(2025, 8, 20).unwrap().weekday_index(), 2);
}

#[test]
fn tomorrow_past_the_last_day_is_none() {
    let k = Keywords::new();
    let o = ParseOptions::new(Date::from_ymd(9999, 12, 31).unwrap());
    assert!(parse_date_token(&k, "tomorrow", None, &o).is_none());
    assert!(parse_date_token(&k, "today", None, &o).is_some());
}

#[test]
fn time_text_parsing_and_seconds() {
    let t = Time::parse_with("07:05", "%H:%M").unwrap();
    assert_eq!(t, Time::from_hms(7, 5, 0).unwrap());
    assert_eq!(t.seconds(), 7 * 3600 + 5 * 60);
    assert!(Time::parse_with("7 o'clock", "%H:%M").is_none());
}
