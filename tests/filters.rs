use lgg::calendar::Time;
use lgg::filters::{date_is_in_range, time_is_in_range, DateFilter, TimeFilter};
use lgg::calendar::Date;

fn t(h: u32, m: u32, s: u32) -> Time {
    Time::from_hms(h, m, s).unwrap()
}

#[test]
fn single_time_matches_by_hour() {
    assert!(time_is_in_range(TimeFilter::Single(t(12, 0, 0)), t(12, 0, 0)));
    assert!(time_is_in_range(TimeFilter::Single(t(12, 0, 0)), t(12, 0, 1)));
}

#[test]
fn range_is_half_open_normal() {
    let f = TimeFilter::Range(t(6, 0, 0), t(12, 0, 0));
    assert!(time_is_in_range(f, t(6, 0, 0)));
    assert!(time_is_in_range(f, t(11, 59, 59)));
    assert!(!time_is_in_range(f, t(12, 0, 0)));
    assert!(!time_is_in_range(f, t(5, 59, 59)));
}

#[test]
fn range_wraps_midnight() {
    let f = TimeFilter::Range(t(22, 0, 0), t(2, 0, 0));
    assert!(time_is_in_range(f, t(23, 0, 0)));
    assert!(time_is_in_range(f, t(1, 59, 59)));
    assert!(!time_is_in_range(f, t(2, 0, 0)));
    assert!(!time_is_in_range(f, t(21, 59, 59)));
}

#[test]
fn boundaries_across_adjacent_ranges_do_not_double_count() {
    let morning = TimeFilter::Range(t(6, 0, 0), t(12, 0, 0));
    let afternoon = TimeFilter::Range(t(12, 0, 0), t(18, 0, 0));
    assert!(time_is_in_range(morning, t(6, 0, 0)));
    assert!(!time_is_in_range(morning, t(12, 0, 0)));
    assert!(time_is_in_range(afternoon, t(12, 0, 0)));
}

#[test]
fn single_time_other_hour_does_not_match() {
    assert!(!time_is_in_range(TimeFilter::Single(t(12, 0, 0)), t(13, 0, 0)));
}

#[test]
fn reversed_date_range_matches_nothing() {
    let a = Date::from_ymd(2025, 8, 20).unwrap();
    let b = Date::from_ymd(2025, 8, 10).unwrap();
    let mid = Date::from_ymd(2025, 8, 15).unwrap();
    assert!(!date_is_in_range(DateFilter::Range(a, b), mid));
    assert!(date_is_in_range(DateFilter::Range(b, a), mid));
    assert!(date_is_in_range(DateFilter::Single(mid), mid));
}

#[test]
fn time_out_of_range_is_rejected() {
    assert!(Time::from_hms(24, 0, 0).is_none());
    assert!(Time::from_hms(23, 60, 0).is_none());
    assert!(Time::from_hms(23, 59, 60).is_none());
}
