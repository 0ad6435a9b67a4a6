use lgg::calendar::{Date, Time};
use lgg::filters::DateFilter;
use lgg::input::{entry_time, normalize_title, parse_raw_user_input, split_title_body};
use lgg::keywords::Keywords;
use lgg::resolve::{parse_date_token, parse_time_token, ParseOptions};

fn d(y: i32, m: u32, day: u32) -> Date {
    Date::from_ymd(y, m, day).unwrap()
}

fn t(h: u32, m: u32, s: u32) -> Option<Time> {
    Some(Time::from_hms(h, m, s).unwrap())
}

fn opts(anchor: Date) -> ParseOptions {
    ParseOptions::new(anchor)
}

#[test]
fn parse_input_iso_date_prefix() {
    let k = Keywords::new();
    let p = parse_raw_user_input(&k, "01/08/2025: Title.\n Body", &opts(d(2025, 8, 15)));
    assert_eq!(p.date, d(2025, 8, 1));
    assert!(p.time.is_none());
    assert_eq!(p.title, "Title.");
    assert_eq!(p.body, "Body");
    assert!(p.explicit_date);
}

#[test]
fn parse_input_iso_datetime_prefix() {
    let k = Keywords::new();
    let p = parse_raw_user_input(&k, "2025-08-01T13:30: # Title\nBody", &opts(d(2025, 8, 15)));
    assert_eq!(p.date, d(2025, 8, 1));
    assert_eq!(p.time, t(13, 30, 0));
    assert_eq!(p.title, "Title");
    assert_eq!(p.body, "Body");
    assert!(p.explicit_date);
}

#[test]
fn parse_input_natural_yesterday_with_time() {
    let k = Keywords::new();
    let note1 = parse_raw_user_input(&k, "yesterday at 6am: Note 1", &opts(d(2025, 8, 15)));
    assert_eq!(note1.date, d(2025, 8, 14));
    assert_eq!(note1.time, t(6, 0, 0));
    assert_eq!(note1.title, "Note 1");
    assert_eq!(note1.body, "");
}

#[test]
fn parse_input_natural_single_hour_with_time() {
    let k = Keywords::new();
    let o = opts(d(2025, 8, 15));
    let note1 = parse_raw_user_input(&k, "today at 9: Note 1", &o);
    let note2 = parse_raw_user_input(&k, "today at 17: Note 2", &o);
    let note3 = parse_raw_user_input(&k, "today at 9am: Note 3", &o);
    let note4 = parse_raw_user_input(&k, "at morning: Note 4", &o);
    let note5 = parse_raw_user_input(&k, "today at morning: Note 5", &o);
    assert_eq!(note1.date, d(2025, 8, 15));
    assert_eq!(note1.time, t(9, 0, 0));
    assert_eq!(note1.title, "Note 1");
    assert_eq!(note2.date, d(2025, 8, 15));
    assert_eq!(note2.time, t(17, 0, 0));
    assert_eq!(note2.title, "Note 2");
    assert_eq!(note3.date, d(2025, 8, 15));
    assert_eq!(note3.time, t(9, 0, 0));
    assert_eq!(note3.title, "Note 3");
    assert_eq!(note4.date, d(2025, 8, 15));
    assert_eq!(note4.time, t(8, 0, 0));
    assert_eq!(note4.title, "Note 4");
    assert_eq!(note5.date, d(2025, 8, 15));
    assert_eq!(note5.time, t(8, 0, 0));
    assert_eq!(note5.title, "Note 5");
}

#[test]
fn parse_input_title_newline_body() {
    let k = Keywords::new();
    let p = parse_raw_user_input(&k, "My title\nAnd the body.", &opts(d(2025, 8, 15)));
    assert_eq!(p.title, "My title");
    assert_eq!(p.body, "And the body.");
    assert!(!p.explicit_date);
    assert!(p.time.is_none());
}

#[test]
fn body_with_sub_headers() {
    let k = Keywords::new();
    let p = parse_raw_user_input(&k, "My title\nAnd the body.\n### Header 3", &opts(d(2025, 8, 15)));
    assert_eq!(p.title, "My title");
    assert_eq!(p.body, "And the body.\n### Header 3");
    assert!(!p.explicit_date);
    assert!(p.time.is_none());
}

#[test]
fn parse_input_custom_format_dd_mm_yyyy() {
    let k = Keywords::new();
    let custom = ParseOptions {
        reference_date: d(2025, 8, 15),
        formats: vec!["%d-%m-%Y".to_string(), "%d/%m/%Y".to_string()],
    };
    let note1 = parse_raw_user_input(&k, "01-08-2025: Title 1.", &custom);
    let note2 = parse_raw_user_input(&k, "01/09/2025: Title 2.", &custom);
    assert_eq!(note1.date, d(2025, 8, 1));
    assert!(note1.time.is_none());
    assert_eq!(note1.title, "Title 1.");
    assert!(note1.body.is_empty());
    assert!(note1.explicit_date);
    assert_eq!(note2.date, d(2025, 9, 1));
    assert!(note2.time.is_none());
    assert_eq!(note2.title, "Title 2.");
    assert!(note2.body.is_empty());
    assert!(note2.explicit_date);
}

#[test]
fn parse_input_hashes_stripped_from_title() {
    let k = Keywords::new();
    let p = parse_raw_user_input(&k, "today: # My Title ##\n### Body", &opts(d(2025, 8, 15)));
    assert_eq!(p.title, "My Title");
    assert_eq!(p.body, "### Body");
}

#[test]
fn parse_input_natural_days_of_week() {
    let k = Keywords::new();
    let anchor = d(2025, 8, 20);
    let o = opts(anchor);
    assert_eq!(parse_raw_user_input(&k, "monday: Task A", &o).date, d(2025, 8, 18));
    assert_eq!(parse_raw_user_input(&k, "tuesday: Task B", &o).date, d(2025, 8, 19));
    assert_eq!(parse_raw_user_input(&k, "wednesday: Task C", &o).date, anchor);
    assert_eq!(parse_raw_user_input(&k, "thursday: Task D", &o).date, d(2025, 8, 14));
    assert_eq!(parse_raw_user_input(&k, "friday: Task E", &o).date, d(2025, 8, 15));
    assert_eq!(parse_raw_user_input(&k, "saturday: Task F", &o).date, d(2025, 8, 16));
    assert_eq!(parse_raw_user_input(&k, "sunday: Task G", &o).date, d(2025, 8, 17));
}

#[test]
fn parse_input_time_token_parsing() {
    let k = Keywords::new();
    let o = opts(d(2025, 8, 20));
    let time_of = |s: &str| parse_raw_user_input(&k, s, &o).time;
    assert_eq!(time_of("at morning: Title"), t(8, 0, 0));
    assert_eq!(time_of("today at morning: Title A"), t(8, 0, 0));
    assert_eq!(time_of("tuesday at noon: Title A"), t(12, 0, 0));
    assert_eq!(time_of("wednesday at evening: Title A"), t(18, 0, 0));
    assert_eq!(time_of("thursday at night: Title A"), t(21, 0, 0));
    assert_eq!(time_of("friday at midnight: Title A"), t(0, 0, 0));
    assert_eq!(time_of("11/04/2025 at 5am: Title A"), t(5, 0, 0));
    assert_eq!(time_of("at 5pm: Title A"), t(17, 0, 0));
    assert_eq!(time_of("at 5:30am: Title A"), t(5, 30, 0));
    assert_eq!(time_of("at 5:30 pm: Title A"), t(17, 30, 0));
    assert_eq!(time_of("at 12am: Title A"), t(0, 0, 0));
    assert_eq!(time_of("at 12pm: Title A"), t(12, 0, 0));
    assert_eq!(time_of("at 5PM: Title A"), t(17, 0, 0));
    assert_eq!(time_of("at 12:45AM: Title A"), t(0, 45, 0));
    assert_eq!(time_of("at 08:00: Title A"), t(8, 0, 0));
    assert_eq!(time_of("at 23:59: Title A"), t(23, 59, 0));
    assert_eq!(time_of("at 8: Title A"), t(8, 0, 0));
    assert_eq!(time_of("at 17: Title A"), t(17, 0, 0));
    assert!(time_of("at 25:00: Title A").is_none());
    assert!(time_of("at 13:00pm: Title A").is_none());
    assert!(time_of("at not-a-time: Title A").is_none());
}

#[test]
fn parse_input_natural_date_ranges() {
    let k = Keywords::new();
    let o = opts(d(2025, 8, 20));
    let last_week = parse_date_token(&k, "last week", None, &o).unwrap();
    assert_eq!(last_week, DateFilter::Range(d(2025, 8, 11), d(2025, 8, 17)));
    let last_month = parse_date_token(&k, "last month", None, &o).unwrap();
    assert_eq!(last_month, DateFilter::Range(d(2025, 7, 1), d(2025, 7, 31)));
}

#[test]
fn natural_this_date_ranges() {
    let k = Keywords::new();
    let o = opts(d(2025, 8, 20));
    let this_week = parse_date_token(&k, "this week", None, &o).unwrap();
    assert_eq!(this_week, DateFilter::Range(d(2025, 8, 18), d(2025, 8, 24)));
    let this_month = parse_date_token(&k, "this month", None, &o).unwrap();
    assert_eq!(this_month, DateFilter::Range(d(2025, 8, 1), d(2025, 8, 31)));
    let this_year = parse_date_token(&k, "this year", None, &o).unwrap();
    assert_eq!(this_year, DateFilter::Range(d(2025, 1, 1), d(2025, 12, 31)));
}

#[test]
fn start_range_ignores_end_single() {
    let k = Keywords::new();
    let o = opts(d(2025, 8, 20));
    let res = parse_date_token(&k, "last week", Some("2025-08-01"), &o).unwrap();
    assert_eq!(res, DateFilter::Range(d(2025, 8, 11), d(2025, 8, 17)));
}

#[test]
fn start_range_ignores_end_range() {
    let k = Keywords::new();
    let o = opts(d(2025, 8, 20));
    let res = parse_date_token(&k, "last month", Some("last week"), &o).unwrap();
    assert_eq!(res, DateFilter::Range(d(2025, 7, 1), d(2025, 7, 31)));
}

#[test]
fn two_singles_preserve_user_order_even_when_fucked_up() {
    let k = Keywords::new();
    let o = opts(d(2025, 8, 20));
    let res = parse_date_token(&k, "20/08/2025", Some("10/08/2025"), &o).unwrap();
    assert_eq!(res, DateFilter::Range(d(2025, 8, 20), d(2025, 8, 10)));
}

#[test]
fn weekday_plus_single_end_becomes_range_preserving_order() {
    let k = Keywords::new();
    let o = opts(d(2025, 8, 20));
    let res = parse_date_token(&k, "monday", Some("19/08/2025"), &o).unwrap();
    assert_eq!(res, DateFilter::Range(d(2025, 8, 18), d(2025, 8, 19)));
}

#[test]
fn start_single_end_is_range_returns_that_range() {
    let k = Keywords::new();
    let o = opts(d(2025, 8, 20));
    let res = parse_date_token(&k, "10/08/2025", Some("last week"), &o).unwrap();
    assert_eq!(res, DateFilter::Range(d(2025, 8, 11), d(2025, 8, 17)));
}

#[test]
fn single_token_without_end_stays_single() {
    let k = Keywords::new();
    let o = opts(d(2025, 8, 20));
    assert_eq!(parse_date_token(&k, "yesterday", None, &o), Some(DateFilter::Single(d(2025, 8, 19))));
    assert_eq!(parse_date_token(&k, "tomorrow", None, &o), Some(DateFilter::Single(d(2025, 8, 21))));
    assert_eq!(parse_date_token(&k, "not-a-date", None, &o), None);
}

#[test]
fn last_year_and_month_across_year_end() {
    let k = Keywords::new();
    let o = opts(d(2025, 1, 10));
    assert_eq!(parse_date_token(&k, "last month", None, &o), Some(DateFilter::Range(d(2024, 12, 1), d(2024, 12, 31))));
    assert_eq!(parse_date_token(&k, "last year", None, &o), Some(DateFilter::Range(d(2024, 1, 1), d(2024, 12, 31))));
    let feb = opts(d(2024, 2, 10));
    assert_eq!(parse_date_token(&k, "this month", None, &feb), Some(DateFilter::Range(d(2024, 2, 1), d(2024, 2, 29))));
}

#[test]
fn last_week_on_a_sunday_is_the_week_before() {
    let k = Keywords::new();
    let o = opts(d(2025, 8, 24));
    assert_eq!(parse_date_token(&k, "last week", None, &o), Some(DateFilter::Range(d(2025, 8, 11), d(2025, 8, 17))));
    assert_eq!(parse_date_token(&k, "this week", None, &o), Some(DateFilter::Range(d(2025, 8, 18), d(2025, 8, 24))));
}

#[test]
fn alias_works_in_date_tokens() {
    let mut k = Keywords::new();
    k.extend(&[("ytd".into(), "yesterday".into())]);
    let o = opts(d(2025, 8, 15));
    let p = parse_raw_user_input(&k, "ytd: Note", &o);
    assert_eq!(p.date, d(2025, 8, 14));
    assert!(p.explicit_date);
}

#[test]
fn time_tokens_directly() {
    let k = Keywords::new();
    assert_eq!(parse_time_token(&k, "noon"), t(12, 0, 0));
    assert_eq!(parse_time_token(&k, "0"), t(0, 0, 0));
    assert_eq!(parse_time_token(&k, "23"), t(23, 0, 0));
    assert!(parse_time_token(&k, "24").is_none());
    assert!(parse_time_token(&k, "0am").is_none());
    assert!(parse_time_token(&k, "5:60pm").is_none());
    assert_eq!(parse_time_token(&k, "11:15:30pm"), t(23, 15, 30));
}

#[test]
fn no_prefix_uses_reference_date() {
    let k = Keywords::new();
    let p = parse_raw_user_input(&k, "Note 1. With body.", &opts(d(2025, 8, 15)));
    assert_eq!(p.date, d(2025, 8, 15));
    assert!(p.time.is_none());
    assert_eq!(p.title, "Note 1.");
    assert_eq!(p.body, "With body.");
    assert!(!p.explicit_date);
}

#[test]
fn unknown_prefix_keeps_whole_input() {
    let k = Keywords::new();
    let p = parse_raw_user_input(&k, "Reminder: call Bob", &opts(d(2025, 8, 15)));
    assert_eq!(p.title, "Reminder: call Bob");
    assert!(!p.explicit_date);
}

#[test]
fn split_and_normalize_directly() {
    assert_eq!(split_title_body("Hi! there"), ("Hi!".to_string(), "there".to_string()));
    assert_eq!(split_title_body("Just a title"), ("Just a title".to_string(), String::new()));
    assert_eq!(normalize_title("  ## Heading #  "), "Heading");
}


fn default_time() -> Time {
    Time::from_hms(21, 0, 0).unwrap()
}

#[test]
fn natural_language_date_with_time() {
    let k = Keywords::new();
    let note1 = parse_raw_user_input(&k, "yesterday at 6am: Note 1", &opts(d(2025, 8, 15)));
    assert_eq!(note1.date, d(2025, 8, 14));
    assert_eq!(entry_time(&note1, default_time(), t(12, 34, 0).unwrap()), t(6, 0, 0).unwrap());
    assert_eq!(note1.title, "Note 1");
}

#[test]
fn natural_language_time() {
    let k = Keywords::new();
    let note1 = parse_raw_user_input(&k, "saturday at noon: Note 1", &opts(d(2025, 8, 15)));
    assert_eq!(note1.date, d(2025, 8, 9));
    assert_eq!(entry_time(&note1, default_time(), t(8, 0, 0).unwrap()), t(12, 0, 0).unwrap());
    assert_eq!(note1.title, "Note 1");
    assert_eq!(note1.body, "");
}

#[test]
fn no_date_no_time_defaults() {
    let k = Keywords::new();
    let now = t(14, 27, 0).unwrap();
    let note1 = parse_raw_user_input(&k, "Note 1. With body.", &opts(d(2025, 8, 15)));
    assert_eq!(note1.date, d(2025, 8, 15));
    assert_eq!(entry_time(&note1, default_time(), now).hour, now.hour);
    assert_eq!(note1.title, "Note 1.");
    assert_eq!(note1.body, "With body.");
}

#[test]
fn lgg_custom_format_dd_mm_yyyy() {
    let k = Keywords::new();
    let custom = ParseOptions {
        reference_date: d(2025, 8, 15),
        formats: vec!["%d-%m-%Y".to_string(), "%d/%m/%Y".to_string()],
    };
    let now = t(9, 0, 0).unwrap();
    let note1 = parse_raw_user_input(&k, "01-08-2025: Title 1.", &custom);
    let note2 = parse_raw_user_input(&k, "01/09/2025: Title 2.", &custom);
    assert_eq!(note1.date, d(2025, 8, 1));
    assert_eq!(entry_time(&note1, default_time(), now), default_time());
    assert_eq!(note1.title, "Title 1.");
    assert!(note1.body.is_empty());
    assert_eq!(note2.date, d(2025, 9, 1));
    assert_eq!(entry_time(&note2, default_time(), now), default_time());
    assert_eq!(note2.title, "Title 2.");
    assert!(note2.body.is_empty());
}
