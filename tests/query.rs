use lgg::todos::{done_todos_file, pending_todos_file, todos_file};
use lgg::calendar::{Date, Time};
use lgg::filters::{DateFilter, TimeFilter};
use lgg::query::{days_to_read, filter_by_tags, filter_by_time, next_day_to_visit, sort_by_date, JournalEntry};

fn d(y: i32, m: u32, day: u32) -> Date {
    Date::from_ymd(y, m, day).unwrap()
}

fn t(h: u32, m: u32) -> Time {
    Time::from_hms(h, m, 0).unwrap()
}

fn entry(date: Date, time: Time, title: &str, tags: &[&str]) -> JournalEntry {
    JournalEntry {
        date,
        time,
        title: title.to_string(),
        body: String::new(),
        tags: tags.iter().map(|s| s.to_string()).collect(),
        path: String::from("journal.md"),
    }
}

fn titles(v: &[JournalEntry]) -> Vec<&str> {
    v.iter().map(|e| e.title.as_str()).collect()
}

#[test]
fn entries_merge_in_date_order() {
    let v = vec![
        entry(d(2025, 8, 16), t(8, 0), "c", &[]),
        entry(d(2025, 8, 14), t(21, 0), "a", &[]),
        entry(d(2025, 8, 16), t(7, 0), "d", &[]),
        entry(d(2025, 8, 15), t(12, 0), "b", &[]),
    ];
    let sorted = sort_by_date(v);
    assert_eq!(titles(&sorted), vec!["a", "b", "c", "d"]);
}

#[test]
fn time_filter_keeps_half_open_range() {
    let v = vec![
        entry(d(2025, 8, 4), t(6, 0), "morning", &[]),
        entry(d(2025, 8, 4), t(12, 0), "noon", &[]),
        entry(d(2025, 8, 4), t(21, 0), "night", &[]),
    ];
    let kept = filter_by_time(v, TimeFilter::Range(t(6, 0), t(12, 0)));
    assert_eq!(titles(&kept), vec!["morning"]);
}

#[test]
fn time_filter_single_hour() {
    let v = vec![
        entry(d(2025, 8, 4), t(21, 0), "night", &[]),
        entry(d(2025, 8, 4), t(21, 45), "late night", &[]),
        entry(d(2025, 8, 4), t(12, 0), "noon", &[]),
    ];
    let kept = filter_by_time(v, TimeFilter::Single(t(21, 0)));
    assert_eq!(titles(&kept), vec!["night", "late night"]);
}

#[test]
fn tag_filter_is_any_of_and_ignores_case() {
    let v = vec![
        entry(d(2025, 8, 4), t(9, 0), "work", &["@work"]),
        entry(d(2025, 8, 4), t(10, 0), "home", &["@home"]),
        entry(d(2025, 8, 4), t(11, 0), "none", &[]),
    ];
    let wanted = vec![" @WORK ".to_string(), "@home".to_string()];
    let kept = filter_by_tags(v, &wanted);
    assert_eq!(titles(&kept), vec!["work", "home"]);
}

#[test]
fn tag_filter_without_match_is_empty() {
    let v = vec![entry(d(2025, 8, 4), t(9, 0), "work", &["@work"])];
    let kept = filter_by_tags(v, &vec!["@test".to_string()]);
    assert!(kept.is_empty());
}

#[test]
fn todo_files_live_in_root() {
    assert_eq!(todos_file("/tmp/lgg"), "/tmp/lgg/todos.md");
    assert_eq!(pending_todos_file("/tmp/lgg"), "/tmp/lgg/pending_todos.md");
    assert_eq!(done_todos_file("/tmp/lgg/"), "/tmp/lgg/done_todos.md");
}

#[test]
fn dates_in_range_are_inclusive() {
    let dates = lgg::query::get_dates_in_range(d(2025, 8, 15), d(2025, 8, 17));
    assert_eq!(dates, vec![d(2025, 8, 15), d(2025, 8, 16), d(2025, 8, 17)]);
    assert!(lgg::query::get_dates_in_range(d(2025, 8, 17), d(2025, 8, 15)).is_empty());
}

#[test]
fn walking_days_skips_missing_directories() {
    assert_eq!(next_day_to_visit(d(2025, 8, 15), true, true), Some(d(2025, 8, 16)));
    assert_eq!(next_day_to_visit(d(2025, 8, 15), true, false), Some(d(2025, 9, 1)));
    assert_eq!(next_day_to_visit(d(2025, 12, 15), true, false), Some(d(2026, 1, 1)));
    assert_eq!(next_day_to_visit(d(2025, 8, 15), false, false), Some(d(2026, 1, 1)));
}

#[test]
fn reversed_range_is_not_read() {
    assert_eq!(days_to_read(DateFilter::Range(d(2025, 8, 20), d(2025, 8, 10))), None);
    assert_eq!(days_to_read(DateFilter::Single(d(2025, 8, 20))), Some((d(2025, 8, 20), d(2025, 8, 20))));
}
