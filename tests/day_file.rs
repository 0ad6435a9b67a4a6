use lgg::calendar::{Date, Time};
use lgg::day_file::{parse_day_file, parse_file_content, ParsedEntry};
use lgg::format::{
    day_file_with_entry, format_day_header, format_journal_entry_block, plan_day_file_write,
    DayFileWrite,
};

fn d(y: i32, m: u32, day: u32) -> Date {
    Date::from_ymd(y, m, day).unwrap()
}

fn t(h: u32, m: u32) -> Time {
    Time::from_hms(h, m, 0).unwrap()
}

#[test]
fn parse_entries_parse_valid_day_file() {
    let content = r#"# Friday, 15 Aug 2025

## 12:34 - Quiet morning

Body... with @work and @fav

## 18:05 - Walk by the river

Another paragraph... @health

### Header 3 is valid
"#;
    let result = parse_file_content(content.trim());
    assert_eq!(result.entries.len(), 2);
    let expected_date = d(2025, 8, 15);
    assert_eq!(result.entries[0].date, expected_date);
    assert_eq!(result.entries[0].title, "Quiet morning");
    assert_eq!(result.entries[0].body, "Body... with @work and @fav");
    assert_eq!(result.entries[1].date, expected_date);
    assert_eq!(result.entries[1].title, "Walk by the river");
    assert_eq!(result.entries[1].body, "Another paragraph... @health\n\n### Header 3 is valid");
    assert_eq!(result.entries[0].tags, vec!["@work".to_string(), "@fav".to_string()]);
    assert_eq!(result.entries[1].tags, vec!["@health".to_string()]);
}

#[test]
fn parse_entries_parse_file_with_no_entries() {
    let content = "# Friday, 15 Aug 2025";
    let result = parse_file_content(content);
    assert!(result.entries.is_empty());
    assert!(result.errors.is_empty());
}

#[test]
fn parse_entries_parse_file_with_malformed_header_fails() {
    let content = "# Not a date";
    let result = parse_file_content(content);
    assert!(result.errors.len() == 1);
    assert!(result.errors[0].message().contains("Invalid or missing H1 date header"));
    assert!(result.entries.is_empty());
}

#[test]
fn parse_entries_parse_empty_file_fails() {
    let content = "";
    let result = parse_file_content(content);
    assert!(result.errors.len() == 1);
    assert!(result.errors[0].message().contains("Empty file"));
}

#[test]
fn parse_entries_parse_file_with_malformed_entry_returns_good_entry_and_errors() {
    let content = r#"# Friday, 15 Aug 2025

## NOT A TIME - Bad entry

Body...

## 18:05 - Good entry

Body...
"#;
    let result = parse_file_content(content.trim());
    assert_eq!(result.entries.len(), 1);
    assert_eq!(result.entries[0].title, "Good entry");
    assert!(result.errors.len() == 1);
    assert!(result.errors[0].message().contains("Invalid time"));
}

#[test]
fn parse_entries_parse_entry_with_no_body() {
    let content = r#"# Friday, 15 Aug 2025

## 12:34 - Title only
## 18:05 - Another entry

With a body.
"#;
    let result = parse_file_content(content.trim());
    assert_eq!(result.entries.len(), 2);
    assert_eq!(result.entries[0].title, "Title only");
    assert!(result.entries[0].body.is_empty());
    assert_eq!(result.entries[1].title, "Another entry");
    assert!(!result.entries[1].body.is_empty());
}

#[test]
fn one_malformed_heading_among_two_valid_ones() {
    let content = "# Friday, 15 Aug 2025\n\n## 08:00 - First\n\nOne\n\n## no separator here\n\nTwo\n\n## 20:00 - Third\n\nThree\n";
    let result = parse_file_content(content);
    assert_eq!(result.entries.len(), 2);
    assert_eq!(result.entries[0].title, "First");
    assert_eq!(result.entries[1].title, "Third");
    assert_eq!(result.errors.len(), 1);
    assert!(result.errors[0].message().contains("no separator here"));
}

#[test]
fn heading_at_start_of_content_is_read() {
    let content = "# Friday, 15 Aug 2025\n## 07:30 - Early";
    let result = parse_file_content(content);
    assert_eq!(result.entries.len(), 1);
    assert_eq!(result.entries[0].time, t(7, 30));
    assert_eq!(result.entries[0].title, "Early");
}

#[test]
fn custom_header_format() {
    let result = parse_day_file("# 2025-08-15\n\n## 09:00 - X\n", "%Y-%m-%d");
    assert_eq!(result.entries.len(), 1);
    assert_eq!(result.entries[0].date, d(2025, 8, 15));
}

#[test]
fn tags_are_lowercased_and_deduplicated() {
    let content = "# Friday, 15 Aug 2025\n\n## 09:00 - Plan @Work\n\nMore @work and @home, not a@tag\n";
    let result = parse_file_content(content);
    assert_eq!(result.entries[0].tags, vec!["@work".to_string(), "@home".to_string()]);
}

#[test]
fn format_utils_entry_block_with_body() {
    let s = format_journal_entry_block("Quiet morning", "Body...", &t(12, 34));
    assert!(s.starts_with("## 12:34 - Quiet morning\n\nBody...\n\n"));
    assert!(s.ends_with("Body...\n\n"));
}

#[test]
fn format_utils_entry_block_without_body() {
    let s = format_journal_entry_block("Title only", "", &t(7, 5));
    assert_eq!(s, "## 07:05 - Title only\n\n");
}

#[test]
fn render_entry_block_with_body() {
    let s = format_journal_entry_block("Quiet morning", "Body...", &t(12, 34));
    assert!(s.starts_with("## 12:34 - Quiet morning\n\nBody...\n\n"));
    assert!(s.ends_with("Body...\n\n"));
}

#[test]
fn render_entry_block_without_body() {
    let s = format_journal_entry_block("Title only", "", &t(7, 5));
    assert_eq!(s, "## 07:05 - Title only\n\n");
}

#[test]
fn body_trailing_newlines_are_trimmed() {
    let s = format_journal_entry_block("T", "Body\n\n\n", &t(9, 0));
    assert_eq!(s, "## 09:00 - T\n\nBody\n\n");
}

#[test]
fn header_formats_readably() {
    let s = format_day_header("%A, %d %b %Y", d(2025, 8, 15)).unwrap();
    assert!(s.starts_with("# Fri"));
    assert!(s.starts_with("# Friday"));
    assert!(s.contains("15 Aug 2025"));
}

#[test]
fn entry_block_round_trips_through_parser() {
    let header = format_day_header("%A, %d %b %Y", d(2025, 8, 15)).unwrap();
    let block = format_journal_entry_block("Walk", "By the river.\nWith @friends", &t(18, 5));
    let content = format!("{}{}", header, block);
    let result = parse_file_content(&content);
    assert_eq!(result.entries.len(), 1);
    assert!(result.errors.is_empty());
    assert_eq!(result.entries[0].date, d(2025, 8, 15));
    assert_eq!(result.entries[0].time, t(18, 5));
    assert_eq!(result.entries[0].title, "Walk");
    assert_eq!(result.entries[0].body, "By the river.\nWith @friends");
}

#[test]
fn new_entry_is_put_in_time_order() {
    let header = format_day_header("%A, %d %b %Y", d(2025, 8, 15)).unwrap();
    let existing = format!(
        "{}{}{}",
        header,
        format_journal_entry_block("Nine", "", &t(9, 0)),
        format_journal_entry_block("Night", "Late.", &t(21, 0))
    );
    let parsed = parse_file_content(&existing);
    assert!(parsed.errors.is_empty());
    let new_entry = ParsedEntry {
        date: d(2025, 8, 15),
        time: t(7, 0),
        title: "Seven".to_string(),
        body: String::new(),
        tags: Vec::new(),
    };
    let rewritten = day_file_with_entry(&header, parsed.entries, new_entry);
    let again = parse_file_content(&rewritten);
    let titles: Vec<&str> = again.entries.iter().map(|e| e.title.as_str()).collect();
    assert_eq!(titles, vec!["Seven", "Nine", "Night"]);
    assert!(rewritten.find("## 07:00").unwrap() < rewritten.find("## 09:00").unwrap());
}

#[test]
fn tags_may_hold_hyphens() {
    let content = "# Friday, 15 Aug 2025\n\n## 09:00 - Plan @work-item\n";
    let result = parse_file_content(content);
    assert_eq!(result.entries[0].tags, vec!["@work-item".to_string()]);
}

#[test]
fn write_plan_for_new_clean_and_broken_files() {
    let header = format_day_header("%A, %d %b %Y", d(2025, 8, 15)).unwrap();
    let entry = |title: &str, h: u32| ParsedEntry {
        date: d(2025, 8, 15),
        time: t(h, 0),
        title: title.to_string(),
        body: String::new(),
        tags: Vec::new(),
    };
    match plan_day_file_write(&header, None, entry("A", 9)) {
        DayFileWrite::Create(text) => assert_eq!(text, format!("{}## 09:00 - A\n\n", header)),
        _ => panic!("a new file is created"),
    }
    let broken = parse_file_content("# Not a date");
    match plan_day_file_write(&header, Some(broken), entry("B", 8)) {
        DayFileWrite::Append(block) => assert_eq!(block, "## 08:00 - B\n\n"),
        _ => panic!("a broken file is appended to"),
    }
    let clean = parse_file_content(&format!("{}## 09:00 - A\n\n", header));
    match plan_day_file_write(&header, Some(clean), entry("B", 8)) {
        DayFileWrite::Rewrite(text) => {
            assert_eq!(text, format!("{}## 08:00 - B\n\n## 09:00 - A\n\n", header))
        }
        _ => panic!("a clean file is rewritten"),
    }
}
