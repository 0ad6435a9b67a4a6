use lgg::calendar::{Date, Time};
use lgg::filters::DateFilter;
use lgg::todo_query::{filter_by_due, filter_todos_by_tags, sort_by_due, todo_file_with_entry};
use lgg::todos::{
    format_todo_entry_block, format_todo_item, parse_todo_file_content, ParsedTodosEntry,
    TodoParseError, TodoStatus,
};

const FORMAT: &str = "%d/%m/%Y %H:%M";

fn dt(y: i32, m: u32, d: u32, h: u32, min: u32) -> (Date, Time) {
    (Date::from_ymd(y, m, d).unwrap(), Time::from_hms(h, min, 0).unwrap())
}

#[test]
fn format_utils_todo_entry_block_only_title() {
    let e = format_todo_entry_block("Item 1", "", None, None, FORMAT).unwrap();
    assert_eq!(e, "- [ ] Item 1\n");
}

#[test]
fn format_utils_todo_entry_block_with_body() {
    let e = format_todo_entry_block("Item 1", "With body", None, None, FORMAT).unwrap();
    assert_eq!(e, "- [ ] Item 1\n      With body\n");
}

#[test]
fn format_utils_todo_entry_block_with_date() {
    let e = format_todo_entry_block("Item 1", "", Some(dt(2025, 8, 20, 7, 0)), None, FORMAT).unwrap();
    assert_eq!(e, "- [ ] Item 1 | 20/08/2025 07:00\n");
}

#[test]
fn format_utils_todo_entry_block_with_date_and_end_date() {
    let e = format_todo_entry_block(
        "Item 1",
        "",
        Some(dt(2025, 8, 20, 7, 0)),
        Some(dt(2025, 8, 22, 18, 0)),
        FORMAT,
    )
    .unwrap();
    assert_eq!(e, "- [ ] Item 1 | 20/08/2025 07:00 | 22/08/2025 18:00\n");
}

#[test]
fn format_utils_todo_entry_block_only_end_date() {
    let e = format_todo_entry_block("Item 1", "", None, Some(dt(2025, 8, 22, 18, 0)), FORMAT).unwrap();
    assert_eq!(e, "- [ ] Item 1 | | 22/08/2025 18:00\n");
}

#[test]
fn todo_file_reads_items_bodies_and_tags() {
    let content = "# Todos\n- [ ] First entry.\n      With body and @tag.\n- [x] Second entry. | 15/08/2025 12:00\n";
    let r = parse_todo_file_content(content, FORMAT);
    assert!(r.errors.is_empty());
    assert_eq!(r.entries.len(), 2);
    assert_eq!(r.entries[0].title, "First entry.");
    assert_eq!(r.entries[0].body, "With body and @tag.");
    assert_eq!(r.entries[0].tags, vec!["@tag".to_string()]);
    assert_eq!(r.entries[0].status, TodoStatus::Pending);
    assert_eq!(r.entries[1].title, "Second entry.");
    assert_eq!(r.entries[1].status, TodoStatus::Done);
    assert_eq!(r.entries[1].due_date, Some(dt(2025, 8, 15, 12, 0)));
    assert_eq!(r.entries[1].done_date, None);
}

#[test]
fn todo_written_then_read_back() {
    let block = format_todo_entry_block(
        "Pay rent",
        "Before noon",
        Some(dt(2025, 8, 20, 7, 0)),
        Some(dt(2025, 8, 22, 18, 0)),
        FORMAT,
    )
    .unwrap();
    let content = format!("# Todos\n{}", block);
    let r = parse_todo_file_content(&content, FORMAT);
    assert!(r.errors.is_empty());
    assert_eq!(r.entries.len(), 1);
    assert_eq!(r.entries[0].title, "Pay rent");
    assert_eq!(r.entries[0].body, "Before noon");
    assert_eq!(r.entries[0].due_date, Some(dt(2025, 8, 20, 7, 0)));
    assert_eq!(r.entries[0].done_date, Some(dt(2025, 8, 22, 18, 0)));
    assert_eq!(r.entries[0].status, TodoStatus::Pending);
}

#[test]
fn todo_field_errors_do_not_stop_reading() {
    let content = "# Todos\n- [ ] A | not a date\n- [X] B\n";
    let r = parse_todo_file_content(content, FORMAT);
    assert_eq!(r.entries.len(), 2);
    assert_eq!(r.errors.len(), 1);
    assert_eq!(r.entries[0].due_date, None);
    assert_eq!(r.entries[1].status, TodoStatus::Done);
}

#[test]
fn todo_file_without_header_is_rejected() {
    let r = parse_todo_file_content("x\n- [ ] A", FORMAT);
    assert!(r.entries.is_empty());
    assert_eq!(r.errors.len(), 1);
    assert!(matches!(r.errors[0], TodoParseError::MissingHeader(_)));
}

#[test]
fn done_only_todo_reads_back() {
    let block = format_todo_entry_block("Item 1", "", None, Some(dt(2025, 8, 22, 18, 0)), FORMAT).unwrap();
    let r = parse_todo_file_content(&format!("# Todos\n{}", block), FORMAT);
    assert!(r.errors.is_empty());
    assert_eq!(r.entries.len(), 1);
    assert_eq!(r.entries[0].title, "Item 1");
    assert_eq!(r.entries[0].due_date, None);
    assert_eq!(r.entries[0].done_date, Some(dt(2025, 8, 22, 18, 0)));
}

#[test]
fn done_todo_is_written_with_its_mark() {
    let e = format_todo_item("Item 1", "", None, None, TodoStatus::Done, FORMAT).unwrap();
    assert_eq!(e, "- [x] Item 1\n");
}

#[test]
fn multi_line_body_reads_back() {
    let block = format_todo_item("T", "line one\nline two", None, None, TodoStatus::Pending, FORMAT).unwrap();
    assert_eq!(block, "- [ ] T\n      line one\n      line two\n");
    let r = parse_todo_file_content(&format!("# Todos\n{}", block), FORMAT);
    assert_eq!(r.entries[0].body, "line one\nline two");
}

#[test]
fn done_status_survives_a_rewrite() {
    let content = "# Todos\n## Pending\n- [ ] Open one\n      Some body\n## Done\n- [x] Closed one\n";
    let r = parse_todo_file_content(content, FORMAT);
    assert!(r.errors.is_empty());
    assert_eq!(r.entries[0].body, "Some body");
    assert_eq!(r.entries[1].status, TodoStatus::Done);
    let text = todo_file_with_entry(r.entries, todo("New one", None, TodoStatus::Pending), FORMAT).unwrap();
    let again = parse_todo_file_content(&text, FORMAT);
    assert!(again.errors.is_empty());
    assert_eq!(again.entries.len(), 3);
    let closed = again.entries.iter().find(|e| e.title == "Closed one").unwrap();
    assert_eq!(closed.status, TodoStatus::Done);
    let open = again.entries.iter().find(|e| e.title == "Open one").unwrap();
    assert_eq!(open.body, "Some body");
}

#[test]
fn empty_todo_file_is_an_error() {
    let r = parse_todo_file_content("", FORMAT);
    assert!(r.entries.is_empty());
    assert_eq!(r.errors.len(), 1);
}

fn todo(title: &str, due: Option<(Date, Time)>, status: TodoStatus) -> ParsedTodosEntry {
    ParsedTodosEntry {
        due_date: due,
        done_date: None,
        title: title.to_string(),
        body: String::new(),
        tags: Vec::new(),
        status,
    }
}

#[test]
fn todos_sort_by_due_with_undated_first() {
    let v = vec![
        todo("late", Some(dt(2025, 8, 20, 9, 0)), TodoStatus::Pending),
        todo("undated", None, TodoStatus::Pending),
        todo("early", Some(dt(2025, 8, 15, 12, 0)), TodoStatus::Pending),
        todo("early too", Some(dt(2025, 8, 15, 12, 0)), TodoStatus::Pending),
    ];
    let sorted = sort_by_due(v);
    let titles: Vec<&str> = sorted.iter().map(|e| e.title.as_str()).collect();
    assert_eq!(titles, vec!["undated", "early", "early too", "late"]);
}

#[test]
fn todos_filter_by_due_range() {
    let v = vec![
        todo("Entry before range.", Some(dt(2025, 8, 14, 10, 0)), TodoStatus::Pending),
        todo("Entry in range.", Some(dt(2025, 8, 15, 10, 0)), TodoStatus::Pending),
        todo("Entry after range.", Some(dt(2025, 8, 16, 10, 0)), TodoStatus::Pending),
        todo("No date.", None, TodoStatus::Pending),
    ];
    let f = DateFilter::Range(Date::from_ymd(2025, 8, 15).unwrap(), Date::from_ymd(2025, 8, 15).unwrap());
    let kept = filter_by_due(v, f);
    assert_eq!(kept.len(), 1);
    assert_eq!(kept[0].title, "Entry in range.");
}

#[test]
fn todo_file_rewritten_with_new_entry() {
    let existing = vec![
        todo("Later", Some(dt(2025, 8, 20, 9, 0)), TodoStatus::Pending),
        todo("Finished", None, TodoStatus::Done),
    ];
    let new_entry = todo("Sooner", Some(dt(2025, 8, 18, 9, 0)), TodoStatus::Pending);
    let text = todo_file_with_entry(existing, new_entry, FORMAT).unwrap();
    assert_eq!(
        text,
        "# Todos\n## Pending\n- [ ] Sooner | 18/08/2025 09:00\n- [ ] Later | 20/08/2025 09:00\n## Done\n- [x] Finished\n"
    );
}

#[test]
fn todo_file_without_done_has_no_done_section() {
    let text = todo_file_with_entry(Vec::new(), todo("Only", None, TodoStatus::Pending), FORMAT).unwrap();
    assert_eq!(text, "# Todos\n## Pending\n- [ ] Only\n");
}

#[test]
fn todos_filter_by_tags() {
    let content = "# Todos\n- [ ] Call mom @family\n- [ ] Fix bike\n      @Garage first\n- [ ] Nothing here\n";
    let r = parse_todo_file_content(content, FORMAT);
    let kept = filter_todos_by_tags(r.entries, &vec!["@garage".to_string(), " @FAMILY".to_string()]);
    let titles: Vec<&str> = kept.iter().map(|e| e.title.as_str()).collect();
    assert_eq!(titles, vec!["Call mom @family", "Fix bike"]);
}
