//! Todo files: status, errors, where the files are kept, and how a todo is
//! written as an item line and read back.
use vstd::prelude::*;
use std::path::Path;
use crate::calendar::{
    day, format_date_time_with, formatted_datetime, parse_date_time_with, parsed_datetime,
    seconds_of, Date, Time, MAX_DAY, MIN_DAY,
};
use crate::day_file::{split_chars, split_on, tag_source};
use crate::format::{push_all, trailing_newlines_end, trim_trailing_newlines};
use crate::tags::{extract_tags, strings_view, tags_of};
use crate::text::{
    all_ws, char_is_ws, chars_of, is_ws, lemma_trim_end_skip, lemma_trim_start_skip, occurs_at,
    slice_chars, string_of, trim, trim_bounds, trim_end, trim_start, trimmed_string,
};
use crate::format::{lemma_find_at, lemma_find_none, lemma_trimmed_ends};

verus! {

/// Whether a todo is still to be done.
#[derive(Clone, Copy, Debug, PartialEq, Eq, Structural)]
pub enum TodoStatus {
    Pending,
    Done,
}

/// A problem met by a todo query; it never stops the query.
pub enum TodoQueryError {
    /// A date token that resolves to no date.
    InvalidDate { input: String, error: String },
    /// A file that could not be read, or that holds a problem.
    FileError { path: String, error: String },
}

/// The path that `Path::join` makes of a directory and a file name.
pub uninterp spec fn joined_path(root: Seq<char>, name: Seq<char>) -> Seq<char>;

/// Relies on `Path::join`, written back as text.
#[verifier::external_body]
fn join_path(root: &str, name: &str) -> (r: String)
    ensures
        r@ == joined_path(root@, name@),
{
    Path::new(root).join(name).to_string_lossy().into_owned()
}

/// The file that holds all todos, in the directory `root`.
pub fn todos_file(root: &str) -> (r: String)
    ensures
        r@ == joined_path(root@, "todos.md"@),
{
    join_path(root, "todos.md")
}

/// The file that holds pending todos, in the directory `root`.
pub fn pending_todos_file(root: &str) -> (r: String)
    ensures
        r@ == joined_path(root@, "pending_todos.md"@),
{
    join_path(root, "pending_todos.md")
}

/// The file that holds done todos, in the directory `root`.
pub fn done_todos_file(root: &str) -> (r: String)
    ensures
        r@ == joined_path(root@, "done_todos.md"@),
{
    join_path(root, "done_todos.md")
}

/// A due or done moment written out under the format: `Some(None)` when
/// absent, `None` when the format does not apply.
pub open spec fn moment_text(m: Option<(Date, Time)>, fmt: Seq<char>) -> Option<Option<Seq<char>>> {
    match m {
        None => Some(None),
        Some((d, t)) => match formatted_datetime(d.days as int, seconds_of(t), fmt) {
            Some(s) => Some(Some(s)),
            None => None,
        },
    }
}

/// Six spaces: the indentation of a body line.
pub open spec fn indent() -> Seq<char> {
    seq![' ', ' ', ' ', ' ', ' ', ' ']
}

/// The item mark of a status: `- [ ] ` for a pending todo, `- [x] ` for a
/// done one.
pub open spec fn status_mark(status: TodoStatus) -> Seq<char> {
    match status {
        TodoStatus::Pending => seq!['-', ' ', '[', ' ', ']', ' '],
        TodoStatus::Done => seq!['-', ' ', '[', 'x', ']', ' '],
    }
}

/// A text with every line after the first indented.
pub open spec fn indent_rest(s: Seq<char>) -> Seq<char>
    decreases s.len(),
{
    if s.len() == 0 {
        s
    } else if s.last() == '\n' {
        indent_rest(s.drop_last()) + seq!['\n'] + indent()
    } else {
        indent_rest(s.drop_last()).push(s.last())
    }
}

/// The line and body a todo is written as: the item mark and the title,
/// then ` | due`, then ` | done` (with an empty due field when only the
/// done moment is given), then the body, every line indented by six spaces.
pub open spec fn todo_block(
    title: Seq<char>,
    body: Seq<char>,
    due: Option<Seq<char>>,
    done: Option<Seq<char>>,
    status: TodoStatus,
) -> Seq<char> {
    let head = status_mark(status) + title;
    let with_due = match due {
        Some(s) => head + seq![' ', '|', ' '] + s,
        None => head,
    };
    let with_done = match done {
        Some(s) => if due.is_none() {
            with_due + seq![' ', '|', ' ', '|', ' '] + s
        } else {
            with_due + seq![' ', '|', ' '] + s
        },
        None => with_due,
    };
    with_done + body_part(body)
}

fn moment_string(m: Option<(Date, Time)>, fmt: &str) -> (r: Option<Option<String>>)
    requires
        m.is_some() ==> m.unwrap().0.wf() && m.unwrap().1.wf(),
    ensures
        match (r, moment_text(m, fmt@)) {
            (Some(Some(s)), Some(Some(t))) => s@ == t,
            (Some(None), Some(None)) => true,
            (None, None) => true,
            _ => false,
        },
{
    match m {
        None => Some(None),
        Some((d, t)) => match format_date_time_with(d, t, fmt) {
            Some(s) => Some(Some(s)),
            None => None,
        },
    }
}

/// Writes a pending todo: `- [ ] Title | due | done`, the absent fields
/// left out, then the body on indented lines. `None` where a due or done
/// moment cannot be written under `date_format`.
pub fn format_todo_entry_block(
    title: &str,
    body: &str,
    due_date: Option<(Date, Time)>,
    done_date: Option<(Date, Time)>,
    date_format: &str,
) -> (r: Option<String>)
    requires
        due_date.is_some() ==> due_date.unwrap().0.wf() && due_date.unwrap().1.wf(),
        done_date.is_some() ==> done_date.unwrap().0.wf() && done_date.unwrap().1.wf(),
    ensures
        match (moment_text(due_date, date_format@), moment_text(done_date, date_format@)) {
            (Some(due), Some(done)) => r.is_some() && r.unwrap()@ == todo_block(
                title@,
                body@,
                due,
                done,
                TodoStatus::Pending,
            ),
            _ => r.is_none(),
        },
{
    format_todo_item(title, body, due_date, done_date, TodoStatus::Pending, date_format)
}

/// The body part of a todo block: a line feed when the body is blank,
/// otherwise the body with every line indented, and a line feed.
pub open spec fn body_part(body: Seq<char>) -> Seq<char> {
    if trim(body).len() == 0 {
        seq!['\n']
    } else {
        seq!['\n'] + indent() + indent_rest(trim_trailing_newlines(body)) + seq!['\n']
    }
}

fn push_body(out: &mut Vec<char>, body: &str)
    ensures
        final(out)@ == old(out)@ + body_part(body@),
{
    let bv = chars_of(body);
    let (lo, hi) = trim_bounds(&bv, 0, bv.len());
    proof {
        assert(bv@.subrange(0, bv@.len() as int) =~= bv@);
    }
    let ghost start = out@;
    if lo < hi {
        let first = vec!['\n', ' ', ' ', ' ', ' ', ' ', ' '];
        push_all(out, &first);
        let e = trailing_newlines_end(&bv);
        let ghost base = out@;
        let mut k: usize = 0;
        proof {
            assert(bv@.subrange(0, 0) =~= Seq::<char>::empty());
            assert(out@ =~= base + indent_rest(bv@.subrange(0, 0)));
        }
        while k < e
            invariant
                k <= e <= bv@.len(),
                out@ == base + indent_rest(bv@.subrange(0, k as int)),
            decreases e - k,
        {
            proof {
                assert(bv@.subrange(0, k + 1).drop_last() =~= bv@.subrange(0, k as int));
                assert(bv@.subrange(0, k + 1).last() == bv@[k as int]);
            }
            if bv[k] == '\n' {
                let nl = vec!['\n', ' ', ' ', ' ', ' ', ' ', ' '];
                push_all(out, &nl);
            } else {
                out.push(bv[k]);
            }
            proof {
                assert(out@ =~= base + indent_rest(bv@.subrange(0, k + 1)));
            }
            k = k + 1;
        }
        out.push('\n');
        proof {
            assert(out@ =~= start + body_part(body@));
        }
    } else {
        out.push('\n');
        proof {
            assert(out@ =~= start + body_part(body@));
        }
    }
}

/// Writes a todo: its mark (`- [ ] ` pending, `- [x] ` done) and title,
/// ` | due`, ` | done` (the absent fields left out, an empty due field when
/// only the done moment is given), then the body, every line indented by six
/// spaces. `None` where a due or done moment cannot be written under
/// `date_format`.
pub fn format_todo_item(
    title: &str,
    body: &str,
    due_date: Option<(Date, Time)>,
    done_date: Option<(Date, Time)>,
    status: TodoStatus,
    date_format: &str,
) -> (r: Option<String>)
    requires
        due_date.is_some() ==> due_date.unwrap().0.wf() && due_date.unwrap().1.wf(),
        done_date.is_some() ==> done_date.unwrap().0.wf() && done_date.unwrap().1.wf(),
    ensures
        match (moment_text(due_date, date_format@), moment_text(done_date, date_format@)) {
            (Some(due), Some(done)) => r.is_some() && r.unwrap()@ == todo_block(
                title@,
                body@,
                due,
                done,
                status,
            ),
            _ => r.is_none(),
        },
{
    let due = moment_string(due_date, date_format);
    let done = moment_string(done_date, date_format);
    let (due, done) = match (due, done) {
        (Some(a), Some(b)) => (a, b),
        _ => return None,
    };
    let ghost dues = match &due {
        Some(s) => Some(s@),
        None => None,
    };
    let ghost dones = match &done {
        Some(s) => Some(s@),
        None => None,
    };
    let ghost head = status_mark(status) + title@;
    let ghost with_due = match dues {
        Some(x) => head + seq![' ', '|', ' '] + x,
        None => head,
    };
    let ghost with_done = match dones {
        Some(x) => if dues.is_none() {
            with_due + seq![' ', '|', ' ', '|', ' '] + x
        } else {
            with_due + seq![' ', '|', ' '] + x
        },
        None => with_due,
    };
    let mut out: Vec<char> = match status {
        TodoStatus::Pending => vec!['-', ' ', '[', ' ', ']', ' '],
        TodoStatus::Done => vec!['-', ' ', '[', 'x', ']', ' '],
    };
    proof {
        assert(out@ =~= status_mark(status));
    }
    push_all(&mut out, &chars_of(title));
    proof {
        assert(out@ =~= head);
    }
    let has_due = due.is_some();
    match &due {
        Some(s) => {
            out.push(' ');
            out.push('|');
            out.push(' ');
            push_all(&mut out, &chars_of(s.as_str()));
        },
        None => {},
    }
    proof {
        assert(out@ =~= with_due);
    }
    match &done {
        Some(s) => {
            out.push(' ');
            out.push('|');
            out.push(' ');
            if !has_due {
                out.push('|');
                out.push(' ');
            }
            push_all(&mut out, &chars_of(s.as_str()));
        },
        None => {},
    }
    proof {
        assert(out@ =~= with_done);
    }
    push_body(&mut out, body);
    proof {
        assert(out@ =~= todo_block(title@, body@, dues, dones, status));
    }
    Some(string_of(out.as_slice()))
}

/// One todo read from a todo file.
pub struct ParsedTodosEntry {
    pub due_date: Option<(Date, Time)>,
    pub done_date: Option<(Date, Time)>,
    pub title: String,
    pub body: String,
    pub tags: Vec<String>,
    pub status: TodoStatus,
}

/// A problem found while reading a todo file; reading goes on.
pub enum TodoParseError {
    /// The file holds nothing.
    EmptyFile,
    /// The first line is not a `#` header; the line is kept.
    MissingHeader(String),
    /// A due or done field that does not read as a date and time under the
    /// format; the item line and the field are kept.
    InvalidDatetime { line: String, value: String },
}

/// The todos of a file, and the problems met on the way.
pub struct ReadTodosResult {
    pub entries: Vec<ParsedTodosEntry>,
    pub errors: Vec<TodoParseError>,
}

/// A todo as values: due, done, title, body, status.
pub type TodoModel = (Option<(Date, Time)>, Option<(Date, Time)>, Seq<char>, Seq<char>, TodoStatus);

/// A todo problem as values: kind (0 empty file, 1 header, 2 date and time),
/// line, field.
pub type TodoErrorModel = (int, Seq<char>, Seq<char>);

impl ParsedTodosEntry {
    pub open spec fn model(&self) -> TodoModel {
        (self.due_date, self.done_date, self.title@, self.body@, self.status)
    }

    /// The tags are those of the title and body, and the moments are real
    /// days and times.
    pub open spec fn wf(&self) -> bool {
        strings_view(self.tags@) == tags_of(tag_source(self.title@, self.body@)) && moments_wf(
            *self,
        )
    }

    /// Whether the due and done moments are real days and times.
    pub fn has_valid_moments(&self) -> (r: bool)
        ensures
            r == moments_wf(*self),
    {
        let due_ok = match self.due_date {
            Some((d, t)) => MIN_DAY <= d.days && d.days <= MAX_DAY && t.hour < 24 && t.minute < 60
                && t.second < 60,
            None => true,
        };
        let done_ok = match self.done_date {
            Some((d, t)) => MIN_DAY <= d.days && d.days <= MAX_DAY && t.hour < 24 && t.minute < 60
                && t.second < 60,
            None => true,
        };
        due_ok && done_ok
    }
}

/// The todo's due and done moments are real days and times.
pub open spec fn moments_wf(e: ParsedTodosEntry) -> bool {
    (e.due_date is Some ==> e.due_date->Some_0.0.wf() && e.due_date->Some_0.1.wf()) && (
    e.done_date is Some ==> e.done_date->Some_0.0.wf() && e.done_date->Some_0.1.wf())
}

impl TodoParseError {
    pub open spec fn model(&self) -> TodoErrorModel {
        match self {
            TodoParseError::EmptyFile => (0, Seq::empty(), Seq::empty()),
            TodoParseError::MissingHeader(l) => (1, l@, Seq::empty()),
            TodoParseError::InvalidDatetime { line, value } => (2, line@, value@),
        }
    }
}

pub open spec fn todo_models(v: Seq<ParsedTodosEntry>) -> Seq<TodoModel> {
    v.map_values(|e: ParsedTodosEntry| e.model())
}

pub open spec fn todo_error_models(v: Seq<TodoParseError>) -> Seq<TodoErrorModel> {
    v.map_values(|e: TodoParseError| e.model())
}

pub open spec fn starts_with(s: Seq<char>, p: Seq<char>) -> bool {
    s.len() >= p.len() && s.subrange(0, p.len() as int) == p
}

/// A line that starts a todo: `- [ ] `, `- [x] ` or `- [X] ` after any
/// indentation.
pub open spec fn is_item_start(line: Seq<char>) -> bool {
    let t = trim_start(line);
    starts_with(t, seq!['-', ' ', '[', ' ', ']', ' ']) || starts_with(
        t,
        seq!['-', ' ', '[', 'x', ']', ' '],
    ) || starts_with(t, seq!['-', ' ', '[', 'X', ']', ' '])
}

/// A due or done field: empty gives no moment; otherwise the date and time
/// under the format, or `Err` when it does not read.
pub open spec fn moment_of(s: Seq<char>, fmt: Seq<char>) -> Result<Option<(Date, Time)>, ()> {
    if s.len() == 0 {
        Ok(None)
    } else {
        match parsed_datetime(s, fmt) {
            Some((d, h, m, sec)) => match day(d) {
                Some(dd) => Ok(Some((dd, Time { hour: h as u32, minute: m as u32, second: sec as u32 }))),
                None => Err(()),
            },
            None => Err(()),
        }
    }
}

/// The `i`-th field of an item line, trimmed; empty when absent.
pub open spec fn field(fields: Seq<Seq<char>>, i: int) -> Seq<char> {
    if i < fields.len() {
        trim(fields[i])
    } else {
        Seq::empty()
    }
}

/// What an item line gives: its status, title, due and done moments, and
/// the errors of fields that do not read.
pub open spec fn item_of(line: Seq<char>, fmt: Seq<char>) -> (
    TodoStatus,
    Seq<char>,
    Option<(Date, Time)>,
    Option<(Date, Time)>,
    Seq<TodoErrorModel>,
) {
    let t = trim_start(line);
    let status = if starts_with(t, seq!['-', ' ', '[', ' ', ']']) {
        TodoStatus::Pending
    } else {
        TodoStatus::Done
    };
    let rest = trim_start(t.subrange(5, t.len() as int));
    let fields = split_on(rest, seq!['|']);
    let due_s = field(fields, 1);
    let done_s = field(fields, 2);
    let due = moment_of(due_s, fmt);
    let done = moment_of(done_s, fmt);
    let e1 = if due is Err {
        seq![(2int, line, due_s)]
    } else {
        Seq::empty()
    };
    let e2 = if done is Err {
        seq![(2int, line, done_s)]
    } else {
        Seq::empty()
    };
    (
        status,
        field(fields, 0),
        if due is Ok { due->Ok_0 } else { None },
        if done is Ok { done->Ok_0 } else { None },
        e1 + e2,
    )
}

/// Lines joined with line feeds.
pub open spec fn join_lines(ls: Seq<Seq<char>>) -> Seq<char>
    decreases ls.len(),
{
    if ls.len() == 0 {
        Seq::empty()
    } else if ls.len() == 1 {
        ls[0]
    } else {
        join_lines(ls.drop_last()) + seq!['\n'] + ls.last()
    }
}

/// A line that continues the body of a todo: indented by six spaces, or
/// blank.
pub open spec fn is_continuation(line: Seq<char>) -> bool {
    starts_with(line, indent()) || all_ws(line)
}

/// A body line without its indentation.
pub open spec fn unindented(line: Seq<char>) -> Seq<char> {
    if starts_with(line, indent()) {
        line.subrange(6, line.len() as int)
    } else {
        line
    }
}

/// Reading the lines after the header, one at a time: an item line opens a
/// todo; a continuation line, without its indentation, belongs to the body
/// of the last todo opened, if any; any other line (a section heading) is
/// passed over.
/// The state holds the item lines read, the body lines of each, and errors.
pub open spec fn scan_items(lines: Seq<Seq<char>>) -> (Seq<Seq<char>>, Seq<Seq<Seq<char>>>)
    decreases lines.len(),
{
    if lines.len() == 0 {
        (Seq::empty(), Seq::empty())
    } else {
        let (items, bodies) = scan_items(lines.drop_last());
        let line = lines.last();
        if is_item_start(line) {
            (items.push(line), bodies.push(Seq::empty()))
        } else if items.len() > 0 && is_continuation(line) {
            (items, bodies.update(bodies.len() - 1, bodies.last().push(unindented(line))))
        } else {
            (items, bodies)
        }
    }
}

/// The todos of the item lines with their body lines.
pub open spec fn todos_of(items: Seq<Seq<char>>, bodies: Seq<Seq<Seq<char>>>, fmt: Seq<char>) -> Seq<TodoModel> {
    Seq::new(
        items.len(),
        |i: int|
            {
                let (status, title, due, done, _errs) = item_of(items[i], fmt);
                (due, done, title, trim(join_lines(bodies[i])), status)
            },
    )
}

/// The errors of the item lines, in order.
pub open spec fn item_errors(items: Seq<Seq<char>>, fmt: Seq<char>) -> Seq<TodoErrorModel>
    decreases items.len(),
{
    if items.len() == 0 {
        Seq::empty()
    } else {
        item_errors(items.drop_last(), fmt) + item_of(items.last(), fmt).4
    }
}

/// What reading a todo file gives: an empty file, or one whose first line
/// is not a `#` header, gives one error and no todos; otherwise the todos,
/// each with its continuation lines as its body, and the errors of fields
/// that do not read.
pub open spec fn todo_file_result(c: Seq<char>, fmt: Seq<char>) -> (Seq<TodoModel>, Seq<TodoErrorModel>) {
    if c.len() == 0 {
        (Seq::empty(), seq![(0int, Seq::<char>::empty(), Seq::<char>::empty())])
    } else {
        let lines = split_on(c, seq!['\n']);
        let first = lines[0];
        if !starts_with(trim_start(first), seq!['#']) {
            (Seq::empty(), seq![(1int, first, Seq::<char>::empty())])
        } else {
            let (items, bodies) = scan_items(lines.subrange(1, lines.len() as int));
            (todos_of(items, bodies, fmt), item_errors(items, fmt))
        }
    }
}

/// Where the text of `v` starts once its leading whitespace is left out.
fn start_of_text(v: &Vec<char>) -> (r: usize)
    ensures
        r <= v@.len(),
        v@.subrange(r as int, v@.len() as int) == trim_start(v@),
{
    let mut a: usize = 0;
    while a < v.len() && char_is_ws(v[a])
        invariant
            a <= v@.len(),
            crate::text::all_ws(v@.subrange(0, a as int)),
        decreases v@.len() - a,
    {
        proof {
            assert forall|i: int| 0 <= i < a + 1 implies crate::text::is_ws(
                #[trigger] v@.subrange(0, a + 1)[i],
            ) by {
                if i < a {
                    assert(v@.subrange(0, a + 1)[i] == v@.subrange(0, a as int)[i]);
                }
            }
        }
        a = a + 1;
    }
    proof {
        crate::text::lemma_trim_start_skip(v@, a as int);
        let u = v@.subrange(a as int, v@.len() as int);
        if a < v@.len() {
            assert(u[0] == v@[a as int]);
        }
        assert(trim_start(u) == u);
    }
    a
}

fn starts_with_exec(v: &Vec<char>, from: usize, p: &Vec<char>) -> (r: bool)
    requires
        from <= v@.len(),
    ensures
        r == starts_with(v@.subrange(from as int, v@.len() as int), p@),
{
    let n = v.len();
    if n - from < p.len() {
        return false;
    }
    let mut i: usize = 0;
    while i < p.len()
        invariant
            i <= p@.len(),
            from + p@.len() <= v@.len(),
            n == v@.len(),
            forall|j: int| 0 <= j < i ==> v@[from + j] == p@[j],
        decreases p@.len() - i,
    {
        if v[from + i] != p[i] {
            proof {
                assert(v@.subrange(from as int, n as int).subrange(0, p@.len() as int)[i as int]
                    != p@[i as int]);
            }
            return false;
        }
        i = i + 1;
    }
    proof {
        assert(v@.subrange(from as int, n as int).subrange(0, p@.len() as int) =~= p@);
    }
    true
}

fn is_item_line(v: &Vec<char>) -> (r: bool)
    ensures
        r == is_item_start(v@),
{
    let a = start_of_text(v);
    let pending_mark = vec!['-', ' ', '[', ' ', ']', ' '];
    let done_mark = vec!['-', ' ', '[', 'x', ']', ' '];
    let done_mark_upper = vec!['-', ' ', '[', 'X', ']', ' '];
    proof {
        assert(pending_mark@ =~= seq!['-', ' ', '[', ' ', ']', ' ']);
        assert(done_mark@ =~= seq!['-', ' ', '[', 'x', ']', ' ']);
        assert(done_mark_upper@ =~= seq!['-', ' ', '[', 'X', ']', ' ']);
    }
    starts_with_exec(v, a, &pending_mark) || starts_with_exec(v, a, &done_mark) || starts_with_exec(v, a, &done_mark_upper)
}

fn moment_from(s: &String, fmt: &str) -> (r: Result<Option<(Date, Time)>, ()>)
    ensures
        r == moment_of(s@, fmt@),
        r matches Ok(Some(m)) ==> m.0.wf() && m.1.wf(),
{
    let v = chars_of(s.as_str());
    if v.len() == 0 {
        return Ok(None);
    }
    match parse_date_time_with(s.as_str(), fmt) {
        Some(m) => Ok(Some(m)),
        None => Err(()),
    }
}

fn field_text(fields: &Vec<Vec<char>>, i: usize) -> (r: String)
    ensures
        r@ == field(fields@.map_values(|v: Vec<char>| v@), i as int),
{
    if i < fields.len() {
        let n = fields[i].len();
        proof {
            assert(fields@[i as int]@.subrange(0, n as int) =~= fields@[i as int]@);
        }
        trimmed_string(&fields[i], 0, n)
    } else {
        String::new()
    }
}

/// Reads one item line.
fn read_item(line: &Vec<char>, fmt: &str) -> (r: (
    TodoStatus,
    String,
    Option<(Date, Time)>,
    Option<(Date, Time)>,
    Vec<TodoParseError>,
))
    requires
        is_item_start(line@),
    ensures
        ({
            let (status, title, due, done, errs) = item_of(line@, fmt@);
            &&& r.0 == status
            &&& r.1@ == title
            &&& r.2 == due
            &&& r.3 == done
            &&& todo_error_models(r.4@) == errs
        }),
        r.2 is Some ==> r.2->Some_0.0.wf() && r.2->Some_0.1.wf(),
        r.3 is Some ==> r.3->Some_0.0.wf() && r.3->Some_0.1.wf(),
{
    let a = start_of_text(line);
    let n = line.len();
    let ghost t = line@.subrange(a as int, n as int);
    let p = vec!['-', ' ', '[', ' ', ']'];
    proof {
        assert(p@ =~= seq!['-', ' ', '[', ' ', ']']);
        assert(t.len() >= 6);
    }
    let status = if starts_with_exec(line, a, &p) {
        TodoStatus::Pending
    } else {
        TodoStatus::Done
    };
    let tail = slice_chars(line, a + 5, n);
    proof {
        assert(tail@ =~= t.subrange(5, t.len() as int));
    }
    let b = start_of_text(&tail);
    let rest = slice_chars(&tail, b, tail.len());
    let sep = vec!['|'];
    proof {
        assert(sep@ =~= seq!['|']);
    }
    let fields = split_chars(&rest, &sep);
    let title = field_text(&fields, 0);
    let due_s = field_text(&fields, 1);
    let done_s = field_text(&fields, 2);
    let due = moment_from(&due_s, fmt);
    let done = moment_from(&done_s, fmt);
    let mut errs: Vec<TodoParseError> = Vec::new();
    let ghost e1 = if due is Err {
        seq![(2int, line@, due_s@)]
    } else {
        Seq::<TodoErrorModel>::empty()
    };
    let due_v = match due {
        Ok(m) => m,
        Err(_) => {
            errs.push(
                TodoParseError::InvalidDatetime {
                    line: string_of(line.as_slice()),
                    value: slice_string(&due_s),
                },
            );
            None
        },
    };
    proof {
        assert(todo_error_models(errs@) =~= e1);
    }
    let ghost before = todo_error_models(errs@);
    let done_v = match done {
        Ok(m) => m,
        Err(_) => {
            errs.push(
                TodoParseError::InvalidDatetime {
                    line: string_of(line.as_slice()),
                    value: slice_string(&done_s),
                },
            );
            None
        },
    };
    proof {
        let e2 = if done is Err {
            seq![(2int, line@, done_s@)]
        } else {
            Seq::<TodoErrorModel>::empty()
        };
        assert(todo_error_models(errs@) =~= before + e2);
    }
    (status, title, due_v, done_v, errs)
}

/// A copy of a text.
fn slice_string(s: &String) -> (r: String)
    ensures
        r@ == s@,
{
    let v = chars_of(s.as_str());
    string_of(v.as_slice())
}

/// Lines joined with line feeds.
fn join_with_newlines(ls: &Vec<Vec<char>>) -> (r: Vec<char>)
    ensures
        r@ == join_lines(ls@.map_values(|v: Vec<char>| v@)),
{
    let ghost lv = ls@.map_values(|v: Vec<char>| v@);
    let mut out: Vec<char> = Vec::new();
    let mut j: usize = 0;
    while j < ls.len()
        invariant
            j <= ls@.len(),
            lv == ls@.map_values(|v: Vec<char>| v@),
            out@ == join_lines(lv.subrange(0, j as int)),
        decreases ls@.len() - j,
    {
        proof {
            assert(lv.subrange(0, j + 1).drop_last() =~= lv.subrange(0, j as int));
            assert(lv.subrange(0, j + 1).last() == ls@[j as int]@);
        }
        if j > 0 {
            out.push('\n');
        }
        push_all(&mut out, &ls[j]);
        proof {
            if j == 0 {
                assert(out@ =~= join_lines(lv.subrange(0, j + 1)));
            } else {
                assert(out@ =~= join_lines(lv.subrange(0, j + 1)));
            }
        }
        j = j + 1;
    }
    proof {
        assert(lv.subrange(0, j as int) =~= lv);
    }
    out
}

pub open spec fn lines_view(v: Seq<Vec<char>>) -> Seq<Seq<char>> {
    v.map_values(|x: Vec<char>| x@)
}

pub open spec fn bodies_view(v: Seq<Vec<Vec<char>>>) -> Seq<Seq<Seq<char>>> {
    v.map_values(|b: Vec<Vec<char>>| lines_view(b@))
}

fn is_continuation_line(v: &Vec<char>) -> (r: bool)
    ensures
        r == is_continuation(v@),
{
    let six = vec![' ', ' ', ' ', ' ', ' ', ' '];
    proof {
        assert(six@ =~= indent());
        assert(v@.subrange(0, v@.len() as int) =~= v@);
    }
    if starts_with_exec(v, 0, &six) {
        return true;
    }
    let mut i: usize = 0;
    while i < v.len()
        invariant
            i <= v@.len(),
            !starts_with(v@, indent()),
            forall|j: int| 0 <= j < i ==> is_ws(#[trigger] v@[j]),
        decreases v@.len() - i,
    {
        if !char_is_ws(v[i]) {
            proof {
                assert(!is_ws(v@[i as int]));
                assert(!all_ws(v@));
            }
            return false;
        }
        i = i + 1;
    }
    true
}

fn unindent_line(v: &Vec<char>) -> (r: Vec<char>)
    ensures
        r@ == unindented(v@),
{
    let six = vec![' ', ' ', ' ', ' ', ' ', ' '];
    let n = v.len();
    proof {
        assert(six@ =~= indent());
        assert(v@.subrange(0, n as int) =~= v@);
    }
    if starts_with_exec(v, 0, &six) {
        slice_chars(v, 6, n)
    } else {
        slice_chars(v, 0, n)
    }
}

/// The item lines after the header, each with its body lines.
fn scan_lines(lines: &Vec<Vec<char>>) -> (r: (Vec<Vec<char>>, Vec<Vec<Vec<char>>>))
    requires
        lines@.len() >= 1,
    ensures
        (lines_view(r.0@), bodies_view(r.1@)) == scan_items(
            lines_view(lines@).subrange(1, lines@.len() as int),
        ),
        forall|i: int| 0 <= i < r.0@.len() ==> is_item_start(#[trigger] r.0@[i]@),
        r.0@.len() == r.1@.len(),
{
    let ghost lv = lines_view(lines@);
    let mut items: Vec<Vec<char>> = Vec::new();
    let mut bodies: Vec<Vec<Vec<char>>> = Vec::new();
    let mut k: usize = 1;
    proof {
        assert(lines_view(items@) =~= Seq::<Seq<char>>::empty());
        assert(bodies_view(bodies@) =~= Seq::<Seq<Seq<char>>>::empty());
        assert(lv.subrange(1, 1) =~= Seq::<Seq<char>>::empty());
    }
    while k < lines.len()
        invariant
            1 <= k <= lines@.len(),
            lv == lines_view(lines@),
            (lines_view(items@), bodies_view(bodies@)) == scan_items(lv.subrange(1, k as int)),
            items@.len() == bodies@.len(),
            forall|i: int| 0 <= i < items@.len() ==> is_item_start(#[trigger] items@[i]@),
        decreases lines@.len() - k,
    {
        proof {
            assert(lv.subrange(1, k + 1).drop_last() =~= lv.subrange(1, k as int));
            assert(lv.subrange(1, k + 1).last() == lines@[k as int]@);
        }
        let n = lines[k].len();
        let line = slice_chars(&lines[k], 0, n);
        proof {
            assert(lines@[k as int]@.subrange(0, n as int) =~= lines@[k as int]@);
        }
        let ghost iv = lines_view(items@);
        let ghost bv = bodies_view(bodies@);
        if is_item_line(&line) {
            items.push(line);
            let fresh: Vec<Vec<char>> = Vec::new();
            proof {
                assert(lines_view(fresh@) =~= Seq::<Seq<char>>::empty());
            }
            bodies.push(fresh);
            proof {
                assert(lines_view(items@) =~= iv.push(line@));
                assert(bodies_view(bodies@) =~= bv.push(Seq::empty()));
            }
        } else if items.len() > 0 && is_continuation_line(&line) {
            let body_line = unindent_line(&line);
            let mut last = bodies.pop().unwrap();
            let ghost lastv = lines_view(last@);
            let ghost bl = body_line@;
            last.push(body_line);
            bodies.push(last);
            proof {
                assert(lines_view(last@) =~= lastv.push(bl));
                assert(bodies_view(bodies@) =~= bv.update(bv.len() - 1, bv.last().push(bl)));
            }
        }
        k = k + 1;
    }
    (items, bodies)
}

/// Reads the content of a todo file whose due and done moments are written
/// under the `chrono` format `date_format`. The first line must be a `#`
/// header: an empty file gives a single error; another first line gives an
/// error and reading goes on. Each `- [ ]`, `- [x]` or `- [X]` line opens a
/// todo whose body is made of the lines up to the next one; a due or done
/// field that does not read gives an error and no moment.
pub fn parse_todo_file_content(content: &str, date_format: &str) -> (r: ReadTodosResult)
    ensures
        (todo_models(r.entries@), todo_error_models(r.errors@)) == todo_file_result(
            content@,
            date_format@,
        ),
        forall|i: int| 0 <= i < r.entries@.len() ==> #[trigger] r.entries@[i].wf(),
{
    let c = chars_of(content);
    let mut entries: Vec<ParsedTodosEntry> = Vec::new();
    let mut errors: Vec<TodoParseError> = Vec::new();
    if c.len() == 0 {
        errors.push(TodoParseError::EmptyFile);
        proof {
            assert(todo_models(entries@) =~= Seq::<TodoModel>::empty());
            assert(todo_error_models(errors@) =~= seq![
                (0int, Seq::<char>::empty(), Seq::<char>::empty()),
            ]);
        }
        return ReadTodosResult { entries, errors };
    }
    let nl = vec!['\n'];
    proof {
        assert(nl@ =~= seq!['\n']);
    }
    let lines = split_chars(&c, &nl);
    let ghost lv = lines_view(lines@);
    proof {
        assert(lv[0] == lines@[0]@);
    }
    let a = start_of_text(&lines[0]);
    let hash = vec!['#'];
    proof {
        assert(hash@ =~= seq!['#']);
    }
    if !starts_with_exec(&lines[0], a, &hash) {
        let n0 = lines[0].len();
        let first = slice_chars(&lines[0], 0, n0);
        proof {
            assert(lines@[0]@.subrange(0, n0 as int) =~= lines@[0]@);
        }
        errors.push(TodoParseError::MissingHeader(string_of(first.as_slice())));
        proof {
            assert(todo_models(entries@) =~= Seq::<TodoModel>::empty());
            assert(todo_error_models(errors@) =~= seq![(1int, lv[0], Seq::<char>::empty())]);
        }
        return ReadTodosResult { entries, errors };
    }
    let (items, bodies) = scan_lines(&lines);
    let ghost itv = lines_view(items@);
    let ghost bdv = bodies_view(bodies@);
    let ghost head_errors = todo_error_models(errors@);
    proof {
        assert(todo_models(entries@) =~= todos_of(itv, bdv, date_format@).subrange(0, 0));
        assert(itv.subrange(0, 0) =~= Seq::<Seq<char>>::empty());
        assert(todo_error_models(errors@) =~= head_errors + item_errors(itv.subrange(0, 0), date_format@));
    }
    let mut i: usize = 0;
    while i < items.len()
        invariant
            i <= items@.len(),
            items@.len() == bodies@.len(),
            itv == lines_view(items@),
            bdv == bodies_view(bodies@),
            forall|j: int| 0 <= j < items@.len() ==> is_item_start(#[trigger] items@[j]@),
            todo_models(entries@) == todos_of(itv, bdv, date_format@).subrange(0, i as int),
            todo_error_models(errors@) == head_errors + item_errors(itv.subrange(0, i as int), date_format@),
            forall|j: int| 0 <= j < entries@.len() ==> #[trigger] entries@[j].wf(),
        decreases items@.len() - i,
    {
        proof {
            assert(itv[i as int] == items@[i as int]@);
            assert(bdv[i as int] == lines_view(bodies@[i as int]@));
        }
        let (status, title, due, done, mut errs) = read_item(&items[i], date_format);
        let joined = join_with_newlines(&bodies[i]);
        let jn = joined.len();
        let body = trimmed_string(&joined, 0, jn);
        proof {
            assert(joined@.subrange(0, jn as int) =~= joined@);
        }
        let mut src = chars_of(title.as_str());
        src.push('\n');
        let mut bvec = chars_of(body.as_str());
        src.append(&mut bvec);
        proof {
            assert(src@ =~= tag_source(title@, body@));
        }
        let tags = extract_tags(&src);
        let ghost old_entries = entries@;
        let ghost old_errors = todo_error_models(errors@);
        let ghost new_errs = todo_error_models(errs@);
        let e = ParsedTodosEntry { due_date: due, done_date: done, title, body, tags, status };
        proof {
            let (st, ti, du, dn, _er) = item_of(itv[i as int], date_format@);
            assert(e.body@ == trim(join_lines(bdv[i as int])));
            assert(e.model() == (du, dn, ti, trim(join_lines(bdv[i as int])), st));
            assert(e.model() == todos_of(itv, bdv, date_format@)[i as int]);
        }
        entries.push(e);
        errors.append(&mut errs);
        proof {
            assert(todo_models(entries@) =~= todo_models(old_entries).push(e.model()));
            assert(todos_of(itv, bdv, date_format@).subrange(0, i + 1) =~= todos_of(
                itv,
                bdv,
                date_format@,
            ).subrange(0, i as int).push(todos_of(itv, bdv, date_format@)[i as int]));
            assert(todo_models(entries@) =~= todos_of(itv, bdv, date_format@).subrange(0, i + 1));
            assert(itv.subrange(0, i + 1).drop_last() =~= itv.subrange(0, i as int));
            assert(itv.subrange(0, i + 1).last() == itv[i as int]);
            assert(todo_error_models(errors@) =~= old_errors + new_errs);
            assert(todo_error_models(errors@) =~= head_errors + item_errors(
                itv.subrange(0, i + 1),
                date_format@,
            ));
            assert forall|j: int| 0 <= j < entries@.len() implies #[trigger] entries@[j].wf() by {
                if j < old_entries.len() {
                    assert(entries@[j] == old_entries[j]);
                    assert(old_entries[j].wf());
                }
            }
        }
        i = i + 1;
    }
    proof {
        assert(itv.subrange(0, i as int) =~= itv);
        assert(todos_of(itv, bdv, date_format@).subrange(0, i as int) =~= todos_of(
            itv,
            bdv,
            date_format@,
        ));
        if starts_with(trim_start(lv[0]), seq!['#']) {
            assert(head_errors =~= Seq::<TodoErrorModel>::empty());
        } else {
            assert(head_errors =~= seq![(1int, lv[0], Seq::<char>::empty())]);
        }
    }
    ReadTodosResult { entries, errors }
}

/// A text without `c`, then `c`, then the rest: split at `c`, the text is
/// the first piece.
pub proof fn lemma_split_at_char(a: Seq<char>, rest: Seq<char>, c: char)
    requires
        forall|i: int| 0 <= i < a.len() ==> a[i] != c,
    ensures
        split_on(a + seq![c] + rest, seq![c]) == seq![a] + split_on(rest, seq![c]),
{
    let s = a + seq![c] + rest;
    let q = seq![c];
    assert(occurs_at(s, q, a.len() as int)) by {
        assert(s.subrange(a.len() as int, a.len() + 1int) =~= q);
    }
    assert forall|k: int| 0 <= k < a.len() implies !occurs_at(s, q, k) by {
        assert(s[k] == a[k]);
        if occurs_at(s, q, k) {
            assert(s.subrange(k, k + 1)[0] == s[k]);
        }
    }
    lemma_find_at(s, q, 0, a.len() as int);
    assert(s.subrange(0, a.len() as int) =~= a);
    assert(s.subrange(a.len() + 1int, s.len() as int) =~= rest);
}

/// A text without `c` is a single piece.
pub proof fn lemma_split_without_char(a: Seq<char>, c: char)
    requires
        forall|i: int| 0 <= i < a.len() ==> a[i] != c,
    ensures
        split_on(a, seq![c]) == seq![a],
{
    let q = seq![c];
    assert forall|k: int| 0 <= k <= a.len() implies !occurs_at(a, q, k) by {
        if occurs_at(a, q, k) {
            assert(a.subrange(k, k + 1)[0] == a[k]);
        }
    }
    lemma_find_none(a, q, 0);
}

/// A trimmed text between whitespace trims back to itself.
pub proof fn lemma_trim_between(pre: Seq<char>, x: Seq<char>, post: Seq<char>)
    requires
        all_ws(pre),
        all_ws(post),
        x.len() > 0,
        x == trim(x),
    ensures
        trim(pre + x + post) == x,
{
    let s = pre + x + post;
    lemma_trimmed_ends(x);
    assert(s.subrange(0, pre.len() as int) =~= pre);
    lemma_trim_start_skip(s, pre.len() as int);
    let y = s.subrange(pre.len() as int, s.len() as int);
    assert(y =~= x + post);
    assert(y[0] == x[0]);
    assert(trim_start(y) == y);
    assert(y.subrange(x.len() as int, y.len() as int) =~= post);
    lemma_trim_end_skip(y, x.len() as int);
    assert(y.subrange(0, x.len() as int) =~= x);
    assert(trim_end(x) == x);
}

/// Whitespace alone trims to nothing.
pub proof fn lemma_trim_blank(s: Seq<char>)
    requires
        all_ws(s),
    ensures
        trim(s) == Seq::<char>::empty(),
{
    assert(s.subrange(0, s.len() as int) =~= s);
    lemma_trim_start_skip(s, s.len() as int);
    assert(s.subrange(s.len() as int, s.len() as int) =~= Seq::<char>::empty());
}

/// A text without line feeds keeps its indentation unchanged.
pub proof fn lemma_indent_rest_one_line(s: Seq<char>)
    requires
        forall|i: int| 0 <= i < s.len() ==> s[i] != '\n',
    ensures
        indent_rest(s) == s,
    decreases s.len(),
{
    if s.len() > 0 {
        lemma_indent_rest_one_line(s.drop_last());
        assert(s.drop_last().push(s.last()) =~= s);
    }
}

/// A moment written out, with its text fit to read back: one line, no `|`,
/// no surrounding whitespace, and read back to the same moment.
pub open spec fn moment_reads_back(m: Option<(Date, Time)>, fmt: Seq<char>) -> bool {
    m is Some ==> {
        let (d, t) = m->Some_0;
        &&& d.wf()
        &&& t.wf()
        &&& formatted_datetime(d.days as int, seconds_of(t), fmt) is Some
        &&& {
            let ft = formatted_datetime(d.days as int, seconds_of(t), fmt)->Some_0;
            &&& ft.len() > 0
            &&& ft == trim(ft)
            &&& forall|i: int| 0 <= i < ft.len() ==> ft[i] != '\n' && ft[i] != '|'
            &&& parsed_datetime(ft, fmt) == Some(
                (d.days as int, t.hour as int, t.minute as int, t.second as int),
            )
        }
    }
}

/// The field text of a moment that reads back, and how it reads.
pub proof fn lemma_moment_field(m: Option<(Date, Time)>, fmt: Seq<char>)
    requires
        moment_reads_back(m, fmt),
    ensures
        moment_text(m, fmt) is Some,
        m is Some ==> moment_of(moment_text(m, fmt)->Some_0->Some_0, fmt) == Ok::<
            Option<(Date, Time)>,
            (),
        >(m),
        moment_of(Seq::<char>::empty(), fmt) == Ok::<Option<(Date, Time)>, ()>(None),
{
}

/// The fields that follow a title in an item line, split at `|` and
/// trimmed, read back as the title and the two moments.
pub proof fn lemma_item_fields(
    title: Seq<char>,
    due: Option<Seq<char>>,
    done: Option<Seq<char>>,
)
    requires
        title.len() > 0,
        title == trim(title),
        forall|i: int| 0 <= i < title.len() ==> title[i] != '|',
        due is Some ==> due->Some_0.len() > 0 && due->Some_0 == trim(due->Some_0) && forall|i: int|
            0 <= i < due->Some_0.len() ==> due->Some_0[i] != '|',
        done is Some ==> done->Some_0.len() > 0 && done->Some_0 == trim(done->Some_0)
            && forall|i: int| 0 <= i < done->Some_0.len() ==> done->Some_0[i] != '|',
    ensures
        ({
            let with_due = match due {
                Some(x) => title + seq![' ', '|', ' '] + x,
                None => title,
            };
            let rest = match done {
                Some(x) => if due is None {
                    with_due + seq![' ', '|', ' ', '|', ' '] + x
                } else {
                    with_due + seq![' ', '|', ' '] + x
                },
                None => with_due,
            };
            let fields = split_on(rest, seq!['|']);
            &&& field(fields, 0) == title
            &&& field(fields, 1) == match due {
                Some(x) => x,
                None => Seq::<char>::empty(),
            }
            &&& field(fields, 2) == match done {
                Some(x) => x,
                None => Seq::<char>::empty(),
            }
        }),
{
    let sp = seq![' '];
    let e = Seq::<char>::empty();
    let bar = seq!['|'];
    assert(all_ws(sp));
    assert(all_ws(e));
    let t1 = title + sp;
    assert forall|i: int| 0 <= i < t1.len() implies t1[i] != '|' by {
        if i < title.len() {
            assert(t1[i] == title[i]);
        }
    }
    assert(title + e =~= title);
    assert(e + title + sp =~= t1);
    lemma_trim_between(e, title, sp);
    lemma_trim_blank(sp);
    match (due, done) {
        (None, None) => {
            lemma_split_without_char(title, '|');
        },
        (Some(x), None) => {
            let f2 = sp + x;
            assert forall|i: int| 0 <= i < f2.len() implies f2[i] != '|' by {
                if i > 0 {
                    assert(f2[i] == x[i - 1]);
                }
            }
            assert(title + seq![' ', '|', ' '] + x =~= t1 + bar + f2);
            lemma_split_at_char(t1, f2, '|');
            lemma_split_without_char(f2, '|');
            assert(sp + x + e =~= f2);
            lemma_trim_between(sp, x, e);
        },
        (None, Some(y)) => {
            let f3 = sp + y;
            assert forall|i: int| 0 <= i < f3.len() implies f3[i] != '|' by {
                if i > 0 {
                    assert(f3[i] == y[i - 1]);
                }
            }
            assert(title + seq![' ', '|', ' ', '|', ' '] + y =~= t1 + bar + (sp + bar + f3));
            lemma_split_at_char(t1, sp + bar + f3, '|');
            assert forall|i: int| 0 <= i < sp.len() implies sp[i] != '|' by {}
            lemma_split_at_char(sp, f3, '|');
            lemma_split_without_char(f3, '|');
            assert(sp + y + e =~= f3);
            lemma_trim_between(sp, y, e);
            assert(split_on(t1 + bar + (sp + bar + f3), bar) =~= seq![t1, sp, f3]);
        },
        (Some(x), Some(y)) => {
            let f2 = sp + x + sp;
            let f3 = sp + y;
            assert forall|i: int| 0 <= i < f2.len() implies f2[i] != '|' by {
                if 0 < i && i <= x.len() {
                    assert(f2[i] == x[i - 1]);
                }
            }
            assert forall|i: int| 0 <= i < f3.len() implies f3[i] != '|' by {
                if i > 0 {
                    assert(f3[i] == y[i - 1]);
                }
            }
            assert(title + seq![' ', '|', ' '] + x + seq![' ', '|', ' '] + y =~= t1 + bar + (f2
                + bar + f3));
            lemma_split_at_char(t1, f2 + bar + f3, '|');
            lemma_split_at_char(f2, f3, '|');
            lemma_split_without_char(f3, '|');
            lemma_trim_between(sp, x, sp);
            assert(sp + y + e =~= f3);
            lemma_trim_between(sp, y, e);
            assert(split_on(t1 + bar + (f2 + bar + f3), bar) =~= seq![t1, f2, f3]);
        },
    }
}

/// A header line, one item line and a one-line body, split into lines and
/// scanned: the header comes first, then one item whose body lines read
/// back, trimmed, as the body.
#[verifier::rlimit(60)]
pub proof fn lemma_single_item_lines(header: Seq<char>, item: Seq<char>, body: Seq<char>)
    requires
        forall|i: int| 0 <= i < header.len() ==> header[i] != '\n',
        forall|i: int| 0 <= i < item.len() ==> item[i] != '\n',
        is_item_start(item),
        body == trim(body),
        forall|i: int| 0 <= i < body.len() ==> body[i] != '\n',
        !is_item_start(indent() + body),
    ensures
        ({
            let lines = split_on(header + seq!['\n'] + item + body_part(body), seq!['\n']);
            let (items, bodies) = scan_items(lines.subrange(1, lines.len() as int));
            &&& lines.len() >= 1
            &&& lines[0] == header
            &&& items == seq![item]
            &&& bodies.len() == 1
            &&& trim(join_lines(bodies[0])) == body
        }),
{
    let nl = seq!['\n'];
    let empty = Seq::<char>::empty();
    let b6 = indent() + body;
    let c = header + nl + item + body_part(body);
    // The lines of the file.
    let body_lines = if trim(body).len() == 0 {
        seq![empty]
    } else {
        seq![b6, empty]
    };
    if trim(body).len() == 0 {
        assert(body.len() == 0);
        assert(c =~= header + nl + (item + nl + empty));
        lemma_split_without_char(empty, '\n');
        lemma_split_at_char(item, empty, '\n');
        lemma_split_at_char(header, item + nl + empty, '\n');
    } else {
        lemma_trimmed_ends(body);
        assert(trim_trailing_newlines(body) == body);
        lemma_indent_rest_one_line(body);
        assert(c =~= header + nl + (item + nl + (b6 + nl + empty)));
        assert forall|i: int| 0 <= i < b6.len() implies b6[i] != '\n' by {
            if i >= 6 {
                assert(b6[i] == body[i - 6]);
            }
        }
        lemma_split_without_char(empty, '\n');
        lemma_split_at_char(b6, empty, '\n');
        lemma_split_at_char(item, b6 + nl + empty, '\n');
        lemma_split_at_char(header, item + nl + (b6 + nl + empty), '\n');
    }
    let lines = split_on(c, nl);
    assert(lines =~= seq![header, item] + body_lines);
    assert(lines[0] == header);
    // The item line.
    assert(!is_item_start(empty));
    assert(is_continuation(empty));
    assert(unindented(empty) == empty);
    let after = lines.subrange(1, lines.len() as int);
    assert(after =~= seq![item] + body_lines);
    let no_lines = Seq::<Seq<char>>::empty();
    let no_bodies = Seq::<Seq<Seq<char>>>::empty();
    assert(scan_items(no_lines) == (no_lines, no_bodies));
    assert(seq![item].drop_last() =~= no_lines);
    assert(seq![item].last() == item);
    let s1 = scan_items(seq![item]);
    assert(s1 == (no_lines.push(item), no_bodies.push(no_lines)));
    assert(s1.0 =~= seq![item]);
    assert(s1.1 =~= seq![no_lines]);
    if trim(body).len() == 0 {
        assert(after.drop_last() =~= seq![item]);
        assert(after.last() == empty);
        let s2 = scan_items(after);
        assert(s2 == (s1.0, s1.1.update(0, s1.1[0].push(empty))));
        assert(s2.0 =~= seq![item]);
        assert(s2.1 =~= seq![seq![empty]]);
        assert(join_lines(seq![empty]) == empty);
        lemma_trim_blank(empty);
        assert(body =~= empty);
    } else {
        assert(b6.subrange(0, 6) =~= indent());
        assert(is_continuation(b6));
        assert(unindented(b6) =~= body);
        assert(after.drop_last() =~= seq![item, b6]);
        assert(after.last() == empty);
        assert(seq![item, b6].drop_last() =~= seq![item]);
        assert(seq![item, b6].last() == b6);
        let s2 = scan_items(seq![item, b6]);
        assert(s2 == (s1.0, s1.1.update(0, s1.1[0].push(body))));
        assert(s2.1 =~= seq![seq![body]]);
        let s3 = scan_items(after);
        assert(s3 == (s2.0, s2.1.update(0, s2.1[0].push(empty))));
        assert(s3.0 =~= seq![item]);
        assert(s2.1[0] =~= seq![body]);
        assert(seq![body].push(empty) =~= seq![body, empty]);
        assert(s3.1 =~= seq![seq![body, empty]]);
        assert(seq![body, empty].drop_last() =~= seq![body]);
        assert(seq![body, empty].last() == empty);
        assert(join_lines(seq![body]) == body);
        assert(join_lines(seq![body, empty]) =~= empty + body + nl);
        assert(all_ws(nl));
        lemma_trim_between(empty, body, nl);
    }
}

/// A todo written under a header line and read back gives the same due and
/// done moments, title, body and status, and no error: for a header line
/// that starts with `#`, a one-line title without surrounding whitespace and
/// without `|`, a one-line body without surrounding whitespace that, once
/// indented, does not read as an item line, and moments whose text under
/// the format reads back to them.
#[verifier::rlimit(80)]
pub proof fn lemma_todo_round_trip(
    header: Seq<char>,
    title: Seq<char>,
    body: Seq<char>,
    due: Option<(Date, Time)>,
    done: Option<(Date, Time)>,
    status: TodoStatus,
    fmt: Seq<char>,
)
    requires
        forall|i: int| 0 <= i < header.len() ==> header[i] != '\n',
        starts_with(trim_start(header), seq!['#']),
        title.len() > 0,
        title == trim(title),
        forall|i: int| 0 <= i < title.len() ==> title[i] != '\n' && title[i] != '|',
        body == trim(body),
        forall|i: int| 0 <= i < body.len() ==> body[i] != '\n',
        !is_item_start(indent() + body),
        moment_reads_back(due, fmt),
        moment_reads_back(done, fmt),
    ensures
        moment_text(due, fmt) is Some,
        moment_text(done, fmt) is Some,
        todo_file_result(
            header + seq!['\n'] + todo_block(
                title,
                body,
                moment_text(due, fmt)->Some_0,
                moment_text(done, fmt)->Some_0,
                status,
            ),
            fmt,
        ) == (seq![(due, done, title, body, status)], Seq::<TodoErrorModel>::empty()),
{
    lemma_moment_field(due, fmt);
    lemma_moment_field(done, fmt);
    let nl = seq!['\n'];
    let dt = moment_text(due, fmt)->Some_0;
    let dn = moment_text(done, fmt)->Some_0;
    let with_due = match dt {
        Some(x) => title + seq![' ', '|', ' '] + x,
        None => title,
    };
    let rest = match dn {
        Some(x) => if dt is None {
            with_due + seq![' ', '|', ' ', '|', ' '] + x
        } else {
            with_due + seq![' ', '|', ' '] + x
        },
        None => with_due,
    };
    let mark = status_mark(status);
    let item = mark + rest;
    let b6 = indent() + body;
    let block = todo_block(title, body, dt, dn, status);
    assert(block =~= item + body_part(body));
    let c = header + nl + block;
    let empty = Seq::<char>::empty();
    assert forall|i: int| 0 <= i < rest.len() implies rest[i] != '\n' && rest[i] != '|' || i
        >= title.len() by {
        if i < title.len() {
            assert(rest[i] == title[i]);
        }
    }
    assert forall|i: int| 0 <= i < item.len() implies item[i] != '\n' by {
        if i >= 6 {
            let j = i - 6;
            assert(item[i] == rest[j]);
            if j >= title.len() {
                match (dt, dn) {
                    (Some(x), None) => {
                        if j >= title.len() + 3 {
                            assert(rest[j] == x[j - title.len() - 3]);
                        }
                    },
                    (None, Some(y)) => {
                        if j >= title.len() + 5 {
                            assert(rest[j] == y[j - title.len() - 5]);
                        }
                    },
                    (Some(x), Some(y)) => {
                        if title.len() + 3 <= j < title.len() + 3 + x.len() {
                            assert(rest[j] == x[j - title.len() - 3]);
                        } else if j >= title.len() + 6 + x.len() {
                            assert(rest[j] == y[j - title.len() - 6 - x.len()]);
                        }
                    },
                    (None, None) => {},
                }
            }
        }
    }
    assert(!is_ws(item[0]));
    assert(trim_start(item) == item);
    assert(item.subrange(0, 6) =~= mark);
    assert(is_item_start(item)) by {
        match status {
            TodoStatus::Pending => {},
            TodoStatus::Done => {},
        }
    }
    lemma_single_item_lines(header, item, body);
    assert(c =~= header + nl + item + body_part(body));
    let lines = split_on(c, nl);
    let after = lines.subrange(1, lines.len() as int);
    let (items_r, bodies_r) = scan_items(after);
    // The fields of the item line.
    let t = trim_start(item);
    let tail = t.subrange(5, t.len() as int);
    assert(tail =~= seq![' '] + rest);
    assert(all_ws(tail.subrange(0, 1)));
    lemma_trim_start_skip(tail, 1);
    assert(tail.subrange(1, tail.len() as int) =~= rest);
    lemma_trimmed_ends(title);
    assert(rest[0] == title[0]);
    assert(trim_start(rest) == rest);
    assert(t.subrange(0, 5) =~= mark.subrange(0, 5));
    assert(starts_with(t, seq!['-', ' ', '[', ' ', ']']) <==> status == TodoStatus::Pending) by {
        match status {
            TodoStatus::Pending => {
                assert(t.subrange(0, 5) =~= seq!['-', ' ', '[', ' ', ']']);
            },
            TodoStatus::Done => {
                assert(t.subrange(0, 5)[3] == 'x');
                assert(seq!['-', ' ', '[', ' ', ']'][3] == ' ');
            },
        }
    }
    lemma_item_fields(title, dt, dn);
    let fields = split_on(rest, seq!['|']);
    assert(t.subrange(5, t.len() as int) == tail);
    assert(trim_start(tail) == rest);
    assert(field(fields, 0) == title);
    match due {
        Some(_) => {
            assert(field(fields, 1) == dt->Some_0);
        },
        None => {
            assert(field(fields, 1) == empty);
        },
    }
    match done {
        Some(_) => {
            assert(field(fields, 2) == dn->Some_0);
        },
        None => {
            assert(field(fields, 2) == empty);
        },
    }
    assert(moment_of(field(fields, 1), fmt) == Ok::<Option<(Date, Time)>, ()>(due));
    assert(moment_of(field(fields, 2), fmt) == Ok::<Option<(Date, Time)>, ()>(done));
    assert(item_of(item, fmt).0 == status);
    assert(item_of(item, fmt).1 == title);
    assert(item_of(item, fmt).2 == due);
    assert(item_of(item, fmt).3 == done);
    assert(item_of(item, fmt).4 =~= Seq::<TodoErrorModel>::empty());
    assert(item_errors(Seq::<Seq<char>>::empty(), fmt) == Seq::<TodoErrorModel>::empty());
    assert(seq![item].drop_last() =~= Seq::<Seq<char>>::empty());
    assert(seq![item].last() == item);
    assert(item_errors(seq![item], fmt) =~= Seq::<TodoErrorModel>::empty());
    assert(items_r == seq![item]);
    let models = todos_of(items_r, bodies_r, fmt);
    assert(models.len() == 1);
    assert(models[0] == (due, done, title, body, status));
    assert(models =~= seq![(due, done, title, body, status)]);
}

} // verus!
