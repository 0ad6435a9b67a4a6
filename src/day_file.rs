//! The day file: a `# <date>` header line, then entry blocks that each start
//! with a `## HH:MM - Title` heading.
use vstd::prelude::*;
use vstd::string::StringExecFns;
use crate::calendar::{parsed_day, Date, Time};
use crate::resolve::index_of;
use crate::resolve::index_of_char;
use crate::tags::{extract_tags, strings_view, tags_of};
use crate::text::{
    all_ws, char_is_ws, chars_of, find_from, find_spec, is_digit, slice_chars, string_of, trim,
    trim_bounds, trimmed_string,
};

verus! {

/// The header format a day file is written with unless configured otherwise.
pub const DEFAULT_HEADER_FORMAT: &'static str = "%A, %d %b %Y";

/// One journal entry read from a day file.
pub struct ParsedEntry {
    pub date: Date,
    pub time: Time,
    pub title: String,
    pub body: String,
    pub tags: Vec<String>,
}

/// A problem found while reading a day file.
pub enum EntryError {
    /// The file holds nothing.
    EmptyFile,
    /// The first line is not `# <date>`; the line is kept.
    InvalidHeader(String),
    /// An entry heading lacks the ` - ` separator; the heading is kept.
    InvalidHeading(String),
    /// An entry heading's time is not `HH:MM`; the heading is kept.
    InvalidTime(String),
}

/// The entries of a day file, and the problems met on the way.
pub struct ParseResult {
    pub entries: Vec<ParsedEntry>,
    pub errors: Vec<EntryError>,
}

/// An entry as values: day, time, title, body.
pub type EntryModel = (Date, Time, Seq<char>, Seq<char>);

/// An error as values: its kind (0 empty file, 1 header, 2 heading, 3 time)
/// and the line it concerns.
pub type ErrorModel = (int, Seq<char>);

impl ParsedEntry {
    /// The time is a real time of day, and the tags are those of the title
    /// and body.
    pub open spec fn wf(&self) -> bool {
        self.time.wf() && strings_view(self.tags@) == tags_of(tag_source(self.title@, self.body@))
    }

    pub open spec fn model(&self) -> EntryModel {
        (self.date, self.time, self.title@, self.body@)
    }
}

impl EntryError {
    /// What the error says, for a reader.
    pub open spec fn message_text(&self) -> Seq<char> {
        match self {
            EntryError::EmptyFile => "Empty file: expected a date header like `# DATE` on the first line."@,
            EntryError::InvalidHeader(l) => "Invalid or missing H1 date header: expected a first line like `# DATE`, found `"@
                + l@ + "`."@,
            EntryError::InvalidHeading(h) => "Invalid H2 entry header: `"@ + h@
                + "`. Expected `HH:MM - Title`."@,
            EntryError::InvalidTime(h) => "Invalid time in entry header `"@ + h@
                + "`. Expected a 24-hour time `HH:MM`."@,
        }
    }

    /// What the error says, for a reader.
    pub fn message(&self) -> (r: String)
        ensures
            r@ == self.message_text(),
    {
        match self {
            EntryError::EmptyFile => "Empty file: expected a date header like `# DATE` on the first line.".to_owned(),
            EntryError::InvalidHeader(l) => "Invalid or missing H1 date header: expected a first line like `# DATE`, found `".to_owned().concat(
                l.as_str(),
            ).concat("`."),
            EntryError::InvalidHeading(h) => "Invalid H2 entry header: `".to_owned().concat(
                h.as_str(),
            ).concat("`. Expected `HH:MM - Title`."),
            EntryError::InvalidTime(h) => "Invalid time in entry header `".to_owned().concat(
                h.as_str(),
            ).concat("`. Expected a 24-hour time `HH:MM`."),
        }
    }

    pub open spec fn model(&self) -> ErrorModel {
        match self {
            EntryError::EmptyFile => (0, Seq::empty()),
            EntryError::InvalidHeader(l) => (1, l@),
            EntryError::InvalidHeading(l) => (2, l@),
            EntryError::InvalidTime(l) => (3, l@),
        }
    }
}

pub open spec fn entry_models(v: Seq<ParsedEntry>) -> Seq<EntryModel> {
    v.map_values(|e: ParsedEntry| e.model())
}

pub open spec fn error_models(v: Seq<EntryError>) -> Seq<ErrorModel> {
    v.map_values(|e: EntryError| e.model())
}

/// The delimiter between entry blocks.
pub open spec fn block_delimiter() -> Seq<char> {
    seq!['\n', '#', '#', ' ']
}

/// The separator between the time and the title of a heading.
pub open spec fn heading_separator() -> Seq<char> {
    seq![' ', '-', ' ']
}

/// The pieces of `s` between occurrences of `sep`, as `str::split` gives them.
pub open spec fn split_on(s: Seq<char>, sep: Seq<char>) -> Seq<Seq<char>>
    decreases s.len(),
{
    if sep.len() == 0 {
        seq![s]
    } else {
        match find_spec(s, sep, 0) {
            Some(i) => if 0 <= i && i + sep.len() <= s.len() {
                seq![s.subrange(0, i)] + split_on(s.subrange(i + sep.len(), s.len() as int), sep)
            } else {
                seq![s]
            },
            None => seq![s],
        }
    }
}

/// A time written exactly `HH:MM`, hour below 24 and minute below 60.
pub open spec fn hm_of(s: Seq<char>) -> Option<Time> {
    if s.len() == 5 && is_digit(s[0]) && is_digit(s[1]) && s[2] == ':' && is_digit(s[3])
        && is_digit(s[4]) {
        let h = (s[0] as int - '0' as int) * 10 + (s[1] as int - '0' as int);
        let m = (s[3] as int - '0' as int) * 10 + (s[4] as int - '0' as int);
        if h < 24 && m < 60 {
            Some(Time { hour: h as u32, minute: m as u32, second: 0 })
        } else {
            None
        }
    } else {
        None
    }
}

/// The heading of a block: its first line.
pub open spec fn heading_of(b: Seq<char>) -> Seq<char> {
    match index_of(b, '\n') {
        Some(p) => b.subrange(0, p),
        None => b,
    }
}

/// The body of a block: what follows its first line, trimmed.
pub open spec fn body_of(b: Seq<char>) -> Seq<char> {
    match index_of(b, '\n') {
        Some(p) => trim(b.subrange(p, b.len() as int)),
        None => Seq::empty(),
    }
}

/// What a non-blank block gives: `Ok((time, title, body))`, or `Err` with
/// the error kind (2 no separator, 3 bad time) and the heading.
pub open spec fn block_result(b: Seq<char>) -> Result<(Time, Seq<char>, Seq<char>), ErrorModel> {
    let h = heading_of(b);
    match find_spec(h, heading_separator(), 0) {
        None => Err((2, h)),
        Some(sp) => match hm_of(trim(h.subrange(0, sp))) {
            Some(t) => Ok((t, trim(h.subrange(sp + 3, h.len() as int)), body_of(b))),
            None => Err((3, h)),
        },
    }
}

/// The entries that the blocks give, in order.
pub open spec fn block_entries(blocks: Seq<Seq<char>>, date: Date) -> Seq<EntryModel>
    decreases blocks.len(),
{
    if blocks.len() == 0 {
        Seq::empty()
    } else {
        let prev = block_entries(blocks.drop_last(), date);
        let b = blocks.last();
        if all_ws(b) {
            prev
        } else {
            match block_result(b) {
                Ok((t, title, body)) => prev.push((date, t, title, body)),
                Err(_) => prev,
            }
        }
    }
}

/// The errors that the blocks give, in order.
pub open spec fn block_errors(blocks: Seq<Seq<char>>) -> Seq<ErrorModel>
    decreases blocks.len(),
{
    if blocks.len() == 0 {
        Seq::empty()
    } else {
        let prev = block_errors(blocks.drop_last());
        let b = blocks.last();
        if all_ws(b) {
            prev
        } else {
            match block_result(b) {
                Ok(_) => prev,
                Err(e) => prev.push(e),
            }
        }
    }
}

/// The first line of the file.
pub open spec fn first_line(c: Seq<char>) -> Seq<char> {
    match index_of(c, '\n') {
        Some(p) => c.subrange(0, p),
        None => c,
    }
}

/// What follows the first line.
pub open spec fn after_first_line(c: Seq<char>) -> Seq<char> {
    match index_of(c, '\n') {
        Some(p) => c.subrange(p + 1, c.len() as int),
        None => Seq::empty(),
    }
}

/// The blocks of the content after the header: pieces between block
/// delimiters, the first one without a leading `## `.
pub open spec fn blocks_of(rest: Seq<char>) -> Seq<Seq<char>> {
    let pieces = split_on(rest, block_delimiter());
    let first = pieces[0];
    if first.len() >= 3 && first.subrange(0, 3) == seq!['#', '#', ' '] {
        pieces.update(0, first.subrange(3, first.len() as int))
    } else {
        pieces
    }
}

/// The day a header line names: `# ` and then the date under the format.
pub open spec fn header_date(line: Seq<char>, fmt: Seq<char>) -> Option<Date> {
    let t = trim(line);
    if t.len() >= 2 && t[0] == '#' && t[1] == ' ' {
        parsed_day(t.subrange(2, t.len() as int), fmt)
    } else {
        None
    }
}

/// The text an entry's tags are read from: title, a line break, body.
pub open spec fn tag_source(title: Seq<char>, body: Seq<char>) -> Seq<char> {
    title + seq!['\n'] + body
}

/// What reading a day file gives: an empty file or a bad header gives one
/// error and no entries; otherwise each block gives an entry or an error.
pub open spec fn day_file_result(c: Seq<char>, fmt: Seq<char>) -> (Seq<EntryModel>, Seq<ErrorModel>) {
    if c.len() == 0 {
        (Seq::empty(), seq![(0int, Seq::<char>::empty())])
    } else {
        match header_date(first_line(c), fmt) {
            None => (Seq::empty(), seq![(1int, first_line(c))]),
            Some(d) => {
                let blocks = blocks_of(after_first_line(c));
                (block_entries(blocks, d), block_errors(blocks))
            },
        }
    }
}

fn hm_parse(s: &Vec<char>) -> (r: Option<Time>)
    ensures
        r == hm_of(s@),
        r.is_some() ==> r.unwrap().wf(),
{
    if s.len() != 5 {
        return None;
    }
    let (a, b, c, d, e) = (s[0], s[1], s[2], s[3], s[4]);
    if !('0' <= a && a <= '9' && '0' <= b && b <= '9' && c == ':' && '0' <= d && d <= '9' && '0'
        <= e && e <= '9') {
        return None;
    }
    let h = ((a as u32) - ('0' as u32)) * 10 + ((b as u32) - ('0' as u32));
    let m = ((d as u32) - ('0' as u32)) * 10 + ((e as u32) - ('0' as u32));
    if h < 24 && m < 60 {
        Some(Time { hour: h, minute: m, second: 0 })
    } else {
        None
    }
}

/// Splits `s` at each occurrence of `sep`.
pub fn split_chars(s: &Vec<char>, sep: &Vec<char>) -> (r: Vec<Vec<char>>)
    requires
        sep@.len() > 0,
    ensures
        r@.map_values(|v: Vec<char>| v@) == split_on(s@, sep@),
        r@.len() >= 1,
{
    let mut out: Vec<Vec<char>> = Vec::new();
    let mut start: usize = 0;
    let n = s.len();
    proof {
        assert(s@.subrange(0, n as int) =~= s@);
        assert(out@.map_values(|v: Vec<char>| v@) + split_on(s@, sep@) =~= split_on(s@, sep@));
    }
    loop
        invariant
            start <= s@.len(),
            n == s@.len(),
            sep@.len() > 0,
            out@.map_values(|v: Vec<char>| v@) + split_on(s@.subrange(start as int, n as int), sep@)
                == split_on(s@, sep@),
        decreases s@.len() - start,
    {
        let rest = slice_chars(s, start, n);
        let ghost before = out@.map_values(|v: Vec<char>| v@);
        match find_from(&rest, sep, 0) {
            None => {
                out.push(rest);
                proof {
                    assert(out@.map_values(|v: Vec<char>| v@) =~= before.push(
                        s@.subrange(start as int, n as int),
                    ));
                    assert(before.push(s@.subrange(start as int, n as int)) =~= before + seq![
                        s@.subrange(start as int, n as int),
                    ]);
                }
                return out;
            },
            Some(i) => {
                let piece = slice_chars(&rest, 0, i);
                out.push(piece);
                proof {
                    let r = s@.subrange(start as int, n as int);
                    assert(rest@.subrange(i + sep@.len(), rest@.len() as int) =~= s@.subrange(
                        start + i + sep@.len(),
                        n as int,
                    ));
                    assert(out@.map_values(|v: Vec<char>| v@) =~= before.push(r.subrange(0, i as int)));
                    assert(split_on(r, sep@) == seq![r.subrange(0, i as int)] + split_on(
                        r.subrange(i + sep@.len(), r.len() as int),
                        sep@,
                    ));
                    assert(before.push(r.subrange(0, i as int)) + split_on(
                        r.subrange(i + sep@.len(), r.len() as int),
                        sep@,
                    ) =~= before + (seq![r.subrange(0, i as int)] + split_on(
                        r.subrange(i + sep@.len(), r.len() as int),
                        sep@,
                    )));
                }
                start = start + i + sep.len();
            },
        }
    }
}

/// True when every character of `v` is whitespace.
fn is_blank(v: &Vec<char>) -> (r: bool)
    ensures
        r == all_ws(v@),
{
    let mut i: usize = 0;
    while i < v.len()
        invariant
            i <= v@.len(),
            forall|j: int| 0 <= j < i ==> crate::text::is_ws(#[trigger] v@[j]),
        decreases v@.len() - i,
    {
        if !char_is_ws(v[i]) {
            return false;
        }
        i = i + 1;
    }
    true
}

/// Reads one non-blank block.
fn parse_block(b: &Vec<char>) -> (r: Result<(Time, String, String), EntryError>)
    ensures
        match (r, block_result(b@)) {
            (Ok((t, title, body)), Ok((t2, title2, body2))) => t == t2 && t.wf() && title@ == title2
                && body@ == body2,
            (Err(e), Err(e2)) => e.model() == e2,
            _ => false,
        },
{
    let n = b.len();
    let (h_end, body) = match index_of_char(b, '\n') {
        Some(p) => (p, trimmed_string(b, p, n)),
        None => (n, String::new()),
    };
    let h = slice_chars(b, 0, h_end);
    proof {
        assert(b@.subrange(0, n as int) =~= b@);
        assert(h@ == heading_of(b@));
    }
    let sep = vec![' ', '-', ' '];
    proof {
        assert(sep@ =~= heading_separator());
    }
    match find_from(&h, &sep, 0) {
        None => Err(EntryError::InvalidHeading(string_of(h.as_slice()))),
        Some(sp) => {
            let (lo, hi) = trim_bounds(&h, 0, sp);
            let ts = slice_chars(&h, lo, hi);
            match hm_parse(&ts) {
                Some(t) => {
                    let hn = h.len();
                    let title = trimmed_string(&h, sp + 3, hn);
                    Ok((t, title, body))
                },
                None => Err(EntryError::InvalidTime(string_of(h.as_slice()))),
            }
        },
    }
}

/// Reads the blocks of a day file dated `date`.
fn parse_blocks(pieces: &Vec<Vec<char>>, date: Date) -> (r: ParseResult)
    ensures
        entry_models(r.entries@) == block_entries(pieces@.map_values(|v: Vec<char>| v@), date),
        error_models(r.errors@) == block_errors(pieces@.map_values(|v: Vec<char>| v@)),
        forall|i: int| 0 <= i < r.entries@.len() ==> #[trigger] r.entries@[i].wf(),
{
    let mut entries: Vec<ParsedEntry> = Vec::new();
    let mut errors: Vec<EntryError> = Vec::new();
    let ghost blocks = pieces@.map_values(|v: Vec<char>| v@);
    proof {
        assert(entry_models(entries@) =~= Seq::<EntryModel>::empty());
        assert(error_models(errors@) =~= Seq::<ErrorModel>::empty());
    }
    let mut k: usize = 0;
    while k < pieces.len()
        invariant
            k <= pieces@.len(),
            blocks == pieces@.map_values(|v: Vec<char>| v@),
            entry_models(entries@) == block_entries(blocks.subrange(0, k as int), date),
            error_models(errors@) == block_errors(blocks.subrange(0, k as int)),
            forall|i: int| 0 <= i < entries@.len() ==> #[trigger] entries@[i].wf(),
        decreases pieces@.len() - k,
    {
        proof {
            assert(blocks.subrange(0, k + 1).drop_last() =~= blocks.subrange(0, k as int));
            assert(blocks.subrange(0, k + 1).last() == pieces@[k as int]@);
        }
        if !is_blank(&pieces[k]) {
            let ghost eb = entry_models(entries@);
            let ghost rb = error_models(errors@);
            match parse_block(&pieces[k]) {
                Ok((t, title, body)) => {
                    let mut src = chars_of(title.as_str());
                    src.push('\n');
                    let mut bv = chars_of(body.as_str());
                    src.append(&mut bv);
                    proof {
                        assert(src@ =~= tag_source(title@, body@));
                    }
                    let tags = extract_tags(&src);
                    let ghost old_entries = entries@;
                    let e = ParsedEntry { date, time: t, title, body, tags };
                    entries.push(e);
                    proof {
                        assert(entry_models(entries@) =~= eb.push(e.model()));
                        assert forall|i: int| 0 <= i < entries@.len() implies #[trigger] entries@[i].wf() by {
                            if i < old_entries.len() {
                                assert(entries@[i] == old_entries[i]);
                                assert(old_entries[i].wf());
                            }
                        }
                    }
                },
                Err(err) => {
                    let ghost em = err.model();
                    errors.push(err);
                    proof {
                        assert(error_models(errors@) =~= rb.push(em));
                    }
                },
            }
        }
        k = k + 1;
    }
    proof {
        assert(blocks.subrange(0, k as int) =~= blocks);
    }
    ParseResult { entries, errors }
}

/// Reads the content of a day file whose header is written under the
/// `chrono` format `header_format`. An empty file or a header that does not
/// name a day gives a single error and no entries; otherwise every block
/// gives an entry or an error, and no block stops the others being read.
pub fn parse_day_file(content: &str, header_format: &str) -> (r: ParseResult)
    ensures
        (entry_models(r.entries@), error_models(r.errors@)) == day_file_result(content@, header_format@),
        forall|i: int| 0 <= i < r.entries@.len() ==> #[trigger] r.entries@[i].wf(),
{
    let c = chars_of(content);
    let n = c.len();
    let entries: Vec<ParsedEntry> = Vec::new();
    let mut errors: Vec<EntryError> = Vec::new();
    if n == 0 {
        errors.push(EntryError::EmptyFile);
        proof {
            assert(entry_models(entries@) =~= Seq::<EntryModel>::empty());
            assert(error_models(errors@) =~= seq![(0int, Seq::<char>::empty())]);
        }
        return ParseResult { entries, errors };
    }
    let (line_end, rest) = match index_of_char(&c, '\n') {
        Some(p) => (p, slice_chars(&c, p + 1, n)),
        None => (n, Vec::new()),
    };
    let line = slice_chars(&c, 0, line_end);
    proof {
        assert(c@.subrange(0, n as int) =~= c@);
        assert(line@ == first_line(c@));
        assert(rest@ =~= after_first_line(c@));
    }
    let (lo, hi) = trim_bounds(&line, 0, line_end);
    proof {
        assert(line@.subrange(0, line_end as int) =~= line@);
    }
    let date = if hi - lo >= 2 && line[lo] == '#' && line[lo + 1] == ' ' {
        let ds = slice_chars(&line, lo + 2, hi);
        proof {
            let t = trim(line@);
            assert(t[0] == line@[lo as int] && t[1] == line@[lo + 1]);
            assert(ds@ =~= t.subrange(2, t.len() as int));
        }
        Date::parse_with(string_of(ds.as_slice()).as_str(), header_format)
    } else {
        None
    };
    let date = match date {
        Some(d) => d,
        None => {
            errors.push(EntryError::InvalidHeader(string_of(line.as_slice())));
            proof {
                assert(entry_models(entries@) =~= Seq::<EntryModel>::empty());
                assert(error_models(errors@) =~= seq![(1int, first_line(c@))]);
            }
            return ParseResult { entries, errors };
        },
    };
    let delim = vec!['\n', '#', '#', ' '];
    proof {
        assert(delim@ =~= block_delimiter());
    }
    let mut pieces = split_chars(&rest, &delim);
    let ghost pv = pieces@.map_values(|v: Vec<char>| v@);
    let first_len = pieces[0].len();
    if first_len >= 3 && pieces[0][0] == '#' && pieces[0][1] == '#' && pieces[0][2] == ' ' {
        let stripped = slice_chars(&pieces[0], 3, first_len);
        pieces.set(0, stripped);
        proof {
            assert(pv[0].subrange(0, 3) =~= seq!['#', '#', ' ']);
            assert(pieces@.map_values(|v: Vec<char>| v@) =~= blocks_of(rest@));
        }
    } else {
        proof {
            assert(!(pv[0].len() >= 3 && pv[0].subrange(0, 3) == seq!['#', '#', ' '])) by {
                if pv[0].len() >= 3 && pv[0].subrange(0, 3) == seq!['#', '#', ' '] {
                    assert(pv[0].subrange(0, 3)[0] == pv[0][0]);
                    assert(pv[0].subrange(0, 3)[1] == pv[0][1]);
                    assert(pv[0].subrange(0, 3)[2] == pv[0][2]);
                }
            }
            assert(pieces@.map_values(|v: Vec<char>| v@) =~= blocks_of(rest@));
        }
    }
    parse_blocks(&pieces, date)
}

/// Reads a day file whose header is written under the default format.
pub fn parse_file_content(content: &str) -> (r: ParseResult)
    ensures
        (entry_models(r.entries@), error_models(r.errors@)) == day_file_result(
            content@,
            DEFAULT_HEADER_FORMAT@,
        ),
{
    parse_day_file(content, DEFAULT_HEADER_FORMAT)
}

/// A file that is empty, or whose first line is not a valid header, gives no
/// entries and exactly one error.
pub proof fn lemma_bad_header_gives_one_error(c: Seq<char>, fmt: Seq<char>)
    requires
        c.len() == 0 || header_date(first_line(c), fmt).is_none(),
    ensures
        day_file_result(c, fmt).0.len() == 0,
        day_file_result(c, fmt).1.len() == 1,
{
}

/// Among three blocks, one malformed block between two valid ones gives
/// exactly the two valid entries, in order, and exactly one error, which
/// names the malformed heading.
pub proof fn lemma_malformed_block_is_skipped(b1: Seq<char>, b2: Seq<char>, b3: Seq<char>, d: Date)
    requires
        !all_ws(b1),
        !all_ws(b2),
        !all_ws(b3),
        block_result(b1) is Ok,
        block_result(b2) is Err,
        block_result(b3) is Ok,
    ensures
        ({
            let blocks = seq![b1, b2, b3];
            let (t1, title1, body1) = block_result(b1)->Ok_0;
            let (t3, title3, body3) = block_result(b3)->Ok_0;
            &&& block_entries(blocks, d) == seq![(d, t1, title1, body1), (d, t3, title3, body3)]
            &&& block_errors(blocks).len() == 1
            &&& block_errors(blocks)[0].1 == heading_of(b2)
        }),
{
    let blocks = seq![b1, b2, b3];
    assert(blocks.drop_last() =~= seq![b1, b2]);
    assert(seq![b1, b2].drop_last() =~= seq![b1]);
    assert(seq![b1].drop_last() =~= Seq::<Seq<char>>::empty());
    let (t1, title1, body1) = block_result(b1)->Ok_0;
    let (t3, title3, body3) = block_result(b3)->Ok_0;
    let e0 = Seq::<EntryModel>::empty();
    assert(block_entries(Seq::<Seq<char>>::empty(), d) == e0);
    assert(seq![b1].last() == b1);
    assert(seq![b1, b2].last() == b2);
    assert(blocks.last() == b3);
    assert(block_entries(seq![b1], d) == e0.push((d, t1, title1, body1)));
    assert(block_entries(seq![b1, b2], d) == e0.push((d, t1, title1, body1)));
    assert(block_entries(blocks, d) == e0.push((d, t1, title1, body1)).push((d, t3, title3, body3)));
    assert(e0.push((d, t1, title1, body1)).push((d, t3, title3, body3)) =~= seq![(d, t1, title1, body1), (d, t3, title3, body3)]);
    assert(block_errors(Seq::<Seq<char>>::empty()).len() == 0);
    assert(block_errors(seq![b1]).len() == 0);
    let e2 = block_result(b2)->Err_0;
    assert(e2.1 == heading_of(b2));
    assert(block_errors(seq![b1, b2]) == block_errors(seq![b1]).push(e2));
    assert(block_errors(blocks) == block_errors(seq![b1, b2]));
    assert(block_errors(blocks)[0] == e2);
}

/// Every non-blank block gives either an entry or an error: no block is
/// lost, and no malformed block takes its siblings' entries with it.
pub proof fn lemma_every_block_accounted(blocks: Seq<Seq<char>>, d: Date)
    ensures
        block_entries(blocks, d).len() + block_errors(blocks).len() == blocks.filter(
            |b: Seq<char>| !all_ws(b),
        ).len(),
    decreases blocks.len(),
{
    reveal(Seq::filter);
    if blocks.len() > 0 {
        lemma_every_block_accounted(blocks.drop_last(), d);
    }
}

/// A blank piece before the blocks (the text between the header and the
/// first heading) gives neither an entry nor an error.
pub proof fn lemma_blank_piece_first(lead: Seq<char>, s: Seq<Seq<char>>, d: Date)
    requires
        all_ws(lead),
    ensures
        block_entries(seq![lead] + s, d) == block_entries(s, d),
        block_errors(seq![lead] + s) == block_errors(s),
    decreases s.len(),
{
    if s.len() == 0 {
        assert(seq![lead] + s =~= seq![lead]);
        assert(seq![lead].drop_last() =~= Seq::<Seq<char>>::empty());
        assert(seq![lead].last() == lead);
        assert(block_entries(Seq::<Seq<char>>::empty(), d) == Seq::<EntryModel>::empty());
        assert(block_errors(Seq::<Seq<char>>::empty()) == Seq::<ErrorModel>::empty());
        assert(block_entries(seq![lead], d) == block_entries(Seq::<Seq<char>>::empty(), d));
        assert(block_errors(seq![lead]) == block_errors(Seq::<Seq<char>>::empty()));
    } else {
        lemma_blank_piece_first(lead, s.drop_last(), d);
        assert((seq![lead] + s).drop_last() =~= seq![lead] + s.drop_last());
        assert((seq![lead] + s).last() == s.last());
    }
}

/// A file with a valid header whose blocks are two valid ones around one
/// malformed one gives exactly the two valid entries, in order, and exactly
/// one error, which names the malformed heading.
pub proof fn lemma_file_with_malformed_block(
    c: Seq<char>,
    fmt: Seq<char>,
    lead: Seq<char>,
    b1: Seq<char>,
    b2: Seq<char>,
    b3: Seq<char>,
)
    requires
        c.len() > 0,
        header_date(first_line(c), fmt) is Some,
        blocks_of(after_first_line(c)) == seq![lead, b1, b2, b3],
        all_ws(lead),
        !all_ws(b1),
        !all_ws(b2),
        !all_ws(b3),
        block_result(b1) is Ok,
        block_result(b2) is Err,
        block_result(b3) is Ok,
    ensures
        ({
            let d = header_date(first_line(c), fmt)->Some_0;
            let (t1, title1, body1) = block_result(b1)->Ok_0;
            let (t3, title3, body3) = block_result(b3)->Ok_0;
            let (entries, errors) = day_file_result(c, fmt);
            &&& entries == seq![(d, t1, title1, body1), (d, t3, title3, body3)]
            &&& errors.len() == 1
            &&& errors[0].1 == heading_of(b2)
        }),
{
    let d = header_date(first_line(c), fmt)->Some_0;
    lemma_malformed_block_is_skipped(b1, b2, b3, d);
    assert(seq![lead, b1, b2, b3] =~= seq![lead] + seq![b1, b2, b3]);
    lemma_blank_piece_first(lead, seq![b1, b2, b3], d);
}

} // verus!
