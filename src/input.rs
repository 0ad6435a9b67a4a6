//! Parsing of one raw note: an optional date/time prefix, then a title and
//! a body.
use vstd::prelude::*;
use crate::calendar::{day, parse_date_time_with, parsed_datetime, Date, Time};
use crate::filters::DateFilter;
use crate::keywords::{word_position, Keyword, Keywords};
use crate::resolve::{
    formats_view, parse_time_token, resolve_date_token, resolved_date, resolved_time, ParseOptions,
};
use crate::text::{
    chars_of, find_from, find_spec, is_ws, lower, slice_chars, string_of, trim, trim_bounds,
    trimmed_string,
};

verus! {

/// A raw note once parsed: its day, its time if one was given, its title and
/// body, and whether a date was written in it.
pub struct ParsedInput {
    pub date: Date,
    pub time: Option<Time>,
    pub title: String,
    pub body: String,
    pub tags: Vec<String>,
    pub explicit_date: bool,
}

pub open spec fn is_line_break(c: char) -> bool {
    c == '\n' || c == '\r'
}

pub open spec fn is_terminator(c: char) -> bool {
    c == '.' || c == '?' || c == '!'
}

/// Markdown heading marks and whitespace around a title.
pub open spec fn is_heading_noise(c: char) -> bool {
    c == '#' || is_ws(c)
}

/// The first position, from `i` on, of a line break in `s`.
pub open spec fn first_break_from(s: Seq<char>, i: int) -> Option<int>
    decreases s.len() - i,
{
    if i < 0 || i >= s.len() {
        None
    } else if is_line_break(s[i]) {
        Some(i)
    } else {
        first_break_from(s, i + 1)
    }
}

/// The first position, from `i` on, of a sentence terminator in `s`.
pub open spec fn first_terminator_from(s: Seq<char>, i: int) -> Option<int>
    decreases s.len() - i,
{
    if i < 0 || i >= s.len() {
        None
    } else if is_terminator(s[i]) {
        Some(i)
    } else {
        first_terminator_from(s, i + 1)
    }
}

/// The text cut after position `i`, each side trimmed.
pub open spec fn cut_after(t: Seq<char>, i: int) -> (Seq<char>, Seq<char>) {
    (trim(t.subrange(0, i + 1)), trim(t.subrange(i + 1, t.len() as int)))
}

/// Title and body: the first line break ends the title; failing that, the
/// first sentence terminator (which stays in the title); failing that, all
/// of it is the title.
pub open spec fn title_body(t: Seq<char>) -> (Seq<char>, Seq<char>) {
    match first_break_from(t, 0) {
        Some(i) => cut_after(t, i),
        None => match first_terminator_from(t, 0) {
            Some(i) => cut_after(t, i),
            None => (trim(t), Seq::<char>::empty()),
        },
    }
}

pub open spec fn strip_noise_start(s: Seq<char>) -> Seq<char>
    decreases s.len(),
{
    if s.len() > 0 && is_heading_noise(s[0]) {
        strip_noise_start(s.drop_first())
    } else {
        s
    }
}

pub open spec fn strip_noise_end(s: Seq<char>) -> Seq<char>
    decreases s.len(),
{
    if s.len() > 0 && is_heading_noise(s.last()) {
        strip_noise_end(s.drop_last())
    } else {
        s
    }
}

/// A title without the `#` marks and whitespace around it.
pub open spec fn normalized_title(s: Seq<char>) -> Seq<char> {
    strip_noise_end(strip_noise_start(trim(s)))
}

/// A day and time written `YYYY-MM-DDTHH:MM`.
pub open spec fn iso_date_time(s: Seq<char>) -> Option<(Date, Time)> {
    match parsed_datetime(s, "%Y-%m-%dT%H:%M"@) {
        Some((d, h, m, sec)) => match day(d) {
            Some(dd) => Some((dd, Time { hour: h as u32, minute: m as u32, second: sec as u32 })),
            None => None,
        },
        None => None,
    }
}

/// What a whole date token resolves to.
pub open spec fn date_of_token(
    keywords: Keywords,
    t: Seq<char>,
    r: Date,
    formats: Seq<Seq<char>>,
) -> Option<DateFilter> {
    resolved_date(keywords.resolve(lower(t)), t, r, formats)
}

/// The date, time and remaining text of a raw note. The prefix is what comes
/// before the first `": "`; it is tried as `YYYY-MM-DDTHH:MM`, then as a date
/// and a time on either side of the word `at`, then as a date. When none of
/// these applies, the whole input is the text.
pub open spec fn prefix_parts(
    keywords: Keywords,
    input: Seq<char>,
    r: Date,
    formats: Seq<Seq<char>>,
) -> (Option<DateFilter>, Option<Time>, Seq<char>) {
    match find_spec(input, seq![':', ' '], 0) {
        None => (None, None, input),
        Some(idx) => {
            let prefix = trim(input.subrange(0, idx));
            let rest = input.subrange(idx + 1, input.len() as int);
            match iso_date_time(prefix) {
                Some((d, t)) => (Some(DateFilter::Single(d)), Some(t), rest),
                None => match word_position(Keyword::At, prefix) {
                    Some(pos) => {
                        let dp = trim(prefix.subrange(0, pos));
                        let tp = trim(prefix.subrange(pos + 2, prefix.len() as int));
                        (
                            date_of_token(keywords, dp, r, formats),
                            resolved_time(keywords.resolve(lower(tp)), tp),
                            rest,
                        )
                    },
                    None => match date_of_token(keywords, prefix, r, formats) {
                        Some(d) => (Some(d), None, rest),
                        None => (None, None, input),
                    },
                },
            }
        },
    }
}

/// The day a parsed prefix gives (the start of a range), and whether one was
/// given at all.
pub open spec fn chosen_date(d: Option<DateFilter>, r: Date) -> (Date, bool) {
    match d {
        Some(DateFilter::Single(x)) => (x, true),
        Some(DateFilter::Range(s, _e)) => (s, true),
        None => (r, false),
    }
}

fn first_break(v: &Vec<char>) -> (r: Option<usize>)
    ensures
        r.is_some() == first_break_from(v@, 0).is_some(),
        r.is_some() ==> r.unwrap() as int == first_break_from(v@, 0).unwrap() && r.unwrap()
            < v@.len(),
{
    let mut i: usize = 0;
    while i < v.len()
        invariant
            i <= v@.len(),
            first_break_from(v@, 0) == first_break_from(v@, i as int),
        decreases v@.len() - i,
    {
        if v[i] == '\n' || v[i] == '\r' {
            return Some(i);
        }
        i = i + 1;
    }
    None
}

fn first_terminator(v: &Vec<char>) -> (r: Option<usize>)
    ensures
        r.is_some() == first_terminator_from(v@, 0).is_some(),
        r.is_some() ==> r.unwrap() as int == first_terminator_from(v@, 0).unwrap() && r.unwrap()
            < v@.len(),
{
    let mut i: usize = 0;
    while i < v.len()
        invariant
            i <= v@.len(),
            first_terminator_from(v@, 0) == first_terminator_from(v@, i as int),
        decreases v@.len() - i,
    {
        if v[i] == '.' || v[i] == '?' || v[i] == '!' {
            return Some(i);
        }
        i = i + 1;
    }
    None
}

/// Splits a text into title and body: at the first line break, else after
/// the first sentence terminator, else all of it is the title.
pub fn split_title_body(text: &str) -> (r: (String, String))
    ensures
        (r.0@, r.1@) == title_body(text@),
{
    let v = chars_of(text);
    let n = v.len();
    let cut = match first_break(&v) {
        Some(i) => Some(i),
        None => first_terminator(&v),
    };
    match cut {
        Some(i) => (trimmed_string(&v, 0, i + 1), trimmed_string(&v, i + 1, n)),
        None => {
            proof {
                assert(v@.subrange(0, n as int) =~= v@);
            }
            (trimmed_string(&v, 0, n), String::new())
        },
    }
}

pub proof fn lemma_strip_start_skip(s: Seq<char>, k: int)
    requires
        0 <= k <= s.len(),
        forall|i: int| 0 <= i < k ==> is_heading_noise(#[trigger] s[i]),
    ensures
        strip_noise_start(s) == strip_noise_start(s.subrange(k, s.len() as int)),
    decreases k,
{
    if k > 0 {
        let t = s.drop_first();
        assert(forall|i: int| 0 <= i < k - 1 ==> t[i] == s[i + 1]);
        lemma_strip_start_skip(t, k - 1);
        assert(t.subrange(k - 1, t.len() as int) =~= s.subrange(k, s.len() as int));
    } else {
        assert(s.subrange(0, s.len() as int) =~= s);
    }
}

pub proof fn lemma_strip_end_skip(s: Seq<char>, k: int)
    requires
        0 <= k <= s.len(),
        forall|i: int| k <= i < s.len() ==> is_heading_noise(#[trigger] s[i]),
    ensures
        strip_noise_end(s) == strip_noise_end(s.subrange(0, k)),
    decreases s.len() - k,
{
    if k < s.len() {
        let t = s.drop_last();
        assert(forall|i: int| k <= i < t.len() ==> t[i] == s[i]);
        lemma_strip_end_skip(t, k);
        assert(t.subrange(0, k) =~= s.subrange(0, k));
    } else {
        assert(s.subrange(0, k) =~= s);
    }
}

/// Removes the `#` marks and whitespace around a title.
pub fn normalize_title(s: &str) -> (r: String)
    ensures
        r@ == normalized_title(s@),
{
    let v = chars_of(s);
    let (lo, hi) = trim_bounds(&v, 0, v.len());
    proof {
        assert(v@.subrange(0, v@.len() as int) =~= v@);
    }
    let ghost t = v@.subrange(lo as int, hi as int);
    let mut a = lo;
    while a < hi && (v[a] == '#' || crate::text::char_is_ws(v[a]))
        invariant
            lo <= a <= hi <= v@.len(),
            forall|i: int| lo <= i < a ==> is_heading_noise(#[trigger] v@[i]),
        decreases hi - a,
    {
        a = a + 1;
    }
    proof {
        assert forall|i: int| 0 <= i < a - lo implies is_heading_noise(#[trigger] t[i]) by {
            assert(t[i] == v@[lo + i]);
        }
        lemma_strip_start_skip(t, a - lo);
        assert(t.subrange(a - lo, t.len() as int) =~= v@.subrange(a as int, hi as int));
    }
    let mut b = hi;
    while b > a && (v[b - 1] == '#' || crate::text::char_is_ws(v[b - 1]))
        invariant
            lo <= a <= b <= hi <= v@.len(),
            forall|i: int| b <= i < hi ==> is_heading_noise(#[trigger] v@[i]),
        decreases b - a,
    {
        b = b - 1;
    }
    proof {
        let u = v@.subrange(a as int, hi as int);
        assert forall|i: int| b - a <= i < u.len() implies is_heading_noise(#[trigger] u[i]) by {
            assert(u[i] == v@[a + i]);
        }
        lemma_strip_end_skip(u, b - a);
        assert(u.subrange(0, b - a) =~= v@.subrange(a as int, b as int));
        let w = v@.subrange(a as int, b as int);
        if b > a {
            assert(!is_heading_noise(w[0]));
        }
        assert(strip_noise_start(w) == w);
        if a < hi {
            assert(!is_heading_noise(u[0]));
        }
    }
    let w = slice_chars(&v, a, b);
    string_of(w.as_slice())
}

/// The date, time and remaining text of a raw note (see [`prefix_parts`]).
fn parse_prefix(keywords: &Keywords, input: &Vec<char>, options: &ParseOptions) -> (r: (
    Option<DateFilter>,
    Option<Time>,
    Vec<char>,
))
    requires
        keywords.wf(),
        options.reference_date.wf(),
    ensures
        (r.0, r.1, r.2@) == prefix_parts(
            *keywords,
            input@,
            options.reference_date,
            formats_view(options.formats@),
        ),
        r.0 is Some ==> r.0->Some_0.wf(),
        r.1 is Some ==> r.1->Some_0.wf(),
{
    let n = input.len();
    let sep = vec![':', ' '];
    proof {
        assert(sep@ =~= seq![':', ' ']);
    }
    match find_from(input, &sep, 0) {
        None => (None, None, slice_chars(input, 0, n)),
        Some(idx) => {
            proof {
                assert(input@.subrange(0, n as int) =~= input@);
            }
            let (plo, phi) = trim_bounds(input, 0, idx);
            let pv = slice_chars(input, plo, phi);
            let prefix = string_of(pv.as_slice());
            let rest = slice_chars(input, idx + 1, n);
            match parse_date_time_with(prefix.as_str(), "%Y-%m-%dT%H:%M") {
                Some((d, t)) => (Some(DateFilter::Single(d)), Some(t), rest),
                None => match Keywords::find_position(Keyword::At, prefix.as_str()) {
                    Some(pos) => {
                        let pn = pv.len();
                        let dp = trimmed_string(&pv, 0, pos);
                        let tp = trimmed_string(&pv, pos + 2, pn);
                        let d = resolve_date_token(
                            keywords,
                            dp.as_str(),
                            options.reference_date,
                            &options.formats,
                        );
                        let t = parse_time_token(keywords, tp.as_str());
                        (d, t, rest)
                    },
                    None => match resolve_date_token(
                        keywords,
                        prefix.as_str(),
                        options.reference_date,
                        &options.formats,
                    ) {
                        Some(d) => (Some(d), None, rest),
                        None => (None, None, slice_chars(input, 0, n)),
                    },
                },
            }
        },
    }
}

/// Parses one raw note such as `"yesterday at 6am: Title. Body"` against the
/// reference day and formats of `options`. Without a recognised prefix the
/// whole input is the text and the reference day is the date.
pub fn parse_raw_user_input(keywords: &Keywords, input: &str, options: &ParseOptions) -> (r:
    ParsedInput)
    requires
        keywords.wf(),
        options.reference_date.wf(),
    ensures
        ({
            let (d, t, rest) = prefix_parts(
                *keywords,
                input@,
                options.reference_date,
                formats_view(options.formats@),
            );
            let (title, body) = title_body(trim(rest));
            &&& (r.date, r.explicit_date) == chosen_date(d, options.reference_date)
            &&& r.time == t
            &&& r.title@ == normalized_title(title)
            &&& r.body@ == body
            &&& r.tags@.len() == 0
        }),
        r.date.wf(),
        r.time is Some ==> r.time->Some_0.wf(),
{
    let v = chars_of(input);
    let (d, t, rest) = parse_prefix(keywords, &v, options);
    let rn = rest.len();
    let text = trimmed_string(&rest, 0, rn);
    proof {
        assert(rest@.subrange(0, rn as int) =~= rest@);
    }
    let (title_raw, body) = split_title_body(text.as_str());
    let title = normalize_title(title_raw.as_str());
    let (date, explicit_date) = match d {
        Some(DateFilter::Single(x)) => (x, true),
        Some(DateFilter::Range(s, _e)) => (s, true),
        None => (options.reference_date, false),
    };
    ParsedInput { date, time: t, title, body, tags: Vec::new(), explicit_date }
}

/// The time a new entry is written at: the time given in the note; else the
/// configured default when a date was written; else the current time.
pub fn entry_time(parsed: &ParsedInput, default_time: Time, now: Time) -> (r: Time)
    ensures
        r == match parsed.time {
            Some(t) => t,
            None => if parsed.explicit_date {
                default_time
            } else {
                now
            },
        },
{
    match parsed.time {
        Some(t) => t,
        None => if parsed.explicit_date {
            default_time
        } else {
            now
        },
    }
}

} // verus!
