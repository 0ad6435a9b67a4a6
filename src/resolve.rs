//! Resolution of date and time tokens: keywords, weekdays, formatted dates,
//! 12-hour and 24-hour times.
use vstd::prelude::*;
use crate::calendar::{
    civil_day, civil_of, day, parsed_day, parsed_time, Date, Time, MAX_DAY, MIN_DAY,
};
use crate::filters::DateFilter;
use crate::keywords::{Keyword, Keywords};
use crate::text::{
    chars_of, lower, lower_chars, parse_u32, parse_u32_spec, slice_chars, trim, trim_bounds,
};

verus! {

/// What tokens are resolved against: the day that stands for "today", and the
/// `chrono` formats that dates may be written in, tried in order.
pub struct ParseOptions {
    pub reference_date: Date,
    pub formats: Vec<String>,
}

impl ParseOptions {
    /// Options that resolve against `reference_date`, with dates written
    /// `%d/%m/%Y`.
    pub fn new(reference_date: Date) -> (r: ParseOptions)
        ensures
            r.reference_date == reference_date,
            formats_view(r.formats@) == seq!["%d/%m/%Y"@],
    {
        let formats = vec!["%d/%m/%Y".to_owned()];
        proof {
            assert(formats_view(formats@) =~= seq!["%d/%m/%Y"@]);
        }
        ParseOptions { reference_date, formats }
    }
}

/// The formats as text.
pub open spec fn formats_view(f: Seq<String>) -> Seq<Seq<char>> {
    f.map_values(|s: String| s@)
}

/// The day given by the first format, from position `i` on, under which the
/// token parses to a day that a `Date` can hold.
pub open spec fn first_format_day(token: Seq<char>, formats: Seq<Seq<char>>, i: int) -> Option<Date>
    decreases formats.len() - i,
{
    if i < 0 || i >= formats.len() {
        None
    } else {
        match parsed_day(token, formats[i]) {
            Some(d) => Some(d),
            None => first_format_day(token, formats, i + 1),
        }
    }
}

/// Day of the week that a weekday keyword names: 0 for Monday up to 6 for
/// Sunday.
pub open spec fn weekday_number(k: Keyword) -> Option<int> {
    match k {
        Keyword::Monday => Some(0),
        Keyword::Tuesday => Some(1),
        Keyword::Wednesday => Some(2),
        Keyword::Thursday => Some(3),
        Keyword::Friday => Some(4),
        Keyword::Saturday => Some(5),
        Keyword::Sunday => Some(6),
        _ => None,
    }
}

pub open spec fn single_of(d: Option<Date>) -> Option<DateFilter> {
    match d {
        Some(x) => Some(DateFilter::Single(x)),
        None => None,
    }
}

pub open spec fn range_of(a: Option<Date>, b: Option<Date>) -> Option<DateFilter> {
    match (a, b) {
        (Some(x), Some(y)) => Some(DateFilter::Range(x, y)),
        _ => None,
    }
}

/// The most recent day on or before `r` that falls on weekday `w`.
pub open spec fn weekday_on_or_before(r: Date, w: int) -> int {
    r.days - (r.weekday() + 7 - w) % 7
}

/// The month range that holds `r`: its first day to the day before the first
/// of the next month.
pub open spec fn month_range(r: Date) -> Option<DateFilter> {
    let (y, m, _d) = civil_of(r.days as int);
    let (ny, nm) = if m == 12 {
        (y + 1, 1int)
    } else {
        (y, m + 1)
    };
    match civil_day(ny, nm, 1) {
        Some(n) => range_of(civil_day(y, m, 1), day(n.days - 1)),
        None => None,
    }
}

/// The range of the month before the one that holds `r`.
pub open spec fn last_month_range(r: Date) -> Option<DateFilter> {
    let (y, m, _d) = civil_of(r.days as int);
    match civil_day(y, m, 1) {
        Some(f) => match day(f.days - 1) {
            Some(e) => {
                let (y2, m2, _d2) = civil_of(e.days as int);
                range_of(civil_day(y2, m2, 1), Some(e))
            },
            None => None,
        },
        None => None,
    }
}

/// January 1 to December 31 of year `y`.
pub open spec fn year_range(y: int) -> Option<DateFilter> {
    range_of(civil_day(y, 1, 1), civil_day(y, 12, 31))
}

/// What a date token resolves to, given the keyword it stands for (if any),
/// the reference day `r` and the formats; the first rule that applies wins.
pub open spec fn resolved_date(
    kw: Option<Keyword>,
    token: Seq<char>,
    r: Date,
    formats: Seq<Seq<char>>,
) -> Option<DateFilter> {
    match kw {
        Some(Keyword::Today) => single_of(day(r.days as int)),
        Some(Keyword::Yesterday) => single_of(day(r.days - 1)),
        Some(Keyword::Tomorrow) => single_of(day(r.days + 1)),
        Some(Keyword::LastWeek) => {
            let e = r.days - r.weekday() - 1;
            range_of(day(e - 6), day(e))
        },
        Some(Keyword::ThisWeek) => {
            let s = r.days - r.weekday();
            range_of(day(s), day(s + 6))
        },
        Some(Keyword::LastMonth) => last_month_range(r),
        Some(Keyword::ThisMonth) => month_range(r),
        Some(Keyword::LastYear) => year_range(civil_of(r.days as int).0 - 1),
        Some(Keyword::ThisYear) => year_range(civil_of(r.days as int).0),
        _ => if kw.is_some() && weekday_number(kw.unwrap()).is_some() {
            single_of(day(weekday_on_or_before(r, weekday_number(kw.unwrap()).unwrap())))
        } else {
            single_of(first_format_day(token, formats, 0))
        },
    }
}

/// How a start filter and an optional end filter combine: a start range wins;
/// otherwise an end range wins; two single days make a range in the order
/// given; a single start alone stays single.
pub open spec fn combined(a: Option<DateFilter>, b: Option<DateFilter>) -> Option<DateFilter> {
    match a {
        None => None,
        Some(DateFilter::Range(s, e)) => Some(DateFilter::Range(s, e)),
        Some(DateFilter::Single(x)) => match b {
            Some(DateFilter::Range(s, e)) => Some(DateFilter::Range(s, e)),
            Some(DateFilter::Single(y)) => Some(DateFilter::Range(x, y)),
            None => Some(DateFilter::Single(x)),
        },
    }
}

fn single_from(d: Option<Date>) -> (r: Option<DateFilter>)
    ensures
        r == single_of(d),
{
    match d {
        Some(x) => Some(DateFilter::Single(x)),
        None => None,
    }
}

fn range_from(a: Option<Date>, b: Option<Date>) -> (r: Option<DateFilter>)
    ensures
        r == range_of(a, b),
{
    match (a, b) {
        (Some(x), Some(y)) => Some(DateFilter::Range(x, y)),
        _ => None,
    }
}

fn weekday_number_of(k: Keyword) -> (r: Option<u32>)
    ensures
        r.is_some() == weekday_number(k).is_some(),
        r.is_some() ==> r.unwrap() as int == weekday_number(k).unwrap(),
{
    match k {
        Keyword::Monday => Some(0),
        Keyword::Tuesday => Some(1),
        Keyword::Wednesday => Some(2),
        Keyword::Thursday => Some(3),
        Keyword::Friday => Some(4),
        Keyword::Saturday => Some(5),
        Keyword::Sunday => Some(6),
        _ => None,
    }
}

fn month_range_of(r: Date) -> (res: Option<DateFilter>)
    requires
        r.wf(),
    ensures
        res == month_range(r),
        res is Some ==> res->Some_0.wf(),
{
    let (y, m, _d) = r.ymd();
    let (ny, nm) = if m == 12 {
        (y + 1, 1u32)
    } else {
        (y, m + 1)
    };
    match Date::from_ymd(ny, nm, 1) {
        Some(n) => range_from(Date::from_ymd(y, m, 1), n.add_days(-1)),
        None => None,
    }
}

fn last_month_range_of(r: Date) -> (res: Option<DateFilter>)
    requires
        r.wf(),
    ensures
        res == last_month_range(r),
        res is Some ==> res->Some_0.wf(),
{
    let (y, m, _d) = r.ymd();
    match Date::from_ymd(y, m, 1) {
        Some(f) => match f.add_days(-1) {
            Some(e) => {
                let (y2, m2, _d2) = e.ymd();
                range_from(Date::from_ymd(y2, m2, 1), Some(e))
            },
            None => None,
        },
        None => None,
    }
}

fn year_range_of(y: i32) -> (res: Option<DateFilter>)
    ensures
        res == year_range(y as int),
        res is Some ==> res->Some_0.wf(),
{
    range_from(Date::from_ymd(y, 1, 1), Date::from_ymd(y, 12, 31))
}

/// The day given by the first format under which `token` parses.
fn first_format_date(token: &str, formats: &Vec<String>) -> (r: Option<Date>)
    ensures
        r == first_format_day(token@, formats_view(formats@), 0),
        r is Some ==> r->Some_0.wf(),
{
    let ghost f = formats_view(formats@);
    let mut i: usize = 0;
    while i < formats.len()
        invariant
            i <= formats@.len(),
            f == formats_view(formats@),
            f.len() == formats@.len(),
            first_format_day(token@, f, 0) == first_format_day(token@, f, i as int),
        decreases formats@.len() - i,
    {
        proof {
            assert(f[i as int] == formats@[i as int]@);
        }
        match Date::parse_with(token, formats[i].as_str()) {
            Some(d) => {
                return Some(d);
            },
            None => {},
        }
        i = i + 1;
    }
    None
}

/// Resolves one date token against the reference day: keywords first (today,
/// yesterday, tomorrow, last/this week, month and year), then weekday names,
/// then each format in order.
pub fn resolve_date_token(
    keywords: &Keywords,
    token: &str,
    reference_date: Date,
    formats: &Vec<String>,
) -> (r: Option<DateFilter>)
    requires
        keywords.wf(),
        reference_date.wf(),
    ensures
        r == resolved_date(
            keywords.resolve(lower(token@)),
            token@,
            reference_date,
            formats_view(formats@),
        ),
        r is Some ==> r->Some_0.wf(),
{
    let key = lower_chars(&chars_of(token));
    let kw = keywords.lookup(&key);
    let rd = reference_date;
    match kw {
        Some(Keyword::Today) => single_from(Some(rd)),
        Some(Keyword::Yesterday) => single_from(rd.add_days(-1)),
        Some(Keyword::Tomorrow) => single_from(rd.add_days(1)),
        Some(Keyword::LastWeek) => {
            let e = rd.add_days(-(rd.weekday_index() as i64) - 1);
            match e {
                Some(end) => range_from(end.add_days(-6), Some(end)),
                None => None,
            }
        },
        Some(Keyword::ThisWeek) => {
            let s = rd.add_days(-(rd.weekday_index() as i64));
            match s {
                Some(start) => range_from(Some(start), start.add_days(6)),
                None => None,
            }
        },
        Some(Keyword::LastMonth) => last_month_range_of(rd),
        Some(Keyword::ThisMonth) => month_range_of(rd),
        Some(Keyword::LastYear) => {
            let (y, _m, _d) = rd.ymd();
            year_range_of(y - 1)
        },
        Some(Keyword::ThisYear) => {
            let (y, _m, _d) = rd.ymd();
            year_range_of(y)
        },
        _ => {
            let w = match kw {
                Some(k) => weekday_number_of(k),
                None => None,
            };
            match w {
                Some(w) => {
                    let back = (rd.weekday_index() + 7 - w) % 7;
                    single_from(rd.add_days(-(back as i64)))
                },
                None => single_from(first_format_date(token, formats)),
            }
        },
    }
}

/// Resolves a start token and an optional end token into one filter; an end
/// token that does not resolve counts as absent.
pub fn parse_date_token(
    keywords: &Keywords,
    start_date: &str,
    end_date: Option<&str>,
    options: &ParseOptions,
) -> (r: Option<DateFilter>)
    requires
        keywords.wf(),
        options.reference_date.wf(),
    ensures
        r == combined(
            resolved_date(
                keywords.resolve(lower(start_date@)),
                start_date@,
                options.reference_date,
                formats_view(options.formats@),
            ),
            match end_date {
                Some(e) => resolved_date(
                    keywords.resolve(lower(e@)),
                    e@,
                    options.reference_date,
                    formats_view(options.formats@),
                ),
                None => None,
            },
        ),
        r is Some ==> r->Some_0.wf(),
{
    let a = resolve_date_token(keywords, start_date, options.reference_date, &options.formats);
    let b = match end_date {
        Some(e) => resolve_date_token(keywords, e, options.reference_date, &options.formats),
        None => None,
    };
    match a {
        None => None,
        Some(DateFilter::Range(s, e)) => Some(DateFilter::Range(s, e)),
        Some(DateFilter::Single(x)) => match b {
            Some(DateFilter::Range(s, e)) => Some(DateFilter::Range(s, e)),
            Some(DateFilter::Single(y)) => Some(DateFilter::Range(x, y)),
            None => Some(DateFilter::Single(x)),
        },
    }
}

/// A weekday name resolves to the most recent day on or before the reference
/// day that falls on that weekday: never later than the reference day, less
/// than a week before it, and the reference day itself when it falls on that
/// weekday; wherever that day lies within the days a `Date` holds.
pub proof fn lemma_weekday_resolution(
    keywords: Keywords,
    token: Seq<char>,
    r: Date,
    formats: Seq<Seq<char>>,
    k: Keyword,
)
    requires
        r.wf(),
        keywords.resolve(lower(token)) == Some(k),
        weekday_number(k).is_some(),
        weekday_on_or_before(r, weekday_number(k).unwrap()) >= MIN_DAY,
    ensures
        ({
            let w = weekday_number(k).unwrap();
            let res = resolved_date(keywords.resolve(lower(token)), token, r, formats);
            &&& res.is_some()
            &&& res.unwrap() is Single
            &&& {
                let d = res.unwrap()->Single_0;
                &&& d.wf()
                &&& d.days <= r.days
                &&& r.days - d.days < 7
                &&& d.weekday() == w
                &&& (r.weekday() == w ==> d == r)
            }
        }),
{
    let w = weekday_number(k).unwrap();
    let wr = r.weekday();
    let back = (wr + 7 - w) % 7;
    assert(0 <= w < 7);
    assert(0 <= wr < 7);
    assert(0 <= back < 7);
    let dd = r.days - back;
    assert((dd - 1) % 7 == w) by {
        assert(wr == (r.days - 1) % 7);
        if wr >= w {
            assert(back == wr - w);
        } else {
            assert(back == wr + 7 - w);
        }
    }
}

/// "last week" resolves to the seven days, Monday to Sunday, of the week
/// before the one that holds the reference day, wherever that week lies
/// within the days a `Date` holds.
pub proof fn lemma_last_week_range(
    keywords: Keywords,
    token: Seq<char>,
    r: Date,
    formats: Seq<Seq<char>>,
)
    requires
        r.wf(),
        r.days - r.weekday() - 7 >= MIN_DAY,
        keywords.resolve(lower(token)) == Some(Keyword::LastWeek),
    ensures
        ({
            let res = resolved_date(keywords.resolve(lower(token)), token, r, formats);
            &&& res is Some
            &&& res->Some_0 is Range
            &&& {
                let s = res->Some_0->Range_0;
                let e = res->Some_0->Range_1;
                &&& s.wf() && e.wf()
                &&& e.days - s.days == 6
                &&& s.weekday() == 0
                &&& e.weekday() == 6
                &&& e.days == r.days - r.weekday() - 1
            }
        }),
{
    let wr = r.weekday();
    assert(0 <= wr < 7);
    assert(wr == (r.days - 1) % 7);
    assert((r.days - wr - 1) % 7 == 0);
    assert((r.days - wr - 7 - 1) % 7 == 0);
}

/// "this week" resolves to the seven days, Monday to Sunday, of the week
/// that holds the reference day, wherever that week lies within the days a
/// `Date` holds.
pub proof fn lemma_this_week_range(
    keywords: Keywords,
    token: Seq<char>,
    r: Date,
    formats: Seq<Seq<char>>,
)
    requires
        r.wf(),
        r.days - r.weekday() + 6 <= MAX_DAY,
        keywords.resolve(lower(token)) == Some(Keyword::ThisWeek),
    ensures
        ({
            let res = resolved_date(keywords.resolve(lower(token)), token, r, formats);
            &&& res is Some
            &&& res->Some_0 is Range
            &&& {
                let s = res->Some_0->Range_0;
                let e = res->Some_0->Range_1;
                &&& s.wf() && e.wf()
                &&& e.days - s.days == 6
                &&& s.weekday() == 0
                &&& e.weekday() == 6
                &&& s.days <= r.days <= e.days
            }
        }),
{
    let wr = r.weekday();
    assert(0 <= wr < 7);
    assert(wr == (r.days - 1) % 7);
    assert((r.days - wr - 1) % 7 == 0);
    assert(r.days - wr >= MIN_DAY);
}

/// The first position, from `i` on, where `c` stands in `s`.
pub open spec fn index_of_from(s: Seq<char>, c: char, i: int) -> Option<int>
    decreases s.len() - i,
{
    if i < 0 || i >= s.len() {
        None
    } else if s[i] == c {
        Some(i)
    } else {
        index_of_from(s, c, i + 1)
    }
}

/// The first position where `c` stands in `s`.
pub open spec fn index_of(s: Seq<char>, c: char) -> Option<int> {
    index_of_from(s, c, 0)
}

/// Hour, minute and second read from `H`, `H:M` or `H:M:S`; a second that
/// does not read as a number counts as 0.
pub open spec fn clock_parts(core: Seq<char>) -> Option<(u32, u32, u32)> {
    match index_of(core, ':') {
        Some(i) => {
            let h = core.subrange(0, i);
            let rest = core.subrange(i + 1, core.len() as int);
            let m = match index_of(rest, ':') {
                Some(j) => rest.subrange(0, j),
                None => rest,
            };
            let sec = match index_of(rest, ':') {
                Some(j) => match parse_u32_spec(rest.subrange(j + 1, rest.len() as int)) {
                    Some(v) => v,
                    None => 0u32,
                },
                None => 0u32,
            };
            match (parse_u32_spec(h), parse_u32_spec(m)) {
                (Some(hv), Some(mv)) => Some((hv, mv, sec)),
                _ => None,
            }
        },
        None => match parse_u32_spec(core) {
            Some(h) => Some((h, 0u32, 0u32)),
            None => None,
        },
    }
}

/// The last two characters of `s`, lower-cased.
pub open spec fn suffix2(s: Seq<char>) -> Seq<char> {
    lower(s.subrange(s.len() - 2, s.len() as int))
}

/// `s` ends in `am` or `pm`, in any case.
pub open spec fn has_meridiem(s: Seq<char>) -> bool {
    s.len() >= 2 && (suffix2(s) == seq!['a', 'm'] || suffix2(s) == seq!['p', 'm'])
}

/// A 12-hour time: hour 1 to 12, minute and second up to 59; `12am` is
/// midnight and `12pm` is noon.
pub open spec fn twelve_hour(s: Seq<char>) -> Option<Time> {
    let core = trim(s.subrange(0, s.len() - 2));
    let is_pm = suffix2(s) == seq!['p', 'm'];
    match clock_parts(core) {
        Some((h, m, sec)) => if h == 0 || h > 12 || m > 59 || sec > 59 {
            None
        } else {
            let h24: u32 = if h == 12 {
                if is_pm {
                    12
                } else {
                    0
                }
            } else if is_pm {
                (h + 12) as u32
            } else {
                h
            };
            Some(Time { hour: h24, minute: m, second: sec })
        },
        None => None,
    }
}

pub open spec fn at_hour(h: u32) -> Option<Time> {
    Some(Time { hour: h, minute: 0, second: 0 })
}

/// What a time token resolves to, given the keyword it stands for (if any):
/// named times of day, then a 12-hour time, then `HH:MM`, then a bare hour
/// from 0 to 23.
pub open spec fn resolved_time(kw: Option<Keyword>, s: Seq<char>) -> Option<Time> {
    match kw {
        Some(Keyword::Morning) => at_hour(8),
        Some(Keyword::Noon) => at_hour(12),
        Some(Keyword::Evening) => at_hour(18),
        Some(Keyword::Night) => at_hour(21),
        Some(Keyword::Midnight) => at_hour(0),
        _ => if has_meridiem(s) {
            twelve_hour(s)
        } else {
            match parsed_time(s, "%H:%M"@) {
                Some((h, m, sec)) => Some(Time { hour: h as u32, minute: m as u32, second: sec as u32 }),
                None => match parse_u32_spec(s) {
                    Some(h) => if h <= 23 {
                        at_hour(h)
                    } else {
                        None
                    },
                    None => None,
                },
            }
        },
    }
}

/// The first position where `c` stands in `v`.
pub fn index_of_char(v: &Vec<char>, c: char) -> (r: Option<usize>)
    ensures
        r.is_some() == index_of(v@, c).is_some(),
        r.is_some() ==> r.unwrap() as int == index_of(v@, c).unwrap(),
        r.is_some() ==> r.unwrap() < v@.len(),
{
    let mut i: usize = 0;
    while i < v.len()
        invariant
            i <= v@.len(),
            index_of(v@, c) == index_of_from(v@, c, i as int),
        decreases v@.len() - i,
    {
        if v[i] == c {
            return Some(i);
        }
        i = i + 1;
    }
    None
}

fn clock_parts_of(core: &Vec<char>) -> (r: Option<(u32, u32, u32)>)
    ensures
        r == clock_parts(core@),
{
    let n = core.len();
    match index_of_char(core, ':') {
        Some(i) => {
            let rest = slice_chars(core, i + 1, n);
            let rn = rest.len();
            let ghost rs = core@.subrange(i + 1, n as int);
            let (m_end, sec) = match index_of_char(&rest, ':') {
                Some(j) => {
                    let sv = match parse_u32(&rest, j + 1, rn) {
                        Some(v) => v,
                        None => 0u32,
                    };
                    (j, sv)
                },
                None => (rn, 0u32),
            };
            let hv = parse_u32(core, 0, i);
            let mv = parse_u32(&rest, 0, m_end);
            proof {
                assert(rest@.subrange(0, rest@.len() as int) =~= rest@);
                assert(rs == rest@);
                let m = match index_of(rs, ':') {
                    Some(j) => rs.subrange(0, j),
                    None => rs,
                };
                assert(mv == parse_u32_spec(m));
            }
            match (hv, mv) {
                (Some(hv), Some(mv)) => Some((hv, mv, sec)),
                _ => None,
            }
        },
        None => {
            proof {
                assert(core@.subrange(0, core@.len() as int) =~= core@);
            }
            match parse_u32(core, 0, n) {
                Some(h) => Some((h, 0u32, 0u32)),
                None => None,
            }
        },
    }
}

/// Resolves a time token: `morning` (08:00), `noon` (12:00), `evening`
/// (18:00), `night` (21:00), `midnight` (00:00) and their aliases; then a
/// 12-hour time such as `5pm`, `5:30 am` or `12:45AM`; then `HH:MM`; then a
/// bare hour from 0 to 23. A component out of range gives `None`.
pub fn parse_time_token(keywords: &Keywords, s: &str) -> (r: Option<Time>)
    requires
        keywords.wf(),
    ensures
        r == resolved_time(keywords.resolve(lower(s@)), s@),
        r.is_some() ==> r.unwrap().wf(),
{
    let v = chars_of(s);
    let low = lower_chars(&v);
    match keywords.lookup(&low) {
        Some(Keyword::Morning) => return Some(Time { hour: 8, minute: 0, second: 0 }),
        Some(Keyword::Noon) => return Some(Time { hour: 12, minute: 0, second: 0 }),
        Some(Keyword::Evening) => return Some(Time { hour: 18, minute: 0, second: 0 }),
        Some(Keyword::Night) => return Some(Time { hour: 21, minute: 0, second: 0 }),
        Some(Keyword::Midnight) => return Some(Time { hour: 0, minute: 0, second: 0 }),
        _ => {},
    }
    let n = v.len();
    if n >= 2 {
        let a = low[n - 2];
        let b = low[n - 1];
        proof {
            assert(suffix2(s@) =~= seq![low@[n - 2], low@[n - 1]]);
        }
        if (a == 'a' || a == 'p') && b == 'm' {
            let is_pm = a == 'p';
            let (lo, hi) = trim_bounds(&v, 0, n - 2);
            let core = slice_chars(&v, lo, hi);
            return match clock_parts_of(&core) {
                Some((h, m, sec)) => if h == 0 || h > 12 || m > 59 || sec > 59 {
                    None
                } else {
                    let h24: u32 = if h == 12 {
                        if is_pm {
                            12
                        } else {
                            0
                        }
                    } else if is_pm {
                        h + 12
                    } else {
                        h
                    };
                    Some(Time { hour: h24, minute: m, second: sec })
                },
                None => None,
            };
        }
    }
    match Time::parse_with(s, "%H:%M") {
        Some(t) => Some(t),
        None => {
            proof {
                assert(v@.subrange(0, v@.len() as int) =~= v@);
            }
            match parse_u32(&v, 0, n) {
                Some(h) => if h <= 23 {
                    Some(Time { hour: h, minute: 0, second: 0 })
                } else {
                    None
                },
                None => None,
            }
        },
    }
}

} // verus!
