//! Queries over journal entries: merging in date order and filtering by time
//! of day and by tags.
use vstd::prelude::*;
use crate::calendar::{civil_day, civil_of, day, Date, Time};
use crate::day_file::ParsedEntry;
use crate::filters::{time_is_in_range, time_matches, DateFilter, TimeFilter};
use crate::keywords::chars_equal;
use crate::tags::strings_view;
use crate::text::{chars_of, lower, lower_chars, slice_chars, trim, trim_bounds};

verus! {

/// A journal entry together with the file it was read from.
pub struct JournalEntry {
    pub date: Date,
    pub time: Time,
    pub title: String,
    pub body: String,
    pub tags: Vec<String>,
    pub path: String,
}

/// A problem met by a query; it never stops the query.
pub enum QueryError {
    /// A date token that resolves to no date.
    InvalidDate(String),
    /// A file that could not be read, or that holds a problem.
    FileError { path: String, error: String },
}

/// What a query gives: the entries found and the problems met.
pub struct QueryResult {
    pub entries: Vec<JournalEntry>,
    pub errors: Vec<QueryError>,
}

/// All tags found, and the problems met.
pub struct QueryTagsResult {
    pub tags: Vec<String>,
    pub errors: Vec<QueryError>,
}

/// An entry as values: day, time, title, body, tags, path.
pub type JournalModel = (Date, Time, Seq<char>, Seq<char>, Seq<Seq<char>>, Seq<char>);

impl JournalEntry {
    pub open spec fn model(&self) -> JournalModel {
        (self.date, self.time, self.title@, self.body@, strings_view(self.tags@), self.path@)
    }

    /// The entry read from the file at `path`.
    pub fn from_parsed(e: ParsedEntry, path: String) -> (r: JournalEntry)
        ensures
            r.model() == (e.date, e.time, e.title@, e.body@, strings_view(e.tags@), path@),
    {
        JournalEntry {
            date: e.date,
            time: e.time,
            title: e.title,
            body: e.body,
            tags: e.tags,
            path,
        }
    }
}

pub open spec fn journal_models(v: Seq<JournalEntry>) -> Seq<JournalModel> {
    v.map_values(|e: JournalEntry| e.model())
}

/// `e` put into `s` after every entry whose day is not later than its own,
/// and before the later ones that end `s`.
pub open spec fn insert_by_date(s: Seq<JournalModel>, e: JournalModel) -> Seq<JournalModel>
    decreases s.len(),
{
    if s.len() == 0 {
        seq![e]
    } else if s.last().0.days <= e.0.days {
        s.push(e)
    } else {
        insert_by_date(s.drop_last(), e).push(s.last())
    }
}

/// The entries in ascending order of day; entries of the same day keep their
/// order.
pub open spec fn sorted_by_date(s: Seq<JournalModel>) -> Seq<JournalModel>
    decreases s.len(),
{
    if s.len() == 0 {
        s
    } else {
        insert_by_date(sorted_by_date(s.drop_last()), s.last())
    }
}

/// The entries whose time passes the filter, in order.
pub open spec fn kept_by_time(s: Seq<JournalModel>, f: TimeFilter) -> Seq<JournalModel>
    decreases s.len(),
{
    if s.len() == 0 {
        s
    } else if time_matches(f, s.last().1) {
        kept_by_time(s.drop_last(), f).push(s.last())
    } else {
        kept_by_time(s.drop_last(), f)
    }
}

/// The tags asked for, trimmed and lower-cased.
pub open spec fn wanted_tags(tags: Seq<Seq<char>>) -> Seq<Seq<char>> {
    tags.map_values(|t: Seq<char>| lower(trim(t)))
}

/// The entry carries at least one of the tags.
pub open spec fn has_any_tag(e: JournalModel, wanted: Seq<Seq<char>>) -> bool {
    exists|i: int| 0 <= i < wanted.len() && e.4.contains(#[trigger] wanted[i])
}

/// The entries that carry at least one of the tags, in order.
pub open spec fn kept_by_tags(s: Seq<JournalModel>, wanted: Seq<Seq<char>>) -> Seq<JournalModel>
    decreases s.len(),
{
    if s.len() == 0 {
        s
    } else if has_any_tag(s.last(), wanted) {
        kept_by_tags(s.drop_last(), wanted).push(s.last())
    } else {
        kept_by_tags(s.drop_last(), wanted)
    }
}

pub proof fn lemma_insert_by_date_at(s: Seq<JournalModel>, e: JournalModel, j: int)
    requires
        0 <= j <= s.len(),
        forall|k: int| j <= k < s.len() ==> (#[trigger] s[k]).0.days > e.0.days,
        j == 0 || s[j - 1].0.days <= e.0.days,
    ensures
        insert_by_date(s, e) == s.subrange(0, j).push(e) + s.subrange(j, s.len() as int),
    decreases s.len(),
{
    if s.len() == 0 {
        assert(s.subrange(0, j).push(e) + s.subrange(j, s.len() as int) =~= seq![e]);
    } else if j == s.len() {
        assert(s.subrange(0, j) =~= s);
        assert(s.subrange(0, j).push(e) + s.subrange(j, s.len() as int) =~= s.push(e));
    } else {
        let t = s.drop_last();
        assert(s.last().0.days > e.0.days);
        assert forall|k: int| j <= k < t.len() implies (#[trigger] t[k]).0.days > e.0.days by {
            assert(t[k] == s[k]);
        }
        if j > 0 {
            assert(t[j - 1] == s[j - 1]);
        }
        lemma_insert_by_date_at(t, e, j);
        assert(t.subrange(0, j).push(e) + t.subrange(j, t.len() as int) + seq![s.last()]
            =~= s.subrange(0, j).push(e) + s.subrange(j, s.len() as int));
        assert(insert_by_date(t, e).push(s.last()) =~= insert_by_date(t, e) + seq![s.last()]);
    }
}

fn insert_journal_entry(v: &mut Vec<JournalEntry>, e: JournalEntry)
    ensures
        journal_models(final(v)@) == insert_by_date(journal_models(old(v)@), e.model()),
{
    let ghost m = journal_models(v@);
    let mut j = v.len();
    while j > 0 && v[j - 1].date.days > e.date.days
        invariant
            j <= v@.len(),
            v@ == old(v)@,
            m == journal_models(v@),
            forall|k: int| j <= k < m.len() ==> (#[trigger] m[k]).0.days > e.date.days,
        decreases j,
    {
        proof {
            assert(m[j - 1] == v@[j - 1].model());
        }
        j = j - 1;
    }
    proof {
        if j > 0 {
            assert(m[j - 1] == v@[j - 1].model());
        }
        lemma_insert_by_date_at(m, e.model(), j as int);
    }
    let ghost ev = e;
    v.insert(j, e);
    proof {
        assert(journal_models(v@) =~= m.subrange(0, j as int).push(ev.model()) + m.subrange(
            j as int,
            m.len() as int,
        ));
    }
}

/// The entries in ascending order of day, entries of the same day in the
/// order given.
pub fn sort_by_date(entries: Vec<JournalEntry>) -> (r: Vec<JournalEntry>)
    ensures
        journal_models(r@) == sorted_by_date(journal_models(entries@)),
{
    let ghost m = journal_models(entries@);
    let mut rest = entries;
    let mut out: Vec<JournalEntry> = Vec::new();
    let mut k: usize = 0;
    let n = rest.len();
    proof {
        assert(journal_models(out@) =~= sorted_by_date(m.subrange(0, 0)));
    }
    while k < n
        invariant
            k <= n,
            n == m.len(),
            rest@.len() == n - k,
            forall|i: int| 0 <= i < rest@.len() ==> (#[trigger] rest@[i]).model() == m[k + i],
            journal_models(out@) == sorted_by_date(m.subrange(0, k as int)),
        decreases n - k,
    {
        let ghost before = rest@;
        let e = rest.remove(0);
        proof {
            assert(e == before[0]);
            assert(m.subrange(0, k + 1).drop_last() =~= m.subrange(0, k as int));
            assert forall|i: int| 0 <= i < rest@.len() implies (#[trigger] rest@[i]).model() == m[k
                + 1 + i] by {
                assert(rest@[i] == before[i + 1]);
            }
        }
        insert_journal_entry(&mut out, e);
        k = k + 1;
    }
    proof {
        assert(m.subrange(0, n as int) =~= m);
    }
    out
}

/// The entries whose time of day passes the filter, in order.
pub fn filter_by_time(entries: Vec<JournalEntry>, filter: TimeFilter) -> (r: Vec<JournalEntry>)
    requires
        filter.wf(),
        forall|i: int| 0 <= i < entries@.len() ==> (#[trigger] entries@[i]).time.wf(),
    ensures
        journal_models(r@) == kept_by_time(journal_models(entries@), filter),
{
    let ghost m = journal_models(entries@);
    let mut rest = entries;
    let mut out: Vec<JournalEntry> = Vec::new();
    let mut k: usize = 0;
    let n = rest.len();
    proof {
        assert(journal_models(out@) =~= kept_by_time(m.subrange(0, 0), filter));
    }
    while k < n
        invariant
            k <= n,
            n == m.len(),
            filter.wf(),
            rest@.len() == n - k,
            forall|i: int| 0 <= i < rest@.len() ==> (#[trigger] rest@[i]).model() == m[k + i],
            forall|i: int| 0 <= i < rest@.len() ==> (#[trigger] rest@[i]).time.wf(),
            journal_models(out@) == kept_by_time(m.subrange(0, k as int), filter),
        decreases n - k,
    {
        let ghost before = rest@;
        let e = rest.remove(0);
        proof {
            assert(e == before[0]);
            assert(m.subrange(0, k + 1).drop_last() =~= m.subrange(0, k as int));
            assert(m.subrange(0, k + 1).last() == e.model());
            assert forall|i: int| 0 <= i < rest@.len() implies (#[trigger] rest@[i]).model() == m[k
                + 1 + i] by {
                assert(rest@[i] == before[i + 1]);
            }
            assert forall|i: int| 0 <= i < rest@.len() implies (#[trigger] rest@[i]).time.wf() by {
                assert(rest@[i] == before[i + 1]);
            }
        }
        if time_is_in_range(filter, e.time) {
            let ghost ob = journal_models(out@);
            out.push(e);
            proof {
                assert(journal_models(out@) =~= ob.push(e.model()));
            }
        }
        k = k + 1;
    }
    proof {
        assert(m.subrange(0, n as int) =~= m);
    }
    out
}

/// The tags asked for, trimmed and lower-cased.
fn normalize_tags(tags: &Vec<String>) -> (r: Vec<Vec<char>>)
    ensures
        r@.map_values(|v: Vec<char>| v@) == wanted_tags(strings_view(tags@)),
{
    let mut out: Vec<Vec<char>> = Vec::new();
    let mut i: usize = 0;
    while i < tags.len()
        invariant
            i <= tags@.len(),
            out@.map_values(|v: Vec<char>| v@) == wanted_tags(strings_view(tags@)).subrange(0, i as int),
        decreases tags@.len() - i,
    {
        let v = chars_of(tags[i].as_str());
        let (lo, hi) = trim_bounds(&v, 0, v.len());
        proof {
            assert(v@.subrange(0, v@.len() as int) =~= v@);
        }
        let t = lower_chars(&slice_chars(&v, lo, hi));
        let ghost ob = out@.map_values(|v: Vec<char>| v@);
        out.push(t);
        proof {
            assert(out@.map_values(|v: Vec<char>| v@) =~= ob.push(t@));
            assert(wanted_tags(strings_view(tags@)).subrange(0, i + 1) =~= wanted_tags(
                strings_view(tags@),
            ).subrange(0, i as int).push(t@));
        }
        i = i + 1;
    }
    proof {
        assert(wanted_tags(strings_view(tags@)).subrange(0, i as int) =~= wanted_tags(
            strings_view(tags@),
        ));
    }
    out
}

/// The entry carries one of the wanted tags.
fn carries_any(e: &JournalEntry, wanted: &Vec<Vec<char>>) -> (r: bool)
    ensures
        r == has_any_tag(e.model(), wanted@.map_values(|v: Vec<char>| v@)),
{
    let ghost w = wanted@.map_values(|v: Vec<char>| v@);
    let ghost et = strings_view(e.tags@);
    let mut i: usize = 0;
    while i < wanted.len()
        invariant
            i <= wanted@.len(),
            w == wanted@.map_values(|v: Vec<char>| v@),
            et == strings_view(e.tags@),
            forall|x: int| 0 <= x < i ==> !et.contains(#[trigger] w[x]),
        decreases wanted@.len() - i,
    {
        let mut j: usize = 0;
        while j < e.tags.len()
            invariant
                j <= e.tags@.len(),
                i < wanted@.len(),
                w == wanted@.map_values(|v: Vec<char>| v@),
                et == strings_view(e.tags@),
                forall|y: int| 0 <= y < j ==> et[y] != w[i as int],
            decreases e.tags@.len() - j,
        {
            let tv = chars_of(e.tags[j].as_str());
            if chars_equal(&tv, &wanted[i]) {
                proof {
                    assert(et[j as int] == w[i as int]);
                    assert(et.contains(w[i as int]));
                }
                return true;
            }
            j = j + 1;
        }
        proof {
            assert(!et.contains(w[i as int])) by {
                if et.contains(w[i as int]) {
                    let y = choose|y: int| 0 <= y < et.len() && et[y] == w[i as int];
                    assert(et[y] != w[i as int]);
                }
            }
        }
        i = i + 1;
    }
    false
}

/// The entries that carry at least one of the tags (compared trimmed and
/// lower-cased), in order.
pub fn filter_by_tags(entries: Vec<JournalEntry>, tags: &Vec<String>) -> (r: Vec<JournalEntry>)
    ensures
        journal_models(r@) == kept_by_tags(journal_models(entries@), wanted_tags(strings_view(tags@))),
{
    let wanted = normalize_tags(tags);
    let ghost w = wanted_tags(strings_view(tags@));
    let ghost m = journal_models(entries@);
    let mut rest = entries;
    let mut out: Vec<JournalEntry> = Vec::new();
    let mut k: usize = 0;
    let n = rest.len();
    proof {
        assert(journal_models(out@) =~= kept_by_tags(m.subrange(0, 0), w));
    }
    while k < n
        invariant
            k <= n,
            n == m.len(),
            w == wanted@.map_values(|v: Vec<char>| v@),
            rest@.len() == n - k,
            forall|i: int| 0 <= i < rest@.len() ==> (#[trigger] rest@[i]).model() == m[k + i],
            journal_models(out@) == kept_by_tags(m.subrange(0, k as int), w),
        decreases n - k,
    {
        let ghost before = rest@;
        let e = rest.remove(0);
        proof {
            assert(e == before[0]);
            assert(m.subrange(0, k + 1).drop_last() =~= m.subrange(0, k as int));
            assert(m.subrange(0, k + 1).last() == e.model());
            assert forall|i: int| 0 <= i < rest@.len() implies (#[trigger] rest@[i]).model() == m[k
                + 1 + i] by {
                assert(rest@[i] == before[i + 1]);
            }
        }
        if carries_any(&e, &wanted) {
            let ghost ob = journal_models(out@);
            out.push(e);
            proof {
                assert(journal_models(out@) =~= ob.push(e.model()));
            }
        }
        k = k + 1;
    }
    proof {
        assert(m.subrange(0, n as int) =~= m);
    }
    out
}

/// The days from `start` to `end`, both included; none when `start` comes
/// after `end`.
pub fn get_dates_in_range(start: Date, end: Date) -> (r: Vec<Date>)
    requires
        start.wf(),
        end.wf(),
    ensures
        r@.len() == if start.days <= end.days {
            end.days - start.days + 1
        } else {
            0
        },
        forall|i: int| 0 <= i < r@.len() ==> (#[trigger] r@[i]).days == start.days + i,
{
    let mut out: Vec<Date> = Vec::new();
    if start.days > end.days {
        return out;
    }
    let mut current = start;
    loop
        invariant
            start.days <= current.days <= end.days,
            end.wf(),
            out@.len() == current.days - start.days,
            forall|i: int| 0 <= i < out@.len() ==> (#[trigger] out@[i]).days == start.days + i,
        decreases end.days - current.days,
    {
        out.push(current);
        if current.days == end.days {
            return out;
        }
        current = Date { days: current.days + 1 };
    }
}

/// The first and last day a date filter asks to read; `None` for a range
/// whose start comes after its end.
pub fn days_to_read(filter: DateFilter) -> (r: Option<(Date, Date)>)
    ensures
        r == match filter {
            DateFilter::Single(d) => Some((d, d)),
            DateFilter::Range(a, b) => if a.days <= b.days {
                Some((a, b))
            } else {
                None
            },
        },
{
    match filter {
        DateFilter::Single(d) => Some((d, d)),
        DateFilter::Range(a, b) => if a.days <= b.days {
            Some((a, b))
        } else {
            None
        },
    }
}

/// The next day to visit when walking days in order: the first day of the
/// next year when the current year has no directory, the first day of the
/// next month when the current month has none, the next day otherwise.
pub open spec fn next_visit(current: Date, year_exists: bool, month_exists: bool) -> Option<Date> {
    let (y, m, _d) = civil_of(current.days as int);
    if !year_exists {
        civil_day(y + 1, 1, 1)
    } else if !month_exists {
        if m == 12 {
            civil_day(y + 1, 1, 1)
        } else {
            civil_day(y, m + 1, 1)
        }
    } else {
        day(current.days + 1)
    }
}

/// The next day to visit when walking days in order (see [`next_visit`]).
pub fn next_day_to_visit(current: Date, year_exists: bool, month_exists: bool) -> (r: Option<Date>)
    requires
        current.wf(),
    ensures
        r == next_visit(current, year_exists, month_exists),
{
    let (y, m, _d) = current.ymd();
    if !year_exists {
        Date::from_ymd(y + 1, 1, 1)
    } else if !month_exists {
        if m == 12 {
            Date::from_ymd(y + 1, 1, 1)
        } else {
            Date::from_ymd(y, m + 1, 1)
        }
    } else {
        current.add_days(1)
    }
}

} // verus!
