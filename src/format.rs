//! Writing day files: the header, entry blocks, and the whole file with a
//! new entry put in time order.
use vstd::prelude::*;
use crate::calendar::{formatted_date, format_hm, hm_text, seconds_of, Date, Time};
use crate::calendar::parsed_date;
use crate::day_file::{
    ParseResult,
    after_first_line, block_delimiter, block_entries, block_errors, block_result, blocks_of,
    day_file_result, entry_models, first_line, header_date, heading_of, heading_separator, hm_of,
    split_on, EntryModel, ErrorModel, ParsedEntry,
};
use crate::resolve::{index_of, index_of_from};
use crate::text::{
    all_ws, chars_of, find_spec, is_ws, lemma_trim_end_skip, lemma_trim_start_skip, occurs_at,
    string_of, trim, trim_bounds, trim_end, trim_start,
};

verus! {

/// `s` without the line feeds at its end.
pub open spec fn trim_trailing_newlines(s: Seq<char>) -> Seq<char>
    decreases s.len(),
{
    if s.len() > 0 && s.last() == '\n' {
        trim_trailing_newlines(s.drop_last())
    } else {
        s
    }
}

/// The block an entry is written as: `## HH:MM - Title`, a blank line, and
/// the body (without its trailing line feeds) followed by a blank line when
/// the body is not blank.
pub open spec fn entry_block(t: Time, title: Seq<char>, body: Seq<char>) -> Seq<char> {
    let head = seq!['#', '#', ' '] + hm_text(t) + seq![' ', '-', ' '] + title + seq!['\n', '\n'];
    if trim(body).len() == 0 {
        head
    } else {
        head + trim_trailing_newlines(body) + seq!['\n', '\n']
    }
}

/// The header of a day file: `# `, the date under the format, a blank line.
pub open spec fn day_header(d: Date, fmt: Seq<char>) -> Option<Seq<char>> {
    match formatted_date(d.days as int, fmt) {
        Some(s) => Some(seq!['#', ' '] + s + seq!['\n', '\n']),
        None => None,
    }
}

/// `e` put into `s` after every entry whose time is not later than its own,
/// and before the later ones that end `s`.
pub open spec fn insert_by_time(s: Seq<EntryModel>, e: EntryModel) -> Seq<EntryModel>
    decreases s.len(),
{
    if s.len() == 0 {
        seq![e]
    } else if seconds_of(s.last().1) <= seconds_of(e.1) {
        s.push(e)
    } else {
        insert_by_time(s.drop_last(), e).push(s.last())
    }
}

/// The entries in ascending order of time; entries with equal times keep
/// their order.
pub open spec fn sorted_by_time(s: Seq<EntryModel>) -> Seq<EntryModel>
    decreases s.len(),
{
    if s.len() == 0 {
        s
    } else {
        insert_by_time(sorted_by_time(s.drop_last()), s.last())
    }
}

/// The blocks of the entries, one after the other.
pub open spec fn blocks_text(s: Seq<EntryModel>) -> Seq<char>
    decreases s.len(),
{
    if s.len() == 0 {
        Seq::empty()
    } else {
        blocks_text(s.drop_last()) + entry_block(s.last().1, s.last().2, s.last().3)
    }
}

pub fn push_all(out: &mut Vec<char>, s: &Vec<char>)
    ensures
        final(out)@ == old(out)@ + s@,
{
    let mut i: usize = 0;
    while i < s.len()
        invariant
            i <= s@.len(),
            out@ == old(out)@ + s@.subrange(0, i as int),
        decreases s@.len() - i,
    {
        out.push(s[i]);
        i = i + 1;
        proof {
            assert(out@ =~= old(out)@ + s@.subrange(0, i as int));
        }
    }
    proof {
        assert(s@.subrange(0, i as int) =~= s@);
    }
}

/// The end of `v[..hi]` once its trailing line feeds are left out.
pub fn trailing_newlines_end(v: &Vec<char>) -> (r: usize)
    ensures
        r <= v@.len(),
        v@.subrange(0, r as int) == trim_trailing_newlines(v@),
{
    let mut e = v.len();
    proof {
        assert(v@.subrange(0, e as int) =~= v@);
    }
    while e > 0 && v[e - 1] == '\n'
        invariant
            e <= v@.len(),
            trim_trailing_newlines(v@) == trim_trailing_newlines(v@.subrange(0, e as int)),
        decreases e,
    {
        proof {
            assert(v@.subrange(0, e as int).drop_last() =~= v@.subrange(0, e - 1));
        }
        e = e - 1;
    }
    e
}

/// Writes an entry block: `## HH:MM - Title`, a blank line, then the body and
/// a blank line when the body is not blank.
pub fn format_journal_entry_block(title: &str, body: &str, time: &Time) -> (r: String)
    requires
        time.wf(),
    ensures
        r@ == entry_block(*time, title@, body@),
{
    let mut out: Vec<char> = vec!['#', '#', ' '];
    let hm = format_hm(*time);
    push_all(&mut out, &hm);
    out.push(' ');
    out.push('-');
    out.push(' ');
    let tv = chars_of(title);
    push_all(&mut out, &tv);
    out.push('\n');
    out.push('\n');
    let bv = chars_of(body);
    let (lo, hi) = trim_bounds(&bv, 0, bv.len());
    proof {
        assert(bv@.subrange(0, bv@.len() as int) =~= bv@);
    }
    if lo < hi {
        let e = trailing_newlines_end(&bv);
        let mut k: usize = 0;
        let ghost base = out@;
        while k < e
            invariant
                k <= e <= bv@.len(),
                out@ == base + bv@.subrange(0, k as int),
            decreases e - k,
        {
            out.push(bv[k]);
            k = k + 1;
            proof {
                assert(out@ =~= base + bv@.subrange(0, k as int));
            }
        }
        out.push('\n');
        out.push('\n');
    }
    proof {
        assert(out@ =~= entry_block(*time, title@, body@));
    }
    string_of(out.as_slice())
}

/// Writes the header of a day file: `# `, the date under the `chrono` format,
/// and a blank line; `None` where `chrono` cannot apply the format.
pub fn format_day_header(date_format: &str, date: Date) -> (r: Option<String>)
    requires
        date.wf(),
    ensures
        match (r, day_header(date, date_format@)) {
            (Some(s), Some(t)) => s@ == t,
            (None, None) => true,
            _ => false,
        },
{
    match date.format_with(date_format) {
        Some(f) => {
            let mut out: Vec<char> = vec!['#', ' '];
            let fv = chars_of(f.as_str());
            push_all(&mut out, &fv);
            out.push('\n');
            out.push('\n');
            proof {
                assert(out@ =~= seq!['#', ' '] + f@ + seq!['\n', '\n']);
            }
            Some(string_of(out.as_slice()))
        },
        None => None,
    }
}

/// How a day file takes a new entry.
pub enum DayFileWrite {
    /// The file does not exist yet: write this, header and block.
    Create(String),
    /// The file does not read cleanly: append this block to it as it is.
    Append(String),
    /// The file reads cleanly: overwrite it with this, entries in time order.
    Rewrite(String),
}

/// What to write to a day file for a new entry: a new file when there is
/// none; the new block appended when the existing file has problems (its
/// content is kept, though the time order may be lost); otherwise the whole
/// file rewritten from the header with every entry in time order.
pub fn plan_day_file_write(header: &str, existing: Option<ParseResult>, new_entry: ParsedEntry) -> (r:
    DayFileWrite)
    requires
        new_entry.time.wf(),
        existing is Some ==> forall|i: int|
            0 <= i < existing->Some_0.entries@.len() ==> (
            #[trigger] existing->Some_0.entries@[i]).time.wf(),
    ensures
        match existing {
            None => r is Create && r->Create_0@ == header@ + entry_block(
                new_entry.time,
                new_entry.title@,
                new_entry.body@,
            ),
            Some(p) => if p.errors@.len() > 0 {
                r is Append && r->Append_0@ == entry_block(
                    new_entry.time,
                    new_entry.title@,
                    new_entry.body@,
                )
            } else {
                r is Rewrite && r->Rewrite_0@ == header@ + blocks_text(
                    sorted_by_time(entry_models(p.entries@).push(new_entry.model())),
                )
            },
        },
{
    match existing {
        None => {
            let block = format_journal_entry_block(
                new_entry.title.as_str(),
                new_entry.body.as_str(),
                &new_entry.time,
            );
            let mut out = chars_of(header);
            push_all(&mut out, &chars_of(block.as_str()));
            DayFileWrite::Create(string_of(out.as_slice()))
        },
        Some(p) => if p.errors.len() > 0 {
            DayFileWrite::Append(
                format_journal_entry_block(
                    new_entry.title.as_str(),
                    new_entry.body.as_str(),
                    &new_entry.time,
                ),
            )
        } else {
            DayFileWrite::Rewrite(day_file_with_entry(header, p.entries, new_entry))
        },
    }
}

/// `insert_by_time` puts `e` at `j` when the entries from `j` on are all
/// later than `e` and the one before `j`, if any, is not.
pub proof fn lemma_insert_at(s: Seq<EntryModel>, e: EntryModel, j: int)
    requires
        0 <= j <= s.len(),
        forall|k: int| j <= k < s.len() ==> seconds_of(#[trigger] s[k].1) > seconds_of(e.1),
        j == 0 || seconds_of(s[j - 1].1) <= seconds_of(e.1),
    ensures
        insert_by_time(s, e) == s.subrange(0, j).push(e) + s.subrange(j, s.len() as int),
    decreases s.len(),
{
    if s.len() == 0 {
        assert(s.subrange(0, j).push(e) + s.subrange(j, s.len() as int) =~= seq![e]);
    } else if j == s.len() {
        assert(s.subrange(0, j) =~= s);
        assert(s.subrange(0, j).push(e) + s.subrange(j, s.len() as int) =~= s.push(e));
    } else {
        let t = s.drop_last();
        assert(seconds_of(s.last().1) > seconds_of(e.1));
        assert forall|k: int| j <= k < t.len() implies seconds_of(#[trigger] t[k].1) > seconds_of(e.1) by {
            assert(t[k] == s[k]);
        }
        if j > 0 {
            assert(t[j - 1] == s[j - 1]);
        }
        lemma_insert_at(t, e, j);
        assert(t.subrange(0, j).push(e) + t.subrange(j, t.len() as int) + seq![s.last()] =~= s.subrange(0, j).push(e) + s.subrange(j, s.len() as int));
        assert(insert_by_time(t, e).push(s.last()) =~= insert_by_time(t, e) + seq![s.last()]);
    }
}

/// Puts `e` into `v`, after every entry whose time is not later than its own
/// and before the later ones that end `v`.
fn insert_entry(v: &mut Vec<ParsedEntry>, e: ParsedEntry)
    requires
        e.time.wf(),
        forall|i: int| 0 <= i < old(v)@.len() ==> (#[trigger] old(v)@[i]).time.wf(),
    ensures
        entry_models(final(v)@) == insert_by_time(entry_models(old(v)@), e.model()),
        forall|i: int| 0 <= i < final(v)@.len() ==> (#[trigger] final(v)@[i]).time.wf(),
{
    let ghost m = entry_models(v@);
    let es = e.time.seconds();
    let mut j = v.len();
    while j > 0 && v[j - 1].time.seconds() > es
        invariant
            j <= v@.len(),
            v@ == old(v)@,
            es as int == seconds_of(e.time),
            m == entry_models(v@),
            forall|i: int| 0 <= i < v@.len() ==> (#[trigger] v@[i]).time.wf(),
            forall|k: int| j <= k < m.len() ==> seconds_of(#[trigger] m[k].1) > seconds_of(e.time),
        decreases j,
    {
        proof {
            assert(m[j - 1] == v@[j - 1].model());
            assert(seconds_of(m[j - 1].1) > seconds_of(e.time));
        }
        j = j - 1;
    }
    proof {
        if j > 0 {
            assert(m[j - 1] == v@[j - 1].model());
        }
        assert forall|k: int| j <= k < m.len() implies seconds_of(#[trigger] m[k].1) > seconds_of(
            e.model().1,
        ) by {}
        lemma_insert_at(m, e.model(), j as int);
    }
    let ghost ev = e;
    v.insert(j, e);
    proof {
        assert(entry_models(v@) =~= m.subrange(0, j as int).push(ev.model()) + m.subrange(
            j as int,
            m.len() as int,
        ));
        assert forall|i: int| 0 <= i < v@.len() implies (#[trigger] v@[i]).time.wf() by {
            if i < j {
                assert(v@[i] == old(v)@[i]);
            } else if i > j {
                assert(v@[i] == old(v)@[i - 1]);
            }
        }
    }
}

/// The entries in ascending order of time, entries with equal times in the
/// order given.
pub fn sort_by_time(entries: Vec<ParsedEntry>) -> (r: Vec<ParsedEntry>)
    requires
        forall|i: int| 0 <= i < entries@.len() ==> (#[trigger] entries@[i]).time.wf(),
    ensures
        entry_models(r@) == sorted_by_time(entry_models(entries@)),
        forall|i: int| 0 <= i < r@.len() ==> (#[trigger] r@[i]).time.wf(),
{
    let ghost m = entry_models(entries@);
    let mut rest = entries;
    let mut out: Vec<ParsedEntry> = Vec::new();
    let mut k: usize = 0;
    let n = rest.len();
    proof {
        assert(entry_models(out@) =~= sorted_by_time(m.subrange(0, 0)));
    }
    while k < n
        invariant
            k <= n,
            n == m.len(),
            rest@.len() == n - k,
            forall|i: int| 0 <= i < rest@.len() ==> (#[trigger] rest@[i]).model() == m[k + i],
            forall|i: int| 0 <= i < rest@.len() ==> (#[trigger] rest@[i]).time.wf(),
            forall|i: int| 0 <= i < out@.len() ==> (#[trigger] out@[i]).time.wf(),
            entry_models(out@) == sorted_by_time(m.subrange(0, k as int)),
        decreases n - k,
    {
        let ghost before = rest@;
        let e = rest.remove(0);
        proof {
            assert(e == before[0]);
            assert(e.model() == m[k as int]);
            assert(m.subrange(0, k + 1).drop_last() =~= m.subrange(0, k as int));
            assert forall|i: int| 0 <= i < rest@.len() implies (#[trigger] rest@[i]).model() == m[k + 1 + i] by {
                assert(rest@[i] == before[i + 1]);
            }
            assert forall|i: int| 0 <= i < rest@.len() implies (#[trigger] rest@[i]).time.wf() by {
                assert(rest@[i] == before[i + 1]);
            }
        }
        insert_entry(&mut out, e);
        k = k + 1;
    }
    proof {
        assert(m.subrange(0, n as int) =~= m);
    }
    out
}

/// A day file made of `header` and the blocks of `entries` together with
/// `new_entry`, all in ascending order of time (equal times keep their
/// order, the new entry last among them).
pub fn day_file_with_entry(header: &str, entries: Vec<ParsedEntry>, new_entry: ParsedEntry) -> (r:
    String)
    requires
        new_entry.time.wf(),
        forall|i: int| 0 <= i < entries@.len() ==> (#[trigger] entries@[i]).time.wf(),
    ensures
        r@ == header@ + blocks_text(
            sorted_by_time(entry_models(entries@).push(new_entry.model())),
        ),
{
    let mut all = entries;
    let ghost m0 = entry_models(all@);
    let ghost nm = new_entry.model();
    all.push(new_entry);
    proof {
        assert(entry_models(all@) =~= m0.push(nm));
        assert forall|i: int| 0 <= i < all@.len() implies (#[trigger] all@[i]).time.wf() by {
            if i < m0.len() {
                assert(all@[i] == entries@[i]);
            }
        }
    }
    let sorted = sort_by_time(all);
    let ghost sm = entry_models(sorted@);
    let mut out = chars_of(header);
    let mut k: usize = 0;
    while k < sorted.len()
        invariant
            k <= sorted@.len(),
            sm == entry_models(sorted@),
            forall|i: int| 0 <= i < sorted@.len() ==> (#[trigger] sorted@[i]).time.wf(),
            out@ == header@ + blocks_text(sm.subrange(0, k as int)),
        decreases sorted@.len() - k,
    {
        let e = &sorted[k];
        let block = format_journal_entry_block(e.title.as_str(), e.body.as_str(), &e.time);
        let bv = chars_of(block.as_str());
        let ghost before = out@;
        push_all(&mut out, &bv);
        proof {
            assert(sm.subrange(0, k + 1).drop_last() =~= sm.subrange(0, k as int));
            assert(sm[k as int] == e.model());
            assert(out@ =~= header@ + blocks_text(sm.subrange(0, k + 1)));
        }
        k = k + 1;
    }
    proof {
        assert(sm.subrange(0, k as int) =~= sm);
    }
    string_of(out.as_slice())
}

/// `c` first stands in `s` at `p`, looking from `i`.
pub proof fn lemma_index_of_at(s: Seq<char>, c: char, i: int, p: int)
    requires
        0 <= i <= p < s.len(),
        s[p] == c,
        forall|k: int| i <= k < p ==> s[k] != c,
    ensures
        index_of_from(s, c, i) == Some(p),
    decreases p - i,
{
    if i < p {
        lemma_index_of_at(s, c, i + 1, p);
    }
}

/// `q` first occurs in `s` at `p`, looking from `i`.
pub proof fn lemma_find_at(s: Seq<char>, q: Seq<char>, i: int, p: int)
    requires
        0 <= i <= p <= s.len(),
        occurs_at(s, q, p),
        forall|k: int| i <= k < p ==> !occurs_at(s, q, k),
    ensures
        find_spec(s, q, i) == Some(p),
    decreases p - i,
{
    if i < p {
        lemma_find_at(s, q, i + 1, p);
    }
}

/// A text that neither starts nor ends with whitespace is its own trim.
pub proof fn lemma_trim_of_trimmed(s: Seq<char>)
    requires
        s.len() > 0,
        !is_ws(s[0]),
        !is_ws(s.last()),
    ensures
        trim(s) == s,
{
}

/// A digit written for `n`, read back.
pub proof fn lemma_digit_char(n: int)
    requires
        0 <= n < 10,
    ensures
        ((('0' as int) + n) as char) as int == '0' as int + n,
        '0' <= ((('0' as int) + n) as char) <= '9',
{
}

/// Text that has nothing but a blank line before it and after it trims to
/// itself.
pub proof fn lemma_trim_padded(body: Seq<char>)
    requires
        body.len() > 0,
        !is_ws(body[0]),
        !is_ws(body.last()),
    ensures
        trim(seq!['\n', '\n'] + body + seq!['\n', '\n']) == body,
{
    let x = seq!['\n', '\n'] + body + seq!['\n', '\n'];
    assert(all_ws(x.subrange(0, 2)));
    lemma_trim_start_skip(x, 2);
    let y = x.subrange(2, x.len() as int);
    assert(y =~= body + seq!['\n', '\n']);
    assert(y[0] == body[0]);
    assert(trim_start(y) == y);
    assert(all_ws(y.subrange(body.len() as int, y.len() as int)));
    lemma_trim_end_skip(y, body.len() as int);
    assert(y.subrange(0, body.len() as int) =~= body);
    assert(trim_end(body) == body);
}

/// An entry written as a block and read back, from just after its `## `
/// delimiter, gives the same time, title and body: for a time on the minute,
/// a one-line title and a body without surrounding whitespace.
pub proof fn lemma_entry_block_round_trip(t: Time, title: Seq<char>, body: Seq<char>)
    requires
        t.wf(),
        t.second == 0,
        title == trim(title),
        forall|i: int| 0 <= i < title.len() ==> title[i] != '\n',
        body == trim(body),
    ensures
        ({
            let b = entry_block(t, title, body);
            &&& b.subrange(0, 3) == seq!['#', '#', ' ']
            &&& !all_ws(b.subrange(3, b.len() as int))
            &&& block_result(b.subrange(3, b.len() as int)) == Ok::<
                (Time, Seq<char>, Seq<char>),
                (int, Seq<char>),
            >((t, title, body))
        }),
{
    let b = entry_block(t, title, body);
    let hm = hm_text(t);
    let h = hm + seq![' ', '-', ' '] + title;
    let tail = if trim(body).len() == 0 {
        Seq::<char>::empty()
    } else {
        trim_trailing_newlines(body) + seq!['\n', '\n']
    };
    let blk = b.subrange(3, b.len() as int);
    assert(blk =~= h + seq!['\n', '\n'] + tail);
    lemma_digit_char(t.hour as int / 10);
    lemma_digit_char(t.hour as int % 10);
    lemma_digit_char(t.minute as int / 10);
    lemma_digit_char(t.minute as int % 10);
    assert(hm.len() == 5);
    assert(forall|k: int| 0 <= k < 5 ==> hm[k] != '\n' && hm[k] != ' ' && !is_ws(#[trigger] hm[k]));
    // The heading is the first line.
    assert forall|k: int| 0 <= k < h.len() implies blk[k] != '\n' by {
        if k < 5 {
            assert(blk[k] == hm[k]);
        } else if k < 8 {
        } else {
            assert(blk[k] == title[k - 8]);
        }
    }
    assert(blk[h.len() as int] == '\n');
    lemma_index_of_at(blk, '\n', 0, h.len() as int);
    assert(heading_of(blk) =~= h);
    // The separator first occurs right after the time.
    let sep = heading_separator();
    assert(occurs_at(h, sep, 5)) by {
        assert(h.subrange(5, 8) =~= sep);
    }
    assert forall|k: int| 0 <= k < 5 implies !occurs_at(h, sep, k) by {
        assert(h[k] == hm[k]);
        if occurs_at(h, sep, k) {
            assert(h.subrange(k, k + 3)[0] == h[k]);
        }
    }
    lemma_find_at(h, sep, 0, 5);
    assert(h.subrange(0, 5) =~= hm);
    lemma_trim_of_trimmed(hm);
    assert(hm_of(hm) == Some(t));
    assert(h.subrange(8, h.len() as int) =~= title);
    // The body is what follows the heading, trimmed.
    assert(index_of(blk, '\n') == Some(h.len() as int));
    let rest = blk.subrange(h.len() as int, blk.len() as int);
    assert(rest =~= seq!['\n', '\n'] + tail);
    if trim(body).len() == 0 {
        assert(body.len() == 0);
        assert(all_ws(rest));
        lemma_trim_start_skip(rest, 2);
        assert(rest.subrange(2, 2) =~= Seq::<char>::empty());
        assert(trim(rest) =~= body);
    } else {
        assert(body.len() > 0);
        lemma_trimmed_ends(body);
        assert(trim_trailing_newlines(body) == body);
        assert(rest =~= seq!['\n', '\n'] + body + seq!['\n', '\n']);
        lemma_trim_padded(body);
    }
    assert(!all_ws(blk)) by {
        assert(blk[0] == hm[0]);
    }
}

/// Trimming never lengthens a text.
pub proof fn lemma_trim_start_len(s: Seq<char>)
    ensures
        trim_start(s).len() <= s.len(),
    decreases s.len(),
{
    if s.len() > 0 && is_ws(s[0]) {
        lemma_trim_start_len(s.drop_first());
    }
}

pub proof fn lemma_trim_end_len(s: Seq<char>)
    ensures
        trim_end(s).len() <= s.len(),
    decreases s.len(),
{
    if s.len() > 0 && is_ws(s.last()) {
        lemma_trim_end_len(s.drop_last());
    }
}

/// A text that ends in whitespace is longer than its trim.
pub proof fn lemma_trim_shorter_at_end(s: Seq<char>)
    requires
        s.len() > 0,
        is_ws(s.last()),
    ensures
        trim(s) != s,
{
    lemma_trim_end_start_last(s);
}

/// Trimming the start of a text that ends in whitespace leaves a text that
/// is empty or ends in that same whitespace, which the end trim removes.
pub proof fn lemma_trim_end_start_last(s: Seq<char>)
    requires
        s.len() > 0,
        is_ws(s.last()),
    ensures
        trim(s).len() < s.len(),
    decreases s.len(),
{
    let u = trim_start(s);
    lemma_trim_start_len(s);
    if u.len() == s.len() {
        assert(u == s) by {
            lemma_trim_start_same_len(s);
        }
        lemma_trim_end_len(s.drop_last());
    } else {
        lemma_trim_end_len(u);
    }
}

/// A start trim that keeps the length keeps the text.
pub proof fn lemma_trim_start_same_len(s: Seq<char>)
    requires
        trim_start(s).len() == s.len(),
    ensures
        trim_start(s) == s,
    decreases s.len(),
{
    if s.len() > 0 && is_ws(s[0]) {
        lemma_trim_start_len(s.drop_first());
    }
}

/// A non-empty text that is its own trim neither starts nor ends with
/// whitespace.
pub proof fn lemma_trimmed_ends(s: Seq<char>)
    requires
        s.len() > 0,
        s == trim(s),
    ensures
        !is_ws(s[0]),
        !is_ws(s.last()),
{
    if is_ws(s[0]) {
        assert(trim_start(s) == trim_start(s.drop_first()));
        lemma_trim_start_len(s.drop_first());
        lemma_trim_end_len(trim_start(s));
    }
    if is_ws(s.last()) {
        lemma_trim_shorter_at_end(s);
    }
}

/// `q` occurs nowhere in `s` from `i` on.
pub proof fn lemma_find_none(s: Seq<char>, q: Seq<char>, i: int)
    requires
        0 <= i,
        forall|k: int| i <= k <= s.len() ==> !occurs_at(s, q, k),
    ensures
        find_spec(s, q, i) is None,
    decreases s.len() + 1 - i,
{
    if i <= s.len() {
        lemma_find_none(s, q, i + 1);
    }
}

/// The block delimiter occurs nowhere in a written entry block after its
/// leading `## `, when it occurs nowhere in a line feed followed by the body.
pub proof fn lemma_block_has_no_delimiter(t: Time, title: Seq<char>, body: Seq<char>)
    requires
        t.wf(),
        title == trim(title),
        forall|i: int| 0 <= i < title.len() ==> title[i] != '\n',
        body == trim(body),
        forall|k: int| !occurs_at(seq!['\n'] + body, block_delimiter(), k),
    ensures
        ({
            let b = entry_block(t, title, body);
            forall|k: int| !occurs_at(b.subrange(3, b.len() as int), block_delimiter(), k)
        }),
{
    let b = entry_block(t, title, body);
    let blk = b.subrange(3, b.len() as int);
    let hm = hm_text(t);
    let h = hm + seq![' ', '-', ' '] + title;
    let dl = block_delimiter();
    lemma_digit_char(t.hour as int / 10);
    lemma_digit_char(t.hour as int % 10);
    lemma_digit_char(t.minute as int / 10);
    lemma_digit_char(t.minute as int % 10);
    let w = seq!['\n'] + body;
    if trim(body).len() == 0 {
        assert(body.len() == 0);
        assert(blk =~= h + seq!['\n', '\n']);
    } else {
        lemma_trimmed_ends(body);
        assert(trim_trailing_newlines(body) == body);
        assert(blk =~= h + seq!['\n'] + w + seq!['\n', '\n']);
    }
    assert forall|k: int| !occurs_at(blk, dl, k) by {
        if occurs_at(blk, dl, k) {
            let m = blk.subrange(k, k + 4);
            assert(m[0] == blk[k] && m[1] == blk[k + 1] && m[2] == blk[k + 2] && m[3] == blk[k + 3]);
            assert(blk[k] == '\n' && blk[k + 1] == '#' && blk[k + 3] == ' ');
            if k < h.len() {
                if k < 5 {
                    assert(blk[k] == hm[k]);
                } else if k >= 8 {
                    assert(blk[k] == title[k - 8]);
                }
            } else if k == h.len() {
                assert(blk[k + 1] == '\n');
            } else if trim(body).len() == 0 {
                assert(k + 4 > blk.len());
            } else {
                let j = k - h.len() - 1;
                if j + 4 <= w.len() {
                    assert(w.subrange(j, j + 4) =~= m) by {
                        assert forall|x: int| 0 <= x < 4 implies w.subrange(j, j + 4)[x] == m[x] by {
                            assert(w[j + x] == blk[k + x]);
                        }
                    }
                    assert(occurs_at(w, dl, j));
                } else {
                    assert(blk[k + 3] == '\n');
                }
            }
        }
    }
}

/// A day file made of the header of day `d` and one entry block reads back
/// as that one entry of day `d`, with no error: for a header format that
/// reads back the day it wrote on one line without surrounding whitespace, a
/// time on the minute, a one-line title, and a body without surrounding
/// whitespace in which no line starts with `## `.
pub proof fn lemma_day_file_round_trip(
    d: Date,
    fmt: Seq<char>,
    t: Time,
    title: Seq<char>,
    body: Seq<char>,
)
    requires
        d.wf(),
        formatted_date(d.days as int, fmt) is Some,
        formatted_date(d.days as int, fmt)->Some_0.len() > 0,
        formatted_date(d.days as int, fmt)->Some_0 == trim(formatted_date(d.days as int, fmt)->Some_0),
        forall|i: int|
            0 <= i < formatted_date(d.days as int, fmt)->Some_0.len() ==> formatted_date(
                d.days as int,
                fmt,
            )->Some_0[i] != '\n',
        parsed_date(formatted_date(d.days as int, fmt)->Some_0, fmt) == Some(d.days as int),
        t.wf(),
        t.second == 0,
        title == trim(title),
        forall|i: int| 0 <= i < title.len() ==> title[i] != '\n',
        body == trim(body),
        forall|k: int| !occurs_at(seq!['\n'] + body, block_delimiter(), k),
    ensures
        day_file_result(day_header(d, fmt)->Some_0 + entry_block(t, title, body), fmt) == (
            seq![(d, t, title, body)],
            Seq::<ErrorModel>::empty(),
        ),
{
    let f = formatted_date(d.days as int, fmt)->Some_0;
    let b = entry_block(t, title, body);
    let c = day_header(d, fmt)->Some_0 + b;
    let blk = b.subrange(3, b.len() as int);
    lemma_entry_block_round_trip(t, title, body);
    lemma_block_has_no_delimiter(t, title, body);
    assert(c =~= seq!['#', ' '] + f + seq!['\n', '\n'] + b);
    // The first line is the header.
    assert forall|k: int| 0 <= k < f.len() + 2 implies c[k] != '\n' by {
        if k >= 2 {
            assert(c[k] == f[k - 2]);
        }
    }
    assert(c[f.len() + 2int] == '\n');
    lemma_index_of_at(c, '\n', 0, f.len() + 2int);
    let line = seq!['#', ' '] + f;
    assert(first_line(c) =~= line);
    lemma_trimmed_ends(f);
    assert(line.last() == f.last());
    lemma_trim_of_trimmed(line);
    assert(line.subrange(2, line.len() as int) =~= f);
    assert(header_date(line, fmt) == Some(d));
    // The rest is a delimiter and the block.
    let rest = after_first_line(c);
    assert(rest =~= seq!['\n'] + b);
    let dl = block_delimiter();
    assert(b.subrange(0, 3) == seq!['#', '#', ' ']);
    assert(occurs_at(rest, dl, 0)) by {
        assert(rest.subrange(0, 4) =~= dl) by {
            assert(rest[1] == b[0] && rest[2] == b[1] && rest[3] == b[2]);
            assert(b[0] == b.subrange(0, 3)[0] && b[1] == b.subrange(0, 3)[1] && b[2] == b.subrange(0, 3)[2]);
        }
    }
    lemma_find_at(rest, dl, 0, 0);
    assert(rest.subrange(4, rest.len() as int) =~= blk);
    lemma_find_none(blk, dl, 0);
    assert(split_on(blk, dl) == seq![blk]);
    assert(split_on(rest, dl) == seq![rest.subrange(0, 0)] + split_on(blk, dl));
    let empty = Seq::<char>::empty();
    assert(rest.subrange(0, 0) =~= empty);
    assert(split_on(rest, dl) =~= seq![empty, blk]);
    assert(blocks_of(rest) =~= seq![empty, blk]);
    // The empty piece is skipped and the block gives the entry.
    let blocks = seq![empty, blk];
    assert(blocks.drop_last() =~= seq![empty]);
    assert(seq![empty].drop_last() =~= Seq::<Seq<char>>::empty());
    assert(all_ws(empty));
    assert(seq![empty].last() == empty);
    assert(blocks.last() == blk);
    assert(block_entries(Seq::<Seq<char>>::empty(), d) == Seq::<EntryModel>::empty());
    assert(block_errors(Seq::<Seq<char>>::empty()) == Seq::<ErrorModel>::empty());
    assert(block_entries(seq![empty], d) == Seq::<EntryModel>::empty());
    assert(block_errors(seq![empty]) == Seq::<ErrorModel>::empty());
    assert(block_entries(blocks, d) =~= seq![(d, t, title, body)]);
    assert(block_errors(blocks) =~= Seq::<ErrorModel>::empty());
}

/// The entries are in ascending order of time.
pub open spec fn ascending_by_time(s: Seq<EntryModel>) -> bool {
    forall|i: int, j: int|
        0 <= i < j < s.len() ==> seconds_of(#[trigger] s[i].1) <= seconds_of(#[trigger] s[j].1)
}

/// Inserting into an ascending sequence keeps it ascending, makes it one
/// longer, and brings in no entry but the inserted one.
pub proof fn lemma_insert_keeps_ascending(s: Seq<EntryModel>, e: EntryModel)
    requires
        ascending_by_time(s),
    ensures
        ascending_by_time(insert_by_time(s, e)),
        insert_by_time(s, e).len() == s.len() + 1,
        forall|k: int|
            0 <= k < insert_by_time(s, e).len() ==> #[trigger] insert_by_time(s, e)[k] == e
                || s.contains(insert_by_time(s, e)[k]),
    decreases s.len(),
{
    if s.len() > 0 && seconds_of(s.last().1) > seconds_of(e.1) {
        let t = s.drop_last();
        assert(ascending_by_time(t)) by {
            assert forall|i: int, j: int| 0 <= i < j < t.len() implies seconds_of(
                #[trigger] t[i].1,
            ) <= seconds_of(#[trigger] t[j].1) by {
                assert(t[i] == s[i] && t[j] == s[j]);
            }
        }
        lemma_insert_keeps_ascending(t, e);
        let u = insert_by_time(t, e);
        let r = u.push(s.last());
        assert forall|k: int| 0 <= k < u.len() implies seconds_of(#[trigger] u[k].1) <= seconds_of(
            s.last().1,
        ) by {
            if u[k] != e {
                let x = choose|x: int| 0 <= x < t.len() && t[x] == u[k];
                assert(s[x] == t[x]);
                assert(seconds_of(s[x].1) <= seconds_of(s[s.len() - 1].1));
            }
        }
        assert(ascending_by_time(r)) by {
            assert forall|i: int, j: int| 0 <= i < j < r.len() implies seconds_of(
                #[trigger] r[i].1,
            ) <= seconds_of(#[trigger] r[j].1) by {
                if j == r.len() - 1 {
                    assert(r[i] == u[i]);
                } else {
                    assert(r[i] == u[i] && r[j] == u[j]);
                }
            }
        }
        assert forall|k: int| 0 <= k < r.len() implies #[trigger] r[k] == e || s.contains(r[k]) by {
            if k < u.len() {
                assert(r[k] == u[k]);
                if u[k] != e {
                    let x = choose|x: int| 0 <= x < t.len() && t[x] == u[k];
                    assert(s[x] == t[x]);
                }
            } else {
                assert(r[k] == s[s.len() - 1]);
            }
        }
    } else if s.len() > 0 {
        let r = s.push(e);
        assert(ascending_by_time(r)) by {
            assert forall|i: int, j: int| 0 <= i < j < r.len() implies seconds_of(
                #[trigger] r[i].1,
            ) <= seconds_of(#[trigger] r[j].1) by {
                if j == r.len() - 1 {
                    assert(r[i] == s[i]);
                    assert(seconds_of(s[i].1) <= seconds_of(s[s.len() - 1].1));
                } else {
                    assert(r[i] == s[i] && r[j] == s[j]);
                }
            }
        }
        assert forall|k: int| 0 <= k < r.len() implies #[trigger] r[k] == e || s.contains(r[k]) by {
            if k < s.len() {
                assert(r[k] == s[k]);
            }
        }
    }
}

/// Sorting by time gives as many entries as there were, in ascending order
/// of time; so the blocks of a rewritten day file follow one another in
/// time order.
pub proof fn lemma_sorted_by_time_is_ascending(s: Seq<EntryModel>)
    ensures
        ascending_by_time(sorted_by_time(s)),
        sorted_by_time(s).len() == s.len(),
    decreases s.len(),
{
    if s.len() > 0 {
        lemma_sorted_by_time_is_ascending(s.drop_last());
        lemma_insert_keeps_ascending(sorted_by_time(s.drop_last()), s.last());
    }
}

} // verus!
