//! Todo lists as a whole: ordering by due moment, filtering, and writing the
//! file back with a new todo.
use vstd::prelude::*;
use crate::calendar::{seconds_of, Date, Time};
use crate::filters::{date_is_in_range, date_matches, DateFilter};
use crate::format::push_all;
use crate::keywords::chars_equal;
use crate::day_file::tag_source;
use crate::query::wanted_tags;
use crate::tags::{strings_view, tags_of};
use crate::text::{chars_of, lower_chars, slice_chars, string_of, trim_bounds};
use crate::todos::{
    format_todo_item, moment_text, moments_wf, todo_block, todo_models, ParsedTodosEntry, TodoModel,
    TodoStatus,
};

verus! {

/// Due moments in order: an absent one first, then by day and time of day.
pub open spec fn due_le(a: Option<(Date, Time)>, b: Option<(Date, Time)>) -> bool {
    match (a, b) {
        (None, _) => true,
        (Some(_), None) => false,
        (Some((da, ta)), Some((db, tb))) => da.days < db.days || (da.days == db.days
            && seconds_of(ta) <= seconds_of(tb)),
    }
}

/// `e` put into `s` after every todo due no later than it, and before the
/// later ones that end `s`.
pub open spec fn insert_by_due(s: Seq<TodoModel>, e: TodoModel) -> Seq<TodoModel>
    decreases s.len(),
{
    if s.len() == 0 {
        seq![e]
    } else if due_le(s.last().0, e.0) {
        s.push(e)
    } else {
        insert_by_due(s.drop_last(), e).push(s.last())
    }
}

/// The todos in ascending order of due moment (absent first); todos due at
/// the same moment keep their order.
pub open spec fn sorted_by_due(s: Seq<TodoModel>) -> Seq<TodoModel>
    decreases s.len(),
{
    if s.len() == 0 {
        s
    } else {
        insert_by_due(sorted_by_due(s.drop_last()), s.last())
    }
}

/// The todos due on a day that passes the filter, in order; a todo without
/// a due moment never passes.
pub open spec fn kept_by_due(s: Seq<TodoModel>, f: DateFilter) -> Seq<TodoModel>
    decreases s.len(),
{
    if s.len() == 0 {
        s
    } else if s.last().0 is Some && date_matches(f, s.last().0->Some_0.0) {
        kept_by_due(s.drop_last(), f).push(s.last())
    } else {
        kept_by_due(s.drop_last(), f)
    }
}

/// The todos with the given status, in order.
pub open spec fn with_status(s: Seq<TodoModel>, st: TodoStatus) -> Seq<TodoModel>
    decreases s.len(),
{
    if s.len() == 0 {
        s
    } else if s.last().4 == st {
        with_status(s.drop_last(), st).push(s.last())
    } else {
        with_status(s.drop_last(), st)
    }
}

/// The blocks of the todos, one after the other; `None` when one of them
/// cannot be written under the format.
pub open spec fn todo_blocks(s: Seq<TodoModel>, fmt: Seq<char>) -> Option<Seq<char>>
    decreases s.len(),
{
    if s.len() == 0 {
        Some(Seq::empty())
    } else {
        match (
            todo_blocks(s.drop_last(), fmt),
            moment_text(s.last().0, fmt),
            moment_text(s.last().1, fmt),
        ) {
            (Some(prev), Some(due), Some(done)) => Some(
                prev + todo_block(s.last().2, s.last().3, due, done, s.last().4),
            ),
            _ => None,
        }
    }
}

/// The header of a todo file and of its pending section.
pub open spec fn todo_file_head() -> Seq<char> {
    "# Todos\n## Pending\n"@
}

/// The heading of the done section.
pub open spec fn done_heading() -> Seq<char> {
    "## Done\n"@
}

/// A todo file holding `s`, sorted by due moment: the pending todos under
/// their heading, then, if any, the done ones under theirs.
pub open spec fn todo_file_text(s: Seq<TodoModel>, fmt: Seq<char>) -> Option<Seq<char>> {
    let sorted = sorted_by_due(s);
    let pending = with_status(sorted, TodoStatus::Pending);
    let done = with_status(sorted, TodoStatus::Done);
    match (todo_blocks(pending, fmt), todo_blocks(done, fmt)) {
        (Some(p), Some(d)) => Some(
            todo_file_head() + p + if done.len() == 0 {
                Seq::<char>::empty()
            } else {
                done_heading() + d
            },
        ),
        _ => None,
    }
}

fn due_before_or_same(a: Option<(Date, Time)>, b: Option<(Date, Time)>) -> (r: bool)
    requires
        a is Some ==> a->Some_0.1.wf(),
        b is Some ==> b->Some_0.1.wf(),
    ensures
        r == due_le(a, b),
{
    match (a, b) {
        (None, _) => true,
        (Some(_), None) => false,
        (Some((da, ta)), Some((db, tb))) => da.days < db.days || (da.days == db.days
            && ta.seconds() <= tb.seconds()),
    }
}

pub proof fn lemma_insert_by_due_at(s: Seq<TodoModel>, e: TodoModel, j: int)
    requires
        0 <= j <= s.len(),
        forall|k: int| j <= k < s.len() ==> !due_le((#[trigger] s[k]).0, e.0),
        j == 0 || due_le(s[j - 1].0, e.0),
    ensures
        insert_by_due(s, e) == s.subrange(0, j).push(e) + s.subrange(j, s.len() as int),
    decreases s.len(),
{
    if s.len() == 0 {
        assert(s.subrange(0, j).push(e) + s.subrange(j, s.len() as int) =~= seq![e]);
    } else if j == s.len() {
        assert(s.subrange(0, j) =~= s);
        assert(s.subrange(0, j).push(e) + s.subrange(j, s.len() as int) =~= s.push(e));
    } else {
        let t = s.drop_last();
        assert(!due_le(s.last().0, e.0));
        assert forall|k: int| j <= k < t.len() implies !due_le((#[trigger] t[k]).0, e.0) by {
            assert(t[k] == s[k]);
        }
        if j > 0 {
            assert(t[j - 1] == s[j - 1]);
        }
        lemma_insert_by_due_at(t, e, j);
        assert(t.subrange(0, j).push(e) + t.subrange(j, t.len() as int) + seq![s.last()]
            =~= s.subrange(0, j).push(e) + s.subrange(j, s.len() as int));
        assert(insert_by_due(t, e).push(s.last()) =~= insert_by_due(t, e) + seq![s.last()]);
    }
}

fn insert_todo(v: &mut Vec<ParsedTodosEntry>, e: ParsedTodosEntry)
    requires
        moments_wf(e),
        forall|i: int| 0 <= i < old(v)@.len() ==> moments_wf(#[trigger] old(v)@[i]),
    ensures
        todo_models(final(v)@) == insert_by_due(todo_models(old(v)@), e.model()),
        forall|i: int| 0 <= i < final(v)@.len() ==> moments_wf(#[trigger] final(v)@[i]),
{
    let ghost m = todo_models(v@);
    let mut j = v.len();
    while j > 0 && !due_before_or_same(v[j - 1].due_date, e.due_date)
        invariant
            j <= v@.len(),
            v@ == old(v)@,
            m == todo_models(v@),
            moments_wf(e),
            forall|i: int| 0 <= i < v@.len() ==> moments_wf(#[trigger] v@[i]),
            forall|k: int| j <= k < m.len() ==> !due_le((#[trigger] m[k]).0, e.due_date),
        decreases j,
    {
        proof {
            assert(m[j - 1] == v@[j - 1].model());
        }
        j = j - 1;
    }
    proof {
        if j > 0 {
            assert(m[j - 1] == v@[j - 1].model());
        }
        lemma_insert_by_due_at(m, e.model(), j as int);
    }
    let ghost ev = e;
    v.insert(j, e);
    proof {
        assert(todo_models(v@) =~= m.subrange(0, j as int).push(ev.model()) + m.subrange(
            j as int,
            m.len() as int,
        ));
        assert forall|i: int| 0 <= i < v@.len() implies moments_wf(#[trigger] v@[i]) by {
            if i < j {
                assert(v@[i] == old(v)@[i]);
            } else if i > j {
                assert(v@[i] == old(v)@[i - 1]);
            }
        }
    }
}

/// The todos in ascending order of due moment, those without one first;
/// todos due at the same moment keep their order.
pub fn sort_by_due(entries: Vec<ParsedTodosEntry>) -> (r: Vec<ParsedTodosEntry>)
    requires
        forall|i: int| 0 <= i < entries@.len() ==> moments_wf(#[trigger] entries@[i]),
    ensures
        todo_models(r@) == sorted_by_due(todo_models(entries@)),
        forall|i: int| 0 <= i < r@.len() ==> moments_wf(#[trigger] r@[i]),
{
    let ghost m = todo_models(entries@);
    let mut rest = entries;
    let mut out: Vec<ParsedTodosEntry> = Vec::new();
    let mut k: usize = 0;
    let n = rest.len();
    proof {
        assert(todo_models(out@) =~= sorted_by_due(m.subrange(0, 0)));
    }
    while k < n
        invariant
            k <= n,
            n == m.len(),
            rest@.len() == n - k,
            forall|i: int| 0 <= i < rest@.len() ==> (#[trigger] rest@[i]).model() == m[k + i],
            forall|i: int| 0 <= i < rest@.len() ==> moments_wf(#[trigger] rest@[i]),
            forall|i: int| 0 <= i < out@.len() ==> moments_wf(#[trigger] out@[i]),
            todo_models(out@) == sorted_by_due(m.subrange(0, k as int)),
        decreases n - k,
    {
        let ghost before = rest@;
        let e = rest.remove(0);
        proof {
            assert(e == before[0]);
            assert(m.subrange(0, k + 1).drop_last() =~= m.subrange(0, k as int));
            assert forall|i: int| 0 <= i < rest@.len() implies (#[trigger] rest@[i]).model() == m[k
                + 1 + i] by {
                assert(rest@[i] == before[i + 1]);
            }
            assert forall|i: int| 0 <= i < rest@.len() implies moments_wf(#[trigger] rest@[i]) by {
                assert(rest@[i] == before[i + 1]);
            }
        }
        insert_todo(&mut out, e);
        k = k + 1;
    }
    proof {
        assert(m.subrange(0, n as int) =~= m);
    }
    out
}

/// The todos due on a day that passes the filter, in order; a todo without
/// a due moment is left out.
pub fn filter_by_due(entries: Vec<ParsedTodosEntry>, filter: DateFilter) -> (r: Vec<
    ParsedTodosEntry,
>)
    ensures
        todo_models(r@) == kept_by_due(todo_models(entries@), filter),
{
    let ghost m = todo_models(entries@);
    let mut rest = entries;
    let mut out: Vec<ParsedTodosEntry> = Vec::new();
    let mut k: usize = 0;
    let n = rest.len();
    proof {
        assert(todo_models(out@) =~= kept_by_due(m.subrange(0, 0), filter));
    }
    while k < n
        invariant
            k <= n,
            n == m.len(),
            rest@.len() == n - k,
            forall|i: int| 0 <= i < rest@.len() ==> (#[trigger] rest@[i]).model() == m[k + i],
            todo_models(out@) == kept_by_due(m.subrange(0, k as int), filter),
        decreases n - k,
    {
        let ghost before = rest@;
        let e = rest.remove(0);
        proof {
            assert(e == before[0]);
            assert(m.subrange(0, k + 1).drop_last() =~= m.subrange(0, k as int));
            assert(m.subrange(0, k + 1).last() == e.model());
            assert forall|i: int| 0 <= i < rest@.len() implies (#[trigger] rest@[i]).model() == m[k
                + 1 + i] by {
                assert(rest@[i] == before[i + 1]);
            }
        }
        let keep = match e.due_date {
            Some((d, _t)) => date_is_in_range(filter, d),
            None => false,
        };
        if keep {
            let ghost ob = todo_models(out@);
            out.push(e);
            proof {
                assert(todo_models(out@) =~= ob.push(e.model()));
            }
        }
        k = k + 1;
    }
    proof {
        assert(m.subrange(0, n as int) =~= m);
    }
    out
}

/// The todos with the given status, in order.
fn select_status(entries: &Vec<ParsedTodosEntry>, st: TodoStatus) -> (r: Vec<usize>)
    ensures
        r@.len() == with_status(todo_models(entries@), st).len(),
        forall|i: int| 0 <= i < r@.len() ==> (#[trigger] r@[i]) < entries@.len(),
        forall|i: int|
            0 <= i < r@.len() ==> entries@[#[trigger] r@[i] as int].model() == with_status(
                todo_models(entries@),
                st,
            )[i],
{
    let ghost m = todo_models(entries@);
    let mut out: Vec<usize> = Vec::new();
    let mut k: usize = 0;
    while k < entries.len()
        invariant
            k <= entries@.len(),
            m == todo_models(entries@),
            out@.len() == with_status(m.subrange(0, k as int), st).len(),
            forall|i: int| 0 <= i < out@.len() ==> (#[trigger] out@[i]) < k,
            forall|i: int|
                0 <= i < out@.len() ==> entries@[#[trigger] out@[i] as int].model() == with_status(
                    m.subrange(0, k as int),
                    st,
                )[i],
        decreases entries@.len() - k,
    {
        let ghost prev = with_status(m.subrange(0, k as int), st);
        proof {
            assert(m.subrange(0, k + 1).drop_last() =~= m.subrange(0, k as int));
            assert(m.subrange(0, k + 1).last() == entries@[k as int].model());
        }
        if entries[k].status == st {
            out.push(k);
            proof {
                assert(with_status(m.subrange(0, k + 1), st) == prev.push(entries@[k as int].model()));
                assert forall|i: int| 0 <= i < out@.len() implies entries@[#[trigger] out@[i] as int].model()
                    == with_status(m.subrange(0, k + 1), st)[i] by {
                    if i < out@.len() - 1 {
                        assert(entries@[out@[i] as int].model() == prev[i]);
                    }
                }
            }
        } else {
            proof {
                assert(with_status(m.subrange(0, k + 1), st) == prev);
            }
        }
        k = k + 1;
    }
    proof {
        assert(m.subrange(0, k as int) =~= m);
    }
    out
}

/// Appends the blocks of the todos at `idx`, in order.
fn push_blocks(
    out: &mut Vec<char>,
    entries: &Vec<ParsedTodosEntry>,
    idx: &Vec<usize>,
    fmt: &str,
    ghost_models: Ghost<Seq<TodoModel>>,
) -> (ok: bool)
    requires
        forall|i: int| 0 <= i < idx@.len() ==> (#[trigger] idx@[i]) < entries@.len(),
        forall|i: int| 0 <= i < entries@.len() ==> moments_wf(#[trigger] entries@[i]),
        ghost_models@.len() == idx@.len(),
        forall|i: int|
            0 <= i < idx@.len() ==> entries@[#[trigger] idx@[i] as int].model() == ghost_models@[i],
    ensures
        ok == todo_blocks(ghost_models@, fmt@) is Some,
        ok ==> final(out)@ == old(out)@ + todo_blocks(ghost_models@, fmt@)->Some_0,
{
    let ghost gm = ghost_models@;
    let ghost base = out@;
    let mut i: usize = 0;
    proof {
        assert(gm.subrange(0, 0) =~= Seq::<TodoModel>::empty());
        assert(out@ =~= base + Seq::<char>::empty());
    }
    while i < idx.len()
        invariant
            i <= idx@.len(),
            gm == ghost_models@,
            gm.len() == idx@.len(),
            forall|j: int| 0 <= j < idx@.len() ==> (#[trigger] idx@[j]) < entries@.len(),
            forall|j: int| 0 <= j < entries@.len() ==> moments_wf(#[trigger] entries@[j]),
            forall|j: int|
                0 <= j < idx@.len() ==> entries@[#[trigger] idx@[j] as int].model() == gm[j],
            todo_blocks(gm.subrange(0, i as int), fmt@) is Some,
            out@ == base + todo_blocks(gm.subrange(0, i as int), fmt@)->Some_0,
        decreases idx@.len() - i,
    {
        let e = &entries[idx[i]];
        proof {
            assert(e.model() == gm[i as int]);
            assert(moments_wf(entries@[idx@[i as int] as int]));
            assert(gm.subrange(0, i + 1).drop_last() =~= gm.subrange(0, i as int));
            assert(gm.subrange(0, i + 1).last() == gm[i as int]);
        }
        match format_todo_item(
            e.title.as_str(),
            e.body.as_str(),
            e.due_date,
            e.done_date,
            e.status,
            fmt,
        ) {
            Some(block) => {
                let bv = chars_of(block.as_str());
                let ghost prev = out@;
                push_all(out, &bv);
                proof {
                    assert(out@ =~= base + todo_blocks(gm.subrange(0, i + 1), fmt@)->Some_0);
                }
            },
            None => {
                proof {
                    assert(todo_blocks(gm.subrange(0, i + 1), fmt@) is None);
                    lemma_blocks_none_extends(gm, i as int + 1, fmt@);
                    assert(gm.subrange(0, gm.len() as int) =~= gm);
                }
                return false;
            },
        }
        i = i + 1;
    }
    proof {
        assert(gm.subrange(0, i as int) =~= gm);
    }
    true
}

/// Once a prefix of todos cannot be written, no longer prefix can.
pub proof fn lemma_blocks_none_extends(s: Seq<TodoModel>, k: int, fmt: Seq<char>)
    requires
        0 <= k <= s.len(),
        todo_blocks(s.subrange(0, k), fmt) is None,
    ensures
        todo_blocks(s.subrange(0, s.len() as int), fmt) is None,
    decreases s.len() - k,
{
    if k < s.len() {
        assert(s.subrange(0, k + 1).drop_last() =~= s.subrange(0, k));
        lemma_blocks_none_extends(s, k + 1, fmt);
    }
}

/// A todo file holding `entries` together with `new_entry`, in ascending
/// order of due moment: `# Todos`, the pending todos under `## Pending`, and
/// the done ones, if any, under `## Done`. `None` where a moment cannot be
/// written under `date_format`.
pub fn todo_file_with_entry(
    entries: Vec<ParsedTodosEntry>,
    new_entry: ParsedTodosEntry,
    date_format: &str,
) -> (r: Option<String>)
    requires
        moments_wf(new_entry),
        forall|i: int| 0 <= i < entries@.len() ==> moments_wf(#[trigger] entries@[i]),
    ensures
        match todo_file_text(todo_models(entries@).push(new_entry.model()), date_format@) {
            Some(t) => r is Some && r->Some_0@ == t,
            None => r is None,
        },
{
    let mut all = entries;
    let ghost m0 = todo_models(all@);
    let ghost nm = new_entry.model();
    all.push(new_entry);
    proof {
        assert(todo_models(all@) =~= m0.push(nm));
        assert forall|i: int| 0 <= i < all@.len() implies moments_wf(#[trigger] all@[i]) by {
            if i < m0.len() {
                assert(all@[i] == entries@[i]);
            }
        }
    }
    let sorted = sort_by_due(all);
    let ghost sm = todo_models(sorted@);
    let pending = select_status(&sorted, TodoStatus::Pending);
    let done = select_status(&sorted, TodoStatus::Done);
    let mut out = chars_of("# Todos\n## Pending\n");
    let ok = push_blocks(&mut out, &sorted, &pending, date_format, Ghost(with_status(sm, TodoStatus::Pending)));
    if !ok {
        return None;
    }
    if done.len() > 0 {
        let heading = chars_of("## Done\n");
        push_all(&mut out, &heading);
    }
    let ok2 = push_blocks(&mut out, &sorted, &done, date_format, Ghost(with_status(sm, TodoStatus::Done)));
    if !ok2 {
        return None;
    }
    proof {
        let p = todo_blocks(with_status(sm, TodoStatus::Pending), date_format@)->Some_0;
        let d = todo_blocks(with_status(sm, TodoStatus::Done), date_format@)->Some_0;
        if done@.len() == 0 {
            assert(d =~= Seq::<char>::empty()) by {
                assert(with_status(sm, TodoStatus::Done).len() == 0);
            }
        }
        assert(out@ =~= todo_file_head() + p + if with_status(sm, TodoStatus::Done).len() == 0 {
            Seq::<char>::empty()
        } else {
            done_heading() + d
        });
    }
    Some(string_of(out.as_slice()))
}

/// The todo's tags include one of the wanted ones.
pub open spec fn todo_has_any_tag(e: TodoModel, wanted: Seq<Seq<char>>) -> bool {
    exists|i: int|
        0 <= i < wanted.len() && tags_of(tag_source(e.2, e.3)).contains(#[trigger] wanted[i])
}

/// The todos that carry at least one of the tags, in order.
pub open spec fn todos_kept_by_tags(s: Seq<TodoModel>, wanted: Seq<Seq<char>>) -> Seq<TodoModel>
    decreases s.len(),
{
    if s.len() == 0 {
        s
    } else if todo_has_any_tag(s.last(), wanted) {
        todos_kept_by_tags(s.drop_last(), wanted).push(s.last())
    } else {
        todos_kept_by_tags(s.drop_last(), wanted)
    }
}

fn todo_carries_any(e: &ParsedTodosEntry, wanted: &Vec<Vec<char>>) -> (r: bool)
    requires
        e.wf(),
    ensures
        r == todo_has_any_tag(e.model(), wanted@.map_values(|v: Vec<char>| v@)),
{
    let ghost w = wanted@.map_values(|v: Vec<char>| v@);
    let ghost et = strings_view(e.tags@);
    let mut i: usize = 0;
    while i < wanted.len()
        invariant
            i <= wanted@.len(),
            w == wanted@.map_values(|v: Vec<char>| v@),
            et == strings_view(e.tags@),
            et == tags_of(tag_source(e.title@, e.body@)),
            forall|x: int| 0 <= x < i ==> !et.contains(#[trigger] w[x]),
        decreases wanted@.len() - i,
    {
        let mut j: usize = 0;
        while j < e.tags.len()
            invariant
                j <= e.tags@.len(),
                i < wanted@.len(),
                w == wanted@.map_values(|v: Vec<char>| v@),
                et == strings_view(e.tags@),
                et == tags_of(tag_source(e.title@, e.body@)),
                forall|y: int| 0 <= y < j ==> et[y] != w[i as int],
            decreases e.tags@.len() - j,
        {
            let tv = chars_of(e.tags[j].as_str());
            if chars_equal(&tv, &wanted[i]) {
                proof {
                    assert(et[j as int] == w[i as int]);
                    assert(et.contains(w[i as int]));
                }
                return true;
            }
            j = j + 1;
        }
        proof {
            assert(!et.contains(w[i as int])) by {
                if et.contains(w[i as int]) {
                    let y = choose|y: int| 0 <= y < et.len() && et[y] == w[i as int];
                    assert(et[y] != w[i as int]);
                }
            }
        }
        i = i + 1;
    }
    false
}

/// The tags asked for, trimmed and lower-cased.
fn normalized_tags(tags: &Vec<String>) -> (r: Vec<Vec<char>>)
    ensures
        r@.map_values(|v: Vec<char>| v@) == wanted_tags(strings_view(tags@)),
{
    let mut out: Vec<Vec<char>> = Vec::new();
    let mut i: usize = 0;
    while i < tags.len()
        invariant
            i <= tags@.len(),
            out@.map_values(|v: Vec<char>| v@) == wanted_tags(strings_view(tags@)).subrange(0, i as int),
        decreases tags@.len() - i,
    {
        let v = chars_of(tags[i].as_str());
        let (lo, hi) = trim_bounds(&v, 0, v.len());
        proof {
            assert(v@.subrange(0, v@.len() as int) =~= v@);
        }
        let t = lower_chars(&slice_chars(&v, lo, hi));
        let ghost ob = out@.map_values(|v: Vec<char>| v@);
        out.push(t);
        proof {
            assert(out@.map_values(|v: Vec<char>| v@) =~= ob.push(t@));
            assert(wanted_tags(strings_view(tags@)).subrange(0, i + 1) =~= wanted_tags(
                strings_view(tags@),
            ).subrange(0, i as int).push(t@));
        }
        i = i + 1;
    }
    proof {
        assert(wanted_tags(strings_view(tags@)).subrange(0, i as int) =~= wanted_tags(
            strings_view(tags@),
        ));
    }
    out
}

/// The todos that carry at least one of the tags (compared trimmed and
/// lower-cased), in order.
pub fn filter_todos_by_tags(entries: Vec<ParsedTodosEntry>, tags: &Vec<String>) -> (r: Vec<
    ParsedTodosEntry,
>)
    requires
        forall|i: int| 0 <= i < entries@.len() ==> (#[trigger] entries@[i]).wf(),
    ensures
        todo_models(r@) == todos_kept_by_tags(todo_models(entries@), wanted_tags(strings_view(tags@))),
{
    let wanted = normalized_tags(tags);
    let ghost w = wanted_tags(strings_view(tags@));
    let ghost m = todo_models(entries@);
    let mut rest = entries;
    let mut out: Vec<ParsedTodosEntry> = Vec::new();
    let mut k: usize = 0;
    let n = rest.len();
    proof {
        assert(todo_models(out@) =~= todos_kept_by_tags(m.subrange(0, 0), w));
    }
    while k < n
        invariant
            k <= n,
            n == m.len(),
            w == wanted@.map_values(|v: Vec<char>| v@),
            rest@.len() == n - k,
            forall|i: int| 0 <= i < rest@.len() ==> (#[trigger] rest@[i]).model() == m[k + i],
            forall|i: int| 0 <= i < rest@.len() ==> (#[trigger] rest@[i]).wf(),
            todo_models(out@) == todos_kept_by_tags(m.subrange(0, k as int), w),
        decreases n - k,
    {
        let ghost before = rest@;
        let e = rest.remove(0);
        proof {
            assert(e == before[0]);
            assert(m.subrange(0, k + 1).drop_last() =~= m.subrange(0, k as int));
            assert(m.subrange(0, k + 1).last() == e.model());
            assert forall|i: int| 0 <= i < rest@.len() implies (#[trigger] rest@[i]).model() == m[k
                + 1 + i] by {
                assert(rest@[i] == before[i + 1]);
            }
            assert forall|i: int| 0 <= i < rest@.len() implies (#[trigger] rest@[i]).wf() by {
                assert(rest@[i] == before[i + 1]);
            }
        }
        if todo_carries_any(&e, &wanted) {
            let ghost ob = todo_models(out@);
            out.push(e);
            proof {
                assert(todo_models(out@) =~= ob.push(e.model()));
            }
        }
        k = k + 1;
    }
    proof {
        assert(m.subrange(0, n as int) =~= m);
    }
    out
}

} // verus!
