//! Tags: `@word` tokens found in the text of an entry.
use vstd::prelude::*;
use crate::keywords::{chars_equal, is_word_char, word_char};
use crate::text::{char_is_ws, is_ws, lower, lower_chars, slice_chars, string_of};

verus! {

/// A character that can continue a tag: a word character or `-`.
pub open spec fn is_tag_char(c: char) -> bool {
    is_word_char(c) || c == '-'
}

/// The end of the run of tag characters that starts at `j`.
pub open spec fn word_end(s: Seq<char>, j: int) -> int
    decreases s.len() - j,
{
    if 0 <= j < s.len() && is_tag_char(s[j]) {
        word_end(s, j + 1)
    } else {
        j
    }
}

/// A tag starts at `i`: an `@` at the start of the text or after whitespace,
/// followed by a word character; the tag then runs over word characters and
/// `-`.
pub open spec fn tag_starts_at(s: Seq<char>, i: int) -> bool {
    &&& 0 <= i
    &&& i + 1 < s.len()
    &&& s[i] == '@'
    &&& (i == 0 || is_ws(s[i - 1]))
    &&& is_word_char(s[i + 1])
}

/// The tags from position `i` on, lower-cased, in order, with repeats.
pub open spec fn raw_tags_from(s: Seq<char>, i: int) -> Seq<Seq<char>>
    decreases s.len() - i,
{
    if i < 0 || i >= s.len() {
        Seq::empty()
    } else if tag_starts_at(s, i) {
        seq![lower(s.subrange(i, word_end(s, i + 1)))] + raw_tags_from(s, i + 1)
    } else {
        raw_tags_from(s, i + 1)
    }
}

/// `s` with repeats removed, first occurrences kept in order.
pub open spec fn dedup(s: Seq<Seq<char>>) -> Seq<Seq<char>>
    decreases s.len(),
{
    if s.len() == 0 {
        s
    } else {
        let d = dedup(s.drop_last());
        if d.contains(s.last()) {
            d
        } else {
            d.push(s.last())
        }
    }
}

/// The tags of a text: lower-cased, without repeats, in order of first
/// appearance.
pub open spec fn tags_of(s: Seq<char>) -> Seq<Seq<char>> {
    dedup(raw_tags_from(s, 0))
}

pub open spec fn strings_view(v: Seq<String>) -> Seq<Seq<char>> {
    v.map_values(|s: String| s@)
}

fn word_end_exec(s: &Vec<char>, j: usize) -> (r: usize)
    requires
        j <= s@.len(),
    ensures
        r as int == word_end(s@, j as int),
        j <= r <= s@.len(),
{
    let mut k = j;
    while k < s.len() && (word_char(s[k]) || s[k] == '-')
        invariant
            j <= k <= s@.len(),
            word_end(s@, j as int) == word_end(s@, k as int),
        decreases s@.len() - k,
    {
        k = k + 1;
    }
    k
}

fn raw_tags(s: &Vec<char>) -> (r: Vec<Vec<char>>)
    ensures
        r@.map_values(|v: Vec<char>| v@) == raw_tags_from(s@, 0),
{
    let mut out: Vec<Vec<char>> = Vec::new();
    let mut i: usize = 0;
    while i < s.len()
        invariant
            i <= s@.len(),
            out@.map_values(|v: Vec<char>| v@) + raw_tags_from(s@, i as int) == raw_tags_from(
                s@,
                0,
            ),
        decreases s@.len() - i,
    {
        let starts = s[i] == '@' && i + 1 < s.len() && (i == 0 || char_is_ws(s[i - 1])) && word_char(
            s[i + 1],
        );
        if starts {
            let e = word_end_exec(s, i + 1);
            let t = lower_chars(&slice_chars(s, i, e));
            let ghost before = out@.map_values(|v: Vec<char>| v@);
            out.push(t);
            proof {
                assert(out@.map_values(|v: Vec<char>| v@) =~= before.push(t@));
                assert(before.push(t@) + raw_tags_from(s@, i + 1) =~= before + (seq![t@]
                    + raw_tags_from(s@, i + 1)));
            }
        }
        i = i + 1;
    }
    out
}

/// The tags of a text: `@`, a word character, then word characters and `-`,
/// at the start of the text or after whitespace; lower-cased, without repeats, in order of first
/// appearance.
pub fn extract_tags(text: &Vec<char>) -> (r: Vec<String>)
    ensures
        strings_view(r@) == tags_of(text@),
{
    let raw = raw_tags(text);
    let ghost rv = raw@.map_values(|v: Vec<char>| v@);
    let mut seen: Vec<Vec<char>> = Vec::new();
    let mut out: Vec<String> = Vec::new();
    let mut k: usize = 0;
    while k < raw.len()
        invariant
            k <= raw@.len(),
            rv == raw@.map_values(|v: Vec<char>| v@),
            seen@.map_values(|v: Vec<char>| v@) == dedup(rv.subrange(0, k as int)),
            strings_view(out@) == dedup(rv.subrange(0, k as int)),
        decreases raw@.len() - k,
    {
        let ghost d = dedup(rv.subrange(0, k as int));
        proof {
            assert(rv.subrange(0, k + 1).drop_last() =~= rv.subrange(0, k as int));
            assert(rv.subrange(0, k + 1).last() == raw@[k as int]@);
        }
        let mut found = false;
        let mut j: usize = 0;
        while j < seen.len()
            invariant
                j <= seen@.len(),
                k < raw@.len(),
                seen@.map_values(|v: Vec<char>| v@) == d,
                found == exists|x: int| 0 <= x < j && d[x] == raw@[k as int]@,
            decreases seen@.len() - j,
        {
            if chars_equal(&seen[j], &raw[k]) {
                found = true;
            }
            proof {
                assert(d[j as int] == seen@[j as int]@);
            }
            j = j + 1;
        }
        proof {
            if found {
                let x = choose|x: int| 0 <= x < j && d[x] == raw@[k as int]@;
                assert(d.contains(raw@[k as int]@));
            } else {
                assert(!d.contains(raw@[k as int]@));
            }
        }
        if !found {
            let t = slice_chars(&raw[k], 0, raw[k].len());
            proof {
                assert(raw@[k as int]@.subrange(0, raw@[k as int]@.len() as int) =~= raw@[k as int]@);
            }
            let ghost sb = seen@.map_values(|v: Vec<char>| v@);
            let ghost ob = strings_view(out@);
            out.push(string_of(t.as_slice()));
            seen.push(t);
            proof {
                assert(seen@.map_values(|v: Vec<char>| v@) =~= sb.push(raw@[k as int]@));
                assert(strings_view(out@) =~= ob.push(raw@[k as int]@));
            }
        }
        k = k + 1;
    }
    proof {
        assert(rv.subrange(0, k as int) =~= rv);
    }
    out
}

} // verus!
