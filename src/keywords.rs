//! Temporal keywords and the registry of their aliases.
use vstd::prelude::*;
use crate::text::{
    chars_of, lower, lower_chars, occurs_at, occurs_at_exec, string_of,
};

verus! {

/// The canonical temporal keywords.
#[derive(Clone, Copy, Debug, PartialEq, Eq, Structural, Hash)]
pub enum Keyword {
    At,
    Monday,
    Tuesday,
    Wednesday,
    Thursday,
    Friday,
    Saturday,
    Sunday,
    Today,
    Yesterday,
    Tomorrow,
    Morning,
    Noon,
    Evening,
    Night,
    Midnight,
    LastWeek,
    LastMonth,
    LastYear,
    ThisWeek,
    ThisMonth,
    ThisYear,
}

/// The canonical (lower case) spelling of a keyword.
pub open spec fn canonical_text(k: Keyword) -> Seq<char> {
    match k {
        Keyword::At => seq!['a', 't'],
        Keyword::Monday => seq!['m', 'o', 'n', 'd', 'a', 'y'],
        Keyword::Tuesday => seq!['t', 'u', 'e', 's', 'd', 'a', 'y'],
        Keyword::Wednesday => seq!['w', 'e', 'd', 'n', 'e', 's', 'd', 'a', 'y'],
        Keyword::Thursday => seq!['t', 'h', 'u', 'r', 's', 'd', 'a', 'y'],
        Keyword::Friday => seq!['f', 'r', 'i', 'd', 'a', 'y'],
        Keyword::Saturday => seq!['s', 'a', 't', 'u', 'r', 'd', 'a', 'y'],
        Keyword::Sunday => seq!['s', 'u', 'n', 'd', 'a', 'y'],
        Keyword::Today => seq!['t', 'o', 'd', 'a', 'y'],
        Keyword::Yesterday => seq!['y', 'e', 's', 't', 'e', 'r', 'd', 'a', 'y'],
        Keyword::Tomorrow => seq!['t', 'o', 'm', 'o', 'r', 'r', 'o', 'w'],
        Keyword::Morning => seq!['m', 'o', 'r', 'n', 'i', 'n', 'g'],
        Keyword::Noon => seq!['n', 'o', 'o', 'n'],
        Keyword::Evening => seq!['e', 'v', 'e', 'n', 'i', 'n', 'g'],
        Keyword::Night => seq!['n', 'i', 'g', 'h', 't'],
        Keyword::Midnight => seq!['m', 'i', 'd', 'n', 'i', 'g', 'h', 't'],
        Keyword::LastWeek => seq!['l', 'a', 's', 't', ' ', 'w', 'e', 'e', 'k'],
        Keyword::LastMonth => seq!['l', 'a', 's', 't', ' ', 'm', 'o', 'n', 't', 'h'],
        Keyword::LastYear => seq!['l', 'a', 's', 't', ' ', 'y', 'e', 'a', 'r'],
        Keyword::ThisWeek => seq!['t', 'h', 'i', 's', ' ', 'w', 'e', 'e', 'k'],
        Keyword::ThisMonth => seq!['t', 'h', 'i', 's', ' ', 'm', 'o', 'n', 't', 'h'],
        Keyword::ThisYear => seq!['t', 'h', 'i', 's', ' ', 'y', 'e', 'a', 'r'],
    }
}

/// Every keyword, in declaration order.
pub open spec fn all_keywords() -> Seq<Keyword> {
    seq![
        Keyword::At,
        Keyword::Monday,
        Keyword::Tuesday,
        Keyword::Wednesday,
        Keyword::Thursday,
        Keyword::Friday,
        Keyword::Saturday,
        Keyword::Sunday,
        Keyword::Today,
        Keyword::Yesterday,
        Keyword::Tomorrow,
        Keyword::Morning,
        Keyword::Noon,
        Keyword::Evening,
        Keyword::Night,
        Keyword::Midnight,
        Keyword::LastWeek,
        Keyword::LastMonth,
        Keyword::LastYear,
        Keyword::ThisWeek,
        Keyword::ThisMonth,
        Keyword::ThisYear,
    ]
}

/// The first keyword from position `i` of [`all_keywords`] on whose canonical
/// spelling `s` is.
pub open spec fn canonical_from(s: Seq<char>, i: int) -> Option<Keyword>
    decreases 22 - i,
{
    if i < 0 || i >= 22 {
        None
    } else if canonical_text(all_keywords()[i]) == s {
        Some(all_keywords()[i])
    } else {
        canonical_from(s, i + 1)
    }
}

/// The keyword whose canonical spelling `s` is, if any.
pub open spec fn canonical_of(s: Seq<char>) -> Option<Keyword> {
    canonical_from(s, 0)
}

/// The last alias among the first `n` that is spelled `key`, with its target.
pub open spec fn alias_lookup(names: Seq<Seq<char>>, targets: Seq<Keyword>, key: Seq<char>, n: int) -> Option<Keyword>
    decreases n,
{
    if n <= 0 {
        None
    } else if names[n - 1] == key {
        Some(targets[n - 1])
    } else {
        alias_lookup(names, targets, key, n - 1)
    }
}

/// What `key` stands for in a registry with these aliases: a canonical
/// spelling stands for its keyword, any other key for the target of its
/// latest alias.
pub open spec fn resolve_in(names: Seq<Seq<char>>, targets: Seq<Keyword>, key: Seq<char>) -> Option<Keyword> {
    match canonical_of(key) {
        Some(k) => Some(k),
        None => alias_lookup(names, targets, key, names.len() as int),
    }
}

/// The aliases after merging `pairs` in order: the lower-cased alias of a pair
/// is added when it is not a canonical spelling and its lower-cased target
/// already stands for a keyword.
pub open spec fn extended(
    names: Seq<Seq<char>>,
    targets: Seq<Keyword>,
    pairs: Seq<(Seq<char>, Seq<char>)>,
) -> (Seq<Seq<char>>, Seq<Keyword>)
    decreases pairs.len(),
{
    if pairs.len() == 0 {
        (names, targets)
    } else {
        let prev = extended(names, targets, pairs.drop_last());
        let alias = lower(pairs.last().0);
        let target = lower(pairs.last().1);
        match resolve_in(prev.0, prev.1, target) {
            Some(c) => if canonical_of(alias).is_none() {
                (prev.0.push(alias), prev.1.push(c))
            } else {
                prev
            },
            None => prev,
        }
    }
}

/// The registry of keyword aliases: every canonical spelling, and the
/// synonyms that were merged into it.
pub struct Keywords {
    names: Vec<Vec<char>>,
    targets: Vec<Keyword>,
}

/// A list of (alias, target) pairs as text.
pub open spec fn pairs_view(pairs: Seq<(String, String)>) -> Seq<(Seq<char>, Seq<char>)> {
    pairs.map_values(|p: (String, String)| (p.0@, p.1@))
}

impl Keywords {
    pub closed spec fn alias_names(&self) -> Seq<Seq<char>> {
        self.names@.map_values(|v: Vec<char>| v@)
    }

    pub closed spec fn alias_targets(&self) -> Seq<Keyword> {
        self.targets@
    }

    pub closed spec fn wf(&self) -> bool {
        self.names@.len() == self.targets@.len()
    }

    /// What `key` stands for in this registry.
    pub open spec fn resolve(&self, key: Seq<char>) -> Option<Keyword> {
        resolve_in(self.alias_names(), self.alias_targets(), key)
    }

    /// A registry that knows the canonical spellings only.
    pub fn new() -> (r: Keywords)
        ensures
            r.wf(),
            r.alias_names() == Seq::<Seq<char>>::empty(),
            r.alias_targets() == Seq::<Keyword>::empty(),
    {
        let r = Keywords { names: Vec::new(), targets: Vec::new() };
        proof {
            assert(r.alias_names() =~= Seq::<Seq<char>>::empty());
        }
        r
    }

    /// The keyword whose canonical spelling `v` is.
    pub fn canonical_keyword(v: &Vec<char>) -> (r: Option<Keyword>)
        ensures
            r == canonical_of(v@),
    {
        let mut i: usize = 0;
        while i < 22
            invariant
                i <= 22,
                canonical_of(v@) == canonical_from(v@, i as int),
            decreases 22 - i,
        {
            let k = nth_keyword(i);
            let sp = k.spelling();
            if chars_equal(&sp, v) {
                return Some(k);
            }
            i = i + 1;
        }
        None
    }

    /// Returns `true` if `word` is the canonical spelling of a keyword.
    pub fn is_canonical(word: &str) -> (r: bool)
        ensures
            r == canonical_of(word@).is_some(),
    {
        let v = chars_of(word);
        Self::canonical_keyword(&v).is_some()
    }

    /// What the (already lower-cased) `key` stands for.
    pub fn lookup(&self, key: &Vec<char>) -> (r: Option<Keyword>)
        requires
            self.wf(),
        ensures
            r == self.resolve(key@),
    {
        match Self::canonical_keyword(key) {
            Some(k) => Some(k),
            None => {
                let mut n = self.names.len();
                proof {
                    assert(self.alias_names().len() == self.names@.len());
                }
                while n > 0
                    invariant
                        n <= self.names@.len(),
                        self.wf(),
                        canonical_of(key@).is_none(),
                        self.alias_names().len() == self.names@.len(),
                        alias_lookup(self.alias_names(), self.alias_targets(), key@, self.names@.len() as int)
                            == alias_lookup(self.alias_names(), self.alias_targets(), key@, n as int),
                    decreases n,
                {
                    proof {
                        assert(self.alias_names()[n - 1] == self.names@[n - 1]@);
                    }
                    if chars_equal(&self.names[n - 1], key) {
                        proof {
                            assert(alias_lookup(self.alias_names(), self.alias_targets(), key@, n as int)
                                == Some(self.alias_targets()[n - 1]));
                        }
                        return Some(self.targets[n - 1]);
                    }
                    n = n - 1;
                }
                None
            },
        }
    }

    /// Merges user synonyms, given as (alias, target) pairs, case-insensitively.
    /// An alias spelled like a canonical keyword is skipped, and so is a pair
    /// whose target does not yet stand for a keyword.
    pub fn extend(&mut self, synonyms: &[(String, String)])
        requires
            old(self).wf(),
        ensures
            final(self).wf(),
            (final(self).alias_names(), final(self).alias_targets()) == extended(
                old(self).alias_names(),
                old(self).alias_targets(),
                pairs_view(synonyms@),
            ),
    {
        let mut i: usize = 0;
        while i < synonyms.len()
            invariant
                i <= synonyms@.len(),
                self.wf(),
                (self.alias_names(), self.alias_targets()) == extended(
                    old(self).alias_names(),
                    old(self).alias_targets(),
                    pairs_view(synonyms@).subrange(0, i as int),
                ),
            decreases synonyms@.len() - i,
        {
            let ghost pre = pairs_view(synonyms@).subrange(0, i as int);
            let ghost post = pairs_view(synonyms@).subrange(0, i + 1);
            proof {
                assert(post.drop_last() =~= pre);
                assert(post.last() == (synonyms@[i as int].0@, synonyms@[i as int].1@));
            }
            let alias = lower_chars(&chars_of(synonyms[i].0.as_str()));
            let target = lower_chars(&chars_of(synonyms[i].1.as_str()));
            match self.lookup(&target) {
                Some(c) => {
                    if Self::canonical_keyword(&alias).is_none() {
                        self.names.push(alias);
                        self.targets.push(c);
                        proof {
                            assert(self.alias_names() =~= extended(
                                old(self).alias_names(),
                                old(self).alias_targets(),
                                pre,
                            ).0.push(alias@));
                        }
                    }
                },
                None => {},
            }
            i = i + 1;
        }
        proof {
            assert(pairs_view(synonyms@).subrange(0, i as int) =~= pairs_view(synonyms@));
        }
    }

    /// Returns `true` if `input` stands, case-insensitively, for `keyword`:
    /// its canonical spelling or one of its aliases.
    pub fn matches(&self, keyword: Keyword, input: &str) -> (r: bool)
        requires
            self.wf(),
        ensures
            r == (self.resolve(lower(input@)) == Some(keyword)),
    {
        let key = lower_chars(&chars_of(input));
        match self.lookup(&key) {
            Some(k) => k == keyword,
            None => false,
        }
    }

    /// The canonical spelling of `keyword` if it stands as a whole word in
    /// `input` (case-insensitively).
    pub fn find_word(keyword: Keyword, input: &str) -> (r: Option<String>)
        ensures
            r.is_some() == word_position(keyword, input@).is_some(),
            r.is_some() ==> r.unwrap()@ == canonical_text(keyword),
    {
        match Self::find_position(keyword, input) {
            Some(_) => {
                let sp = keyword.spelling();
                Some(string_of(sp.as_slice()))
            },
            None => None,
        }
    }

    /// The position (in characters) of the first whole-word occurrence of
    /// `keyword`'s canonical spelling in `input`, case-insensitively.
    pub fn find_position(keyword: Keyword, input: &str) -> (r: Option<usize>)
        ensures
            r.is_some() == word_position(keyword, input@).is_some(),
            r.is_some() ==> r.unwrap() as int == word_position(keyword, input@).unwrap(),
            r.is_some() ==> r.unwrap() + canonical_text(keyword).len() <= input@.len(),
    {
        let s = lower_chars(&chars_of(input));
        let p = keyword.spelling();
        find_word_in(&s, &p)
    }
}

/// The first position where `p` stands as a whole word in `s`.
pub fn find_word_in(s: &Vec<char>, p: &Vec<char>) -> (r: Option<usize>)
    ensures
        r.is_some() == word_position_from(s@, p@, 0).is_some(),
        r.is_some() ==> r.unwrap() as int == word_position_from(s@, p@, 0).unwrap(),
        r.is_some() ==> r.unwrap() + p@.len() <= s@.len(),
{
    let slen = s.len();
    let plen = p.len();
    let mut i: usize = 0;
    loop
        invariant
            i <= s@.len(),
            slen == s@.len(),
            plen == p@.len(),
            word_position_from(s@, p@, 0) == word_position_from(s@, p@, i as int),
        decreases s@.len() - i,
    {
        if occurs_at_exec(s, p.as_slice(), i) {
            let before_ok = i == 0 || !word_char(s[i - 1]);
            let after_ok = i + plen == slen || !word_char(s[i + plen]);
            if before_ok && after_ok {
                return Some(i);
            }
        }
        if i == slen {
            proof {
                assert(word_position_from(s@, p@, i as int + 1).is_none());
            }
            return None;
        }
        i = i + 1;
    }
}

/// Two sequences of characters are equal.
pub fn chars_equal(a: &Vec<char>, b: &Vec<char>) -> (r: bool)
    ensures
        r == (a@ == b@),
{
    if a.len() != b.len() {
        return false;
    }
    let mut i: usize = 0;
    while i < a.len()
        invariant
            i <= a@.len(),
            a@.len() == b@.len(),
            forall|j: int| 0 <= j < i ==> a@[j] == b@[j],
        decreases a@.len() - i,
    {
        if a[i] != b[i] {
            return false;
        }
        i = i + 1;
    }
    proof {
        assert(a@ =~= b@);
    }
    true
}

/// The keyword at position `i` of [`all_keywords`].
pub fn nth_keyword(i: usize) -> (r: Keyword)
    requires
        i < 22,
    ensures
        r == all_keywords()[i as int],
{
    match i {
        0 => Keyword::At,
        1 => Keyword::Monday,
        2 => Keyword::Tuesday,
        3 => Keyword::Wednesday,
        4 => Keyword::Thursday,
        5 => Keyword::Friday,
        6 => Keyword::Saturday,
        7 => Keyword::Sunday,
        8 => Keyword::Today,
        9 => Keyword::Yesterday,
        10 => Keyword::Tomorrow,
        11 => Keyword::Morning,
        12 => Keyword::Noon,
        13 => Keyword::Evening,
        14 => Keyword::Night,
        15 => Keyword::Midnight,
        16 => Keyword::LastWeek,
        17 => Keyword::LastMonth,
        18 => Keyword::LastYear,
        19 => Keyword::ThisWeek,
        20 => Keyword::ThisMonth,
        _ => Keyword::ThisYear,
    }
}

/// A character that can stand inside a word.
pub open spec fn is_word_char(c: char) -> bool {
    ('a' <= c && c <= 'z') || ('A' <= c && c <= 'Z') || ('0' <= c && c <= '9') || c == '_'
}

/// `p` occurs in `s` at `i` as a whole word: no word character touches it on
/// either side.
pub open spec fn word_at(s: Seq<char>, p: Seq<char>, i: int) -> bool {
    &&& occurs_at(s, p, i)
    &&& (i == 0 || !is_word_char(s[i - 1]))
    &&& (i + p.len() == s.len() || !is_word_char(s[i + p.len()]))
}

/// The first position, from `i` on, where `p` stands in `s` as a whole word.
pub open spec fn word_position_from(s: Seq<char>, p: Seq<char>, i: int) -> Option<int>
    decreases s.len() + 1 - i,
{
    if i < 0 || i > s.len() {
        None
    } else if word_at(s, p, i) {
        Some(i)
    } else {
        word_position_from(s, p, i + 1)
    }
}

/// The first position where the keyword's spelling stands as a whole word in
/// the lower-cased input.
pub open spec fn word_position(k: Keyword, input: Seq<char>) -> Option<int> {
    word_position_from(lower(input), canonical_text(k), 0)
}

pub fn word_char(c: char) -> (r: bool)
    ensures
        r == is_word_char(c),
{
    ('a' <= c && c <= 'z') || ('A' <= c && c <= 'Z') || ('0' <= c && c <= '9') || c == '_'
}

impl Keyword {
    /// The canonical spelling, as characters.
    pub fn spelling(&self) -> (r: Vec<char>)
        ensures
            r@ == canonical_text(*self),
    {
        let r = match self {
            Keyword::At => vec!['a', 't'],
            Keyword::Monday => vec!['m', 'o', 'n', 'd', 'a', 'y'],
            Keyword::Tuesday => vec!['t', 'u', 'e', 's', 'd', 'a', 'y'],
            Keyword::Wednesday => vec!['w', 'e', 'd', 'n', 'e', 's', 'd', 'a', 'y'],
            Keyword::Thursday => vec!['t', 'h', 'u', 'r', 's', 'd', 'a', 'y'],
            Keyword::Friday => vec!['f', 'r', 'i', 'd', 'a', 'y'],
            Keyword::Saturday => vec!['s', 'a', 't', 'u', 'r', 'd', 'a', 'y'],
            Keyword::Sunday => vec!['s', 'u', 'n', 'd', 'a', 'y'],
            Keyword::Today => vec!['t', 'o', 'd', 'a', 'y'],
            Keyword::Yesterday => vec!['y', 'e', 's', 't', 'e', 'r', 'd', 'a', 'y'],
            Keyword::Tomorrow => vec!['t', 'o', 'm', 'o', 'r', 'r', 'o', 'w'],
            Keyword::Morning => vec!['m', 'o', 'r', 'n', 'i', 'n', 'g'],
            Keyword::Noon => vec!['n', 'o', 'o', 'n'],
            Keyword::Evening => vec!['e', 'v', 'e', 'n', 'i', 'n', 'g'],
            Keyword::Night => vec!['n', 'i', 'g', 'h', 't'],
            Keyword::Midnight => vec!['m', 'i', 'd', 'n', 'i', 'g', 'h', 't'],
            Keyword::LastWeek => vec!['l', 'a', 's', 't', ' ', 'w', 'e', 'e', 'k'],
            Keyword::LastMonth => vec!['l', 'a', 's', 't', ' ', 'm', 'o', 'n', 't', 'h'],
            Keyword::LastYear => vec!['l', 'a', 's', 't', ' ', 'y', 'e', 'a', 'r'],
            Keyword::ThisWeek => vec!['t', 'h', 'i', 's', ' ', 'w', 'e', 'e', 'k'],
            Keyword::ThisMonth => vec!['t', 'h', 'i', 's', ' ', 'm', 'o', 'n', 't', 'h'],
            Keyword::ThisYear => vec!['t', 'h', 'i', 's', ' ', 'y', 'e', 'a', 'r'],
        };
        proof {
            assert(r@ =~= canonical_text(*self));
        }
        r
    }
}

} // verus!
