//! Reading the groups of one regular-expression match.
//!
//! A match is the list of the texts of its named groups, in the order in which
//! the names were asked for (`None` where a group took no part).

use vstd::prelude::*;
use crate::text::{trim, upper, parse_usize, split_char, trim_string, upper_string, chars_of,
    trim_chars, string_of, parse_usize_string, split_chars, without_char, without_char_chars};

verus! {

/// The text of group `k` of a match.
pub open spec fn grp(m: Seq<Option<Seq<char>>>, k: int) -> Option<Seq<char>> {
    if 0 <= k < m.len() {
        m[k]
    } else {
        None
    }
}

/// The text, trimmed, where there is one.
pub open spec fn trimmed(o: Option<Seq<char>>) -> Option<Seq<char>> {
    match o {
        Some(s) => Some(trim(s)),
        None => None,
    }
}

/// The text, trimmed, where there is one and it is not empty once trimmed.
pub open spec fn trimmed_nonempty(o: Option<Seq<char>>) -> Option<Seq<char>> {
    match o {
        Some(s) => if trim(s).len() > 0 {
            Some(trim(s))
        } else {
            None
        },
        None => None,
    }
}

/// The text in upper case, then trimmed, where there is one.
pub open spec fn upper_trimmed(o: Option<Seq<char>>) -> Option<Seq<char>> {
    match o {
        Some(s) => Some(trim(upper(s))),
        None => None,
    }
}

/// The text trimmed, then in upper case, where there is one.
pub open spec fn trimmed_upper(o: Option<Seq<char>>) -> Option<Seq<char>> {
    match o {
        Some(s) => Some(upper(trim(s))),
        None => None,
    }
}

/// The number the text is, or 0 where there is no text or it is not a
/// number that fits a `usize`.
pub open spec fn number_or_zero(o: Option<Seq<char>>) -> usize {
    match o {
        Some(s) => match parse_usize(s) {
            Some(n) => n,
            None => 0,
        },
        None => 0,
    }
}

/// The text trimmed, with every carriage return and line feed taken out.
pub open spec fn flattened(s: Seq<char>) -> Seq<char> {
    without_char(without_char(trim(s), '\r'), '\n')
}

/// The pieces of `s` between semicolons, each trimmed.
pub open spec fn semicolon_list(s: Seq<char>) -> Seq<Seq<char>> {
    split_char(s, ';').map_values(|p: Seq<char>| trim(p))
}

/// The first group of each match, trimmed; `None` where one is missing.
pub open spec fn first_groups_trimmed(cms: Seq<Seq<Option<Seq<char>>>>) -> Option<Seq<Seq<char>>>
    decreases cms.len(),
{
    if cms.len() == 0 {
        Some(Seq::<Seq<char>>::empty())
    } else {
        match (first_groups_trimmed(cms.drop_last()), grp(cms.last(), 0)) {
            (Some(p), Some(c)) => Some(p.push(trim(c))),
            _ => None,
        }
    }
}

proof fn lemma_first_groups_none_extends(cms: Seq<Seq<Option<Seq<char>>>>, k: int)
    requires
        0 <= k <= cms.len(),
        first_groups_trimmed(cms.take(k)) is None,
    ensures
        first_groups_trimmed(cms) is None,
    decreases cms.len() - k,
{
    if k < cms.len() {
        assert(cms.take(k + 1).drop_last() =~= cms.take(k));
        lemma_first_groups_none_extends(cms, k + 1);
    } else {
        assert(cms.take(k) =~= cms);
    }
}

/// The first group of each match, trimmed.
pub fn first_groups(cms: &Vec<Vec<Option<String>>>) -> (out: Option<Vec<String>>)
    ensures
        match out {
            Some(v) => first_groups_trimmed(cms.deep_view()) == Some(v.deep_view()),
            None => first_groups_trimmed(cms.deep_view()) is None,
        },
{
    let mut out: Vec<String> = Vec::new();
    let mut i: usize = 0;
    let ghost all = cms.deep_view();
    assert(all.take(0) =~= Seq::<Seq<Option<Seq<char>>>>::empty());
    assert(out.deep_view() =~= Seq::<Seq<char>>::empty());
    while i < cms.len()
        invariant
            i <= cms.len() == all.len(),
            all == cms.deep_view(),
            first_groups_trimmed(all.take(i as int)) == Some(out.deep_view()),
        decreases cms.len() - i,
    {
        assert(all.take(i + 1).drop_last() =~= all.take(i as int));
        assert(all.take(i + 1).last() == cms@[i as int].deep_view());
        match group_trimmed(&cms[i], 0) {
            Some(c) => {
                let ghost before = out.deep_view();
                out.push(c);
                assert(out.deep_view() =~= before.push(out@.last()@));
            },
            None => {
                proof {
                    lemma_first_groups_none_extends(all, i + 1);
                }
                return None;
            },
        }
        i += 1;
    }
    assert(all.take(all.len() as int) =~= all);
    Some(out)
}

/// Group `k` of a match, copied.
pub fn group(m: &Vec<Option<String>>, k: usize) -> (out: Option<String>)
    ensures
        out.deep_view() == grp(m.deep_view(), k as int),
{
    if k < m.len() {
        match &m[k] {
            Some(s) => Some(s.clone()),
            None => None,
        }
    } else {
        None
    }
}

/// Group `k` of a match, trimmed.
pub fn group_trimmed(m: &Vec<Option<String>>, k: usize) -> (out: Option<String>)
    ensures
        out.deep_view() == trimmed(grp(m.deep_view(), k as int)),
{
    match group(m, k) {
        Some(s) => Some(trim_string(&s)),
        None => None,
    }
}

/// Group `k` of a match, trimmed, or `None` where that leaves nothing.
pub fn group_trimmed_nonempty(m: &Vec<Option<String>>, k: usize) -> (out: Option<String>)
    ensures
        out.deep_view() == trimmed_nonempty(grp(m.deep_view(), k as int)),
{
    match group(m, k) {
        Some(s) => {
            let v = chars_of(s.as_str());
            let t = trim_chars(&v);
            if t.len() > 0 {
                Some(string_of(&t))
            } else {
                None
            }
        },
        None => None,
    }
}

/// Group `k` of a match, upper-cased then trimmed.
pub fn group_upper_trimmed(m: &Vec<Option<String>>, k: usize) -> (out: Option<String>)
    ensures
        out.deep_view() == upper_trimmed(grp(m.deep_view(), k as int)),
{
    match group(m, k) {
        Some(s) => {
            let u = upper_string(&s);
            Some(trim_string(&u))
        },
        None => None,
    }
}

/// Group `k` of a match, trimmed then upper-cased.
pub fn group_trimmed_upper(m: &Vec<Option<String>>, k: usize) -> (out: Option<String>)
    ensures
        out.deep_view() == trimmed_upper(grp(m.deep_view(), k as int)),
{
    match group(m, k) {
        Some(s) => {
            let t = trim_string(&s);
            Some(upper_string(&t))
        },
        None => None,
    }
}

/// Group `k` of a match read as a number, or 0.
pub fn group_number_or_zero(m: &Vec<Option<String>>, k: usize) -> (out: usize)
    ensures
        out == number_or_zero(grp(m.deep_view(), k as int)),
{
    match group(m, k) {
        Some(s) => match parse_usize_string(&s) {
            Some(n) => n,
            None => 0,
        },
        None => 0,
    }
}

/// A string trimmed, with carriage returns and line feeds taken out.
pub fn flatten_string(s: &String) -> (out: String)
    ensures
        out@ == flattened(s@),
{
    let v = chars_of(s.as_str());
    let t = trim_chars(&v);
    let a = without_char_chars(&t, '\r');
    let b = without_char_chars(&a, '\n');
    string_of(&b)
}

/// The pieces of a string between semicolons, each trimmed.
pub fn semicolon_pieces(s: &String) -> (out: Vec<String>)
    ensures
        out.deep_view() == semicolon_list(s@),
{
    let v = chars_of(s.as_str());
    let pieces = split_chars(&v, ';');
    let mut out: Vec<String> = Vec::new();
    let mut i: usize = 0;
    while i < pieces.len()
        invariant
            i <= pieces.len(),
            crate::text::views(pieces@) == split_char(s@, ';'),
            out.deep_view() =~= split_char(s@, ';').take(i as int).map_values(
                |p: Seq<char>| trim(p),
            ),
        decreases pieces.len() - i,
    {
        assert(crate::text::views(pieces@)[i as int] == pieces@[i as int]@);
        let t = trim_chars(&pieces[i]);
        let ghost before = out.deep_view();
        out.push(string_of(&t));
        assert(out.deep_view() =~= before.push(t@));
        i += 1;
    }
    out
}

} // verus!
