//! Character-level text operations on `Seq<char>`, each with an executable
//! version over `Vec<char>` that is proved to compute it.

use vstd::prelude::*;

verus! {

/// Unicode `White_Space`: the characters that `str::trim` removes.
pub open spec fn is_white(c: char) -> bool {
    let u = c as int;
    ||| 0x09 <= u <= 0x0d
    ||| u == 0x20
    ||| u == 0x85
    ||| u == 0xa0
    ||| u == 0x1680
    ||| 0x2000 <= u <= 0x200a
    ||| u == 0x2028
    ||| u == 0x2029
    ||| u == 0x202f
    ||| u == 0x205f
    ||| u == 0x3000
}

/// `s` without its leading white space.
pub open spec fn trim_start(s: Seq<char>) -> Seq<char>
    decreases s.len(),
{
    if s.len() > 0 && is_white(s[0]) {
        trim_start(s.drop_first())
    } else {
        s
    }
}

/// `s` without its trailing white space.
pub open spec fn trim_end(s: Seq<char>) -> Seq<char>
    decreases s.len(),
{
    if s.len() > 0 && is_white(s.last()) {
        trim_end(s.drop_last())
    } else {
        s
    }
}

/// `s` without leading and trailing white space, as `str::trim` gives it.
pub open spec fn trim(s: Seq<char>) -> Seq<char> {
    trim_end(trim_start(s))
}

/// The ASCII upper-case form of a character.
pub open spec fn upper_char(c: char) -> char {
    if 'a' <= c <= 'z' {
        ((c as int) - 32) as char
    } else {
        c
    }
}

/// `s` with ASCII letters made upper case, as `str::to_ascii_uppercase` gives it.
pub open spec fn upper(s: Seq<char>) -> Seq<char> {
    s.map_values(|c: char| upper_char(c))
}

/// The contents of a list of character vectors.
pub open spec fn views(v: Seq<Vec<char>>) -> Seq<Seq<char>> {
    v.map_values(|x: Vec<char>| x@)
}

pub open spec fn is_digit(c: char) -> bool {
    '0' <= c <= '9'
}

pub open spec fn all_digits(s: Seq<char>) -> bool {
    forall|i: int| 0 <= i < s.len() ==> is_digit(#[trigger] s[i])
}

/// The number that a string of decimal digits denotes.
pub open spec fn digits_value(s: Seq<char>) -> nat
    decreases s.len(),
{
    if s.len() == 0 {
        0
    } else {
        digits_value(s.drop_last()) * 10 + ((s.last() as int) - ('0' as int)) as nat
    }
}

/// What `s.parse::<usize>()` gives: an optional `+` followed by one or more
/// decimal digits, whose value fits in a `usize`.
pub open spec fn parse_usize(s: Seq<char>) -> Option<usize> {
    let d = if s.len() > 0 && s[0] == '+' {
        s.drop_first()
    } else {
        s
    };
    if d.len() > 0 && all_digits(d) && digits_value(d) <= usize::MAX {
        Some(digits_value(d) as usize)
    } else {
        None
    }
}

/// The pieces of `s` between the occurrences of `c`, as `str::split(c)` gives them.
pub open spec fn split_char(s: Seq<char>, c: char) -> Seq<Seq<char>>
    decreases s.len(),
{
    if s.len() == 0 {
        seq![Seq::<char>::empty()]
    } else {
        let p = split_char(s.drop_last(), c);
        if s.last() == c {
            p.push(Seq::<char>::empty())
        } else {
            p.update(p.len() - 1, p.last().push(s.last()))
        }
    }
}

/// Whether `needle` occurs in `hay` at position `i`.
pub open spec fn occurs_at(hay: Seq<char>, needle: Seq<char>, i: int) -> bool {
    0 <= i && i + needle.len() <= hay.len() && hay.subrange(i, i + needle.len()) == needle
}

/// Whether `needle` occurs in `hay`, as `str::contains` tells.
pub open spec fn contains(hay: Seq<char>, needle: Seq<char>) -> bool {
    exists|i: int| occurs_at(hay, needle, i)
}

/// Whether `s` begins with `p`.
pub open spec fn starts_with(s: Seq<char>, p: Seq<char>) -> bool {
    occurs_at(s, p, 0)
}

/// `s` without any occurrence of `c`, as `str::replace(c, "")` gives it.
pub open spec fn without_char(s: Seq<char>, c: char) -> Seq<char>
    decreases s.len(),
{
    if s.len() == 0 {
        s
    } else if s.last() == c {
        without_char(s.drop_last(), c)
    } else {
        without_char(s.drop_last(), c).push(s.last())
    }
}

/// `s` without the copies of `c` at its end, as `str::trim_end_matches(c)` gives it.
pub open spec fn strip_trailing(s: Seq<char>, c: char) -> Seq<char>
    decreases s.len(),
{
    if s.len() > 0 && s.last() == c {
        strip_trailing(s.drop_last(), c)
    } else {
        s
    }
}

/// `s` without the copies of `c` at its start, as `str::trim_start_matches(c)` gives it.
pub open spec fn strip_leading(s: Seq<char>, c: char) -> Seq<char>
    decreases s.len(),
{
    if s.len() > 0 && s[0] == c {
        strip_leading(s.drop_first(), c)
    } else {
        s
    }
}

/// `s` without the prefix `p`, as `str::strip_prefix(p)` gives it.
pub open spec fn strip_prefix(s: Seq<char>, p: Seq<char>) -> Option<Seq<char>> {
    if starts_with(s, p) {
        Some(s.skip(p.len() as int))
    } else {
        None
    }
}

/// `s` with each occurrence of `p` (taken from the left, without overlap)
/// replaced by `r`, as `str::replace(p, r)` gives it for a non-empty `p`.
pub open spec fn replace_all(s: Seq<char>, p: Seq<char>, r: Seq<char>) -> Seq<char>
    decreases s.len(),
{
    if s.len() == 0 || p.len() == 0 {
        s
    } else if occurs_at(s, p, 0) {
        r + replace_all(s.skip(p.len() as int), p, r)
    } else {
        seq![s[0]] + replace_all(s.drop_first(), p, r)
    }
}

/// The number of bytes of a character in UTF-8.
pub open spec fn utf8_width(c: char) -> nat {
    let u = c as int;
    if u < 0x80 {
        1
    } else if u < 0x800 {
        2
    } else if u < 0x10000 {
        3
    } else {
        4
    }
}

/// The number of bytes of `s` in UTF-8, as `str::len` gives it.
pub open spec fn byte_len(s: Seq<char>) -> nat
    decreases s.len(),
{
    if s.len() == 0 {
        0
    } else {
        byte_len(s.drop_last()) + utf8_width(s.last())
    }
}

/// The pieces of `list` in order with `sep` between each two.
pub open spec fn join(list: Seq<Seq<char>>, sep: Seq<char>) -> Seq<char>
    decreases list.len(),
{
    if list.len() == 0 {
        Seq::<char>::empty()
    } else if list.len() == 1 {
        list[0]
    } else {
        join(list.drop_last(), sep) + sep + list.last()
    }
}

/// Whether every character of `s` is white space other than a line feed.
pub open spec fn blank(s: Seq<char>) -> bool {
    forall|k: int| 0 <= k < s.len() ==> is_white(#[trigger] s[k]) && s[k] != '\n'
}

/// Whether `s` holds no line feed.
pub open spec fn one_line(s: Seq<char>) -> bool {
    forall|k: int| 0 <= k < s.len() ==> #[trigger] s[k] != '\n'
}

proof fn lemma_trim_start_blank(q: Seq<char>)
    requires
        blank(q),
    ensures
        trim_start(q) == Seq::<char>::empty(),
    decreases q.len(),
{
    if q.len() > 0 {
        lemma_trim_start_blank(q.drop_first());
    }
}

proof fn lemma_trim_start_prefix(p: Seq<char>, x: Seq<char>)
    requires
        blank(p),
    ensures
        trim_start(p + x) == trim_start(x),
    decreases p.len(),
{
    if p.len() > 0 {
        assert((p + x)[0] == p[0]);
        assert((p + x).drop_first() =~= p.drop_first() + x);
        lemma_trim_start_prefix(p.drop_first(), x);
    } else {
        assert(p + x =~= x);
    }
}

proof fn lemma_trim_start_suffix(a: Seq<char>, q: Seq<char>)
    requires
        blank(q),
    ensures
        trim_start(a).len() > 0 ==> trim_start(a + q) == trim_start(a) + q,
        trim_start(a).len() == 0 ==> trim_start(a + q) == Seq::<char>::empty(),
    decreases a.len(),
{
    if a.len() == 0 {
        assert(a + q =~= q);
        lemma_trim_start_blank(q);
    } else {
        assert((a + q)[0] == a[0]);
        if is_white(a[0]) {
            assert((a + q).drop_first() =~= a.drop_first() + q);
            lemma_trim_start_suffix(a.drop_first(), q);
        }
    }
}

proof fn lemma_trim_end_suffix(x: Seq<char>, q: Seq<char>)
    requires
        blank(q),
    ensures
        trim_end(x + q) == trim_end(x),
    decreases q.len(),
{
    if q.len() > 0 {
        assert((x + q).last() == q.last());
        assert((x + q).drop_last() =~= x + q.drop_last());
        lemma_trim_end_suffix(x, q.drop_last());
    } else {
        assert(x + q =~= x);
    }
}

/// White space around a text does not change the text trimmed.
pub proof fn lemma_trim_padded(p: Seq<char>, l: Seq<char>, q: Seq<char>)
    requires
        blank(p),
        blank(q),
    ensures
        trim(p + l + q) == trim(l),
{
    assert(p + l + q =~= p + (l + q));
    lemma_trim_start_prefix(p, l + q);
    lemma_trim_start_suffix(l, q);
    if trim_start(l).len() > 0 {
        lemma_trim_end_suffix(trim_start(l), q);
    }
}

proof fn lemma_split_char_nonempty(s: Seq<char>, c: char)
    ensures
        split_char(s, c).len() >= 1,
    decreases s.len(),
{
    if s.len() > 0 {
        lemma_split_char_nonempty(s.drop_last(), c);
    }
}

proof fn lemma_split_char_append(b: Seq<char>, t: Seq<char>)
    requires
        one_line(t),
    ensures
        split_char(b + t, '\n') == split_char(b, '\n').drop_last().push(
            split_char(b, '\n').last() + t,
        ),
    decreases t.len(),
{
    lemma_split_char_nonempty(b, '\n');
    let sb = split_char(b, '\n');
    if t.len() == 0 {
        assert(b + t =~= b);
        assert(sb.last() + t =~= sb.last());
        assert(sb.drop_last().push(sb.last()) =~= sb);
    } else {
        assert((b + t).drop_last() =~= b + t.drop_last());
        assert((b + t).last() == t.last());
        assert(t.last() == t[t.len() - 1]);
        lemma_split_char_append(b, t.drop_last());
        assert(sb.last() + t.drop_last() + seq![t.last()] =~= sb.last() + t);
        assert((sb.last() + t.drop_last()).push(t.last()) =~= sb.last() + t);
    }
}

/// Joining lines that hold no line feed with line feeds, and splitting the
/// result at line feeds, gives the lines back.
pub proof fn lemma_split_join(lines: Seq<Seq<char>>)
    requires
        lines.len() > 0,
        forall|i: int| 0 <= i < lines.len() ==> one_line(#[trigger] lines[i]),
    ensures
        split_char(join(lines, seq!['\n']), '\n') == lines,
    decreases lines.len(),
{
    if lines.len() == 1 {
        lemma_split_char_append(Seq::<char>::empty(), lines[0]);
        assert(Seq::<char>::empty() + lines[0] =~= lines[0]);
        assert(seq![lines[0]] =~= lines);
    } else {
        let d = lines.drop_last();
        assert forall|i: int| 0 <= i < d.len() implies one_line(#[trigger] d[i]) by {
            assert(d[i] == lines[i]);
        }
        lemma_split_join(d);
        let b = join(d, seq!['\n']) + seq!['\n'];
        assert(b.drop_last() =~= join(d, seq!['\n']));
        assert(b.last() == '\n');
        assert(lines.last() == lines[lines.len() - 1]);
        lemma_split_char_append(b, lines.last());
        assert(Seq::<char>::empty() + lines.last() =~= lines.last());
        assert(d.push(lines.last()) =~= lines);
    }
}

/// Splitting at line feeds a text made of two texts joined by a line feed
/// gives the lines of the first, then those of the second.
pub proof fn lemma_split_concat(a: Seq<char>, b: Seq<char>)
    ensures
        split_char(a + seq!['\n'] + b, '\n') == split_char(a, '\n') + split_char(b, '\n'),
    decreases b.len(),
{
    let s = a + seq!['\n'] + b;
    if b.len() == 0 {
        assert(s =~= a.push('\n'));
        assert(s.drop_last() =~= a);
        assert(split_char(a, '\n').push(Seq::<char>::empty()) =~= split_char(a, '\n') + split_char(
            b,
            '\n',
        ));
    } else {
        lemma_split_concat(a, b.drop_last());
        lemma_split_char_nonempty(b.drop_last(), '\n');
        assert(s.drop_last() =~= a + seq!['\n'] + b.drop_last());
        assert(s.last() == b.last());
        let x = split_char(a, '\n');
        let y = split_char(b.drop_last(), '\n');
        if b.last() == '\n' {
            assert((x + y).push(Seq::<char>::empty()) =~= x + y.push(Seq::<char>::empty()));
        } else {
            assert((x + y).update((x + y).len() - 1, (x + y).last().push(b.last())) =~= x + y.update(
                y.len() - 1,
                y.last().push(b.last()),
            ));
        }
    }
}

/// Splitting at line feeds a text that begins with a character other than a
/// line feed gives the lines of the rest, the first with that character put
/// before it.
pub proof fn lemma_split_prepend(c: char, t: Seq<char>)
    requires
        c != '\n',
    ensures
        split_char(seq![c] + t, '\n') == split_char(t, '\n').update(
            0,
            seq![c] + split_char(t, '\n')[0],
        ),
    decreases t.len(),
{
    let s = seq![c] + t;
    if t.len() == 0 {
        assert(s =~= seq![c]);
        assert(s.drop_last() =~= Seq::<char>::empty());
        assert(t =~= Seq::<char>::empty());
        assert(s.last() == c);
        let e = Seq::<char>::empty();
        assert(split_char(e, '\n') == seq![e]);
        assert(split_char(s, '\n') == seq![e].update(0, e.push(c)));
        assert(e.push(c) =~= seq![c] + e);
        assert(split_char(s, '\n') =~= split_char(t, '\n').update(0, seq![c] + split_char(t, '\n')[0]));
    } else {
        lemma_split_prepend(c, t.drop_last());
        lemma_split_char_nonempty(t.drop_last(), '\n');
        assert(s.drop_last() =~= seq![c] + t.drop_last());
        assert(s.last() == t.last());
        let y = split_char(t.drop_last(), '\n');
        let yp = y.update(0, seq![c] + y[0]);
        if t.last() == '\n' {
            assert(yp.push(Seq::<char>::empty()) =~= y.push(Seq::<char>::empty()).update(
                0,
                seq![c] + y.push(Seq::<char>::empty())[0],
            ));
        } else {
            let z = y.update(y.len() - 1, y.last().push(t.last()));
            if y.len() == 1 {
                assert((seq![c] + y[0]).push(t.last()) =~= seq![c] + y[0].push(t.last()));
                assert(yp.update(yp.len() - 1, yp.last().push(t.last())) =~= z.update(
                    0,
                    seq![c] + z[0],
                ));
            } else {
                assert(yp.update(yp.len() - 1, yp.last().push(t.last())) =~= z.update(
                    0,
                    seq![c] + z[0],
                ));
            }
        }
    }
}

/// Whether `v` is `u`, or `u` with a carriage return after it.
pub open spec fn same_or_cr(u: Seq<char>, v: Seq<char>) -> bool {
    v == u || v == u.push('\r')
}

/// Replacing each carriage return and line feed by a line feed changes the
/// lines of a text at most by taking away a carriage return at their end.
pub proof fn lemma_split_crlf(s: Seq<char>)
    ensures
        ({
            let u = split_char(replace_all(s, seq!['\r', '\n'], seq!['\n']), '\n');
            let v = split_char(s, '\n');
            &&& u.len() == v.len()
            &&& forall|i: int| 0 <= i < u.len() ==> same_or_cr(#[trigger] u[i], v[i])
        }),
    decreases s.len(),
{
    let p = seq!['\r', '\n'];
    let r = seq!['\n'];
    let e = Seq::<char>::empty();
    if s.len() == 0 {
    } else if occurs_at(s, p, 0) {
        let t = s.skip(2);
        lemma_split_crlf(t);
        assert(s.subrange(0, 2) =~= p);
        assert(s[0] == '\r' && s[1] == '\n');
        assert(s =~= seq!['\r'] + seq!['\n'] + t);
        lemma_split_concat(seq!['\r'], t);
        let rt = replace_all(t, p, r);
        assert(replace_all(s, p, r) == r + rt);
        assert(r + rt =~= e + seq!['\n'] + rt);
        lemma_split_concat(e, rt);
        lemma_split_concat(e, e);
        assert(split_char(seq!['\r'], '\n') =~= seq![seq!['\r']]) by {
            assert(seq!['\r'].drop_last() =~= e);
            assert(e.push('\r') =~= seq!['\r']);
        }
        let uu = split_char(rt, '\n');
        let vv = split_char(t, '\n');
        assert(e.push('\r') =~= seq!['\r']);
        assert forall|i: int| 0 <= i < uu.len() + 1 implies same_or_cr(
            #[trigger] (seq![e] + uu)[i],
            (seq![seq!['\r']] + vv)[i],
        ) by {
            if i > 0 {
                assert((seq![e] + uu)[i] == uu[i - 1]);
                assert((seq![seq!['\r']] + vv)[i] == vv[i - 1]);
            }
        }
    } else {
        let c = s[0];
        let t = s.drop_first();
        lemma_split_crlf(t);
        assert(s =~= seq![c] + t);
        let rt = replace_all(t, p, r);
        assert(replace_all(s, p, r) == seq![c] + rt);
        let uu = split_char(rt, '\n');
        let vv = split_char(t, '\n');
        lemma_split_char_nonempty(rt, '\n');
        lemma_split_char_nonempty(t, '\n');
        if c == '\n' {
            assert(seq![c] + t =~= e + seq!['\n'] + t);
            assert(seq![c] + rt =~= e + seq!['\n'] + rt);
            lemma_split_concat(e, t);
            lemma_split_concat(e, rt);
            assert forall|i: int| 0 <= i < uu.len() + 1 implies same_or_cr(
                #[trigger] (seq![e] + uu)[i],
                (seq![e] + vv)[i],
            ) by {
                if i > 0 {
                    assert((seq![e] + uu)[i] == uu[i - 1]);
                    assert((seq![e] + vv)[i] == vv[i - 1]);
                }
            }
        } else {
            lemma_split_prepend(c, t);
            lemma_split_prepend(c, rt);
            assert(same_or_cr(uu[0], vv[0]));
            if vv[0] != uu[0] {
                assert(seq![c] + uu[0].push('\r') =~= (seq![c] + uu[0]).push('\r'));
            }
        }
    }
}

/// Lexicographic order of strings by code point, the order of `String`.
pub open spec fn text_le(a: Seq<char>, b: Seq<char>) -> bool
    decreases a.len(),
{
    if a.len() == 0 {
        true
    } else if b.len() == 0 {
        false
    } else if a[0] != b[0] {
        (a[0] as int) < (b[0] as int)
    } else {
        text_le(a.drop_first(), b.drop_first())
    }
}

/// Strict lexicographic order.
pub open spec fn text_lt(a: Seq<char>, b: Seq<char>) -> bool {
    text_le(a, b) && a != b
}

// ----------------------------------------------------------------------------
// Lemmas
// ----------------------------------------------------------------------------

/// Any two strings are ordered one way or the other.
pub proof fn lemma_text_le_total(a: Seq<char>, b: Seq<char>)
    ensures
        text_le(a, b) || text_le(b, a),
    decreases a.len(),
{
    if a.len() > 0 && b.len() > 0 {
        if a[0] == b[0] {
            lemma_text_le_total(a.drop_first(), b.drop_first());
        } else {
            assert((a[0] as int) != (b[0] as int));
        }
    }
}

/// Every string is ordered before or with itself.
pub proof fn lemma_text_le_refl(a: Seq<char>)
    ensures
        text_le(a, a),
    decreases a.len(),
{
    if a.len() > 0 {
        lemma_text_le_refl(a.drop_first());
    }
}

/// Two strings each ordered before or with the other are equal.
pub proof fn lemma_text_le_antisym(a: Seq<char>, b: Seq<char>)
    requires
        text_le(a, b),
        text_le(b, a),
    ensures
        a == b,
    decreases a.len(),
{
    if a.len() > 0 && b.len() > 0 {
        lemma_text_le_antisym(a.drop_first(), b.drop_first());
        assert(a =~= seq![a[0]] + a.drop_first());
        assert(b =~= seq![b[0]] + b.drop_first());
    }
}

/// The order of strings is transitive.
pub proof fn lemma_text_le_trans(a: Seq<char>, b: Seq<char>, c: Seq<char>)
    requires
        text_le(a, b),
        text_le(b, c),
    ensures
        text_le(a, c),
    decreases a.len(),
{
    if a.len() > 0 && b.len() > 0 && c.len() > 0 && a[0] == b[0] && b[0] == c[0] {
        lemma_text_le_trans(a.drop_first(), b.drop_first(), c.drop_first());
    }
}

proof fn lemma_trim_start_first(s: Seq<char>)
    ensures
        trim_start(s).len() == 0 || !is_white(trim_start(s)[0]),
    decreases s.len(),
{
    if s.len() > 0 && is_white(s[0]) {
        lemma_trim_start_first(s.drop_first());
    }
}

proof fn lemma_trim_end_prefix(s: Seq<char>)
    ensures
        trim_end(s).len() <= s.len(),
        trim_end(s) == s.take(trim_end(s).len() as int),
        trim_end(s).len() == 0 || !is_white(trim_end(s).last()),
    decreases s.len(),
{
    if s.len() > 0 && is_white(s.last()) {
        lemma_trim_end_prefix(s.drop_last());
        assert(s.drop_last().take(trim_end(s).len() as int) =~= s.take(trim_end(s).len() as int));
    } else {
        assert(s.take(s.len() as int) =~= s);
    }
}

/// Trimming twice is trimming once.
pub proof fn lemma_trim_idempotent(s: Seq<char>)
    ensures
        trim(trim(s)) == trim(s),
{
    let a = trim_start(s);
    let b = trim_end(a);
    lemma_trim_start_first(s);
    lemma_trim_end_prefix(a);
    if b.len() > 0 {
        assert(b[0] == a[0]);
    }
    assert(trim_start(b) == b);
}

proof fn lemma_digits_value_prefix(s: Seq<char>, i: int)
    requires
        0 <= i <= s.len(),
    ensures
        digits_value(s.take(i)) <= digits_value(s),
    decreases s.len(),
{
    if i < s.len() {
        assert(s.drop_last().take(i) =~= s.take(i));
        lemma_digits_value_prefix(s.drop_last(), i);
    } else {
        assert(s.take(i) =~= s);
    }
}

proof fn lemma_byte_len_ge_len(s: Seq<char>)
    ensures
        byte_len(s) >= s.len(),
    decreases s.len(),
{
    if s.len() > 0 {
        lemma_byte_len_ge_len(s.drop_last());
    }
}

// ----------------------------------------------------------------------------
// Executable versions
// ----------------------------------------------------------------------------

/// The characters of a string slice, in order.
pub fn chars_of(s: &str) -> (out: Vec<char>)
    ensures
        out@ == s@,
{
    let mut out: Vec<char> = Vec::new();
    for c in it: s.chars()
        invariant
            out@ == it.seq().take(it.index()),
            it.seq() == s@,
    {
        out.push(c);
    }
    out
}

/// A `String` holding the given characters (`String: FromIterator<&char>`).
#[verifier::external_body]
pub(crate) fn string_of(v: &[char]) -> (out: String)
    ensures
        out@ == v@,
{
    v.iter().collect()
}

/// A copy of a string.
pub fn copy_string(s: &String) -> (out: String)
    ensures
        out@ == s@,
{
    s.clone()
}

pub fn char_is_white(c: char) -> (b: bool)
    ensures
        b == is_white(c),
{
    let u = c as u32;
    (0x09 <= u && u <= 0x0d) || u == 0x20 || u == 0x85 || u == 0xa0 || u == 0x1680 || (0x2000 <= u
        && u <= 0x200a) || u == 0x2028 || u == 0x2029 || u == 0x202f || u == 0x205f || u == 0x3000
}

/// The characters `s[from..to]`.
pub fn slice_chars(s: &[char], from: usize, to: usize) -> (out: Vec<char>)
    requires
        from <= to <= s.len(),
    ensures
        out@ == s@.subrange(from as int, to as int),
{
    let mut out: Vec<char> = Vec::new();
    let mut i = from;
    while i < to
        invariant
            from <= i <= to <= s.len(),
            out@ == s@.subrange(from as int, i as int),
        decreases to - i,
    {
        out.push(s[i]);
        i += 1;
    }
    out
}

/// `s` without leading and trailing white space.
pub fn trim_chars(s: &[char]) -> (out: Vec<char>)
    ensures
        out@ == trim(s@),
{
    let n = s.len();
    let mut a: usize = 0;
    assert(s@.skip(0) =~= s@);
    while a < n && char_is_white(s[a])
        invariant
            a <= n == s@.len(),
            trim_start(s@) == trim_start(s@.skip(a as int)),
        decreases n - a,
    {
        assert(s@.skip(a as int).drop_first() =~= s@.skip(a + 1));
        a += 1;
    }
    assert(trim_start(s@) == s@.skip(a as int));
    let mut b: usize = n;
    while b > a && char_is_white(s[b - 1])
        invariant
            a <= b <= n == s@.len(),
            trim(s@) == trim_end(s@.subrange(a as int, b as int)),
        decreases b,
    {
        assert(s@.subrange(a as int, b as int).drop_last() =~= s@.subrange(a as int, b - 1));
        b -= 1;
    }
    slice_chars(s, a, b)
}

/// A trimmed copy of a string.
pub fn trim_string(s: &String) -> (out: String)
    ensures
        out@ == trim(s@),
{
    let v = chars_of(s.as_str());
    let t = trim_chars(&v);
    string_of(&t)
}

pub fn char_upper(c: char) -> (out: char)
    ensures
        out == upper_char(c),
{
    if 'a' <= c && c <= 'z' {
        let u: u32 = (c as u32) - 32;
        let b: u8 = u as u8;
        assert(b == u);
        b as char
    } else {
        c
    }
}

/// `s` with ASCII letters made upper case.
pub fn upper_chars(s: &[char]) -> (out: Vec<char>)
    ensures
        out@ == upper(s@),
{
    let mut out: Vec<char> = Vec::new();
    let mut i: usize = 0;
    while i < s.len()
        invariant
            i <= s.len(),
            out@ == upper(s@.take(i as int)),
        decreases s.len() - i,
    {
        out.push(char_upper(s[i]));
        assert(upper(s@.take(i + 1)) =~= upper(s@.take(i as int)).push(upper_char(s@[i as int])));
        i += 1;
    }
    assert(s@.take(s.len() as int) =~= s@);
    out
}

/// An upper-case copy of a string.
pub fn upper_string(s: &String) -> (out: String)
    ensures
        out@ == upper(s@),
{
    let v = chars_of(s.as_str());
    let u = upper_chars(&v);
    string_of(&u)
}

/// Parses a decimal number as `str::parse::<usize>` does.
pub fn parse_usize_chars(s: &[char]) -> (out: Option<usize>)
    ensures
        out == parse_usize(s@),
{
    let n = s.len();
    let start: usize = if n > 0 && s[0] == '+' {
        1
    } else {
        0
    };
    let ghost d = if s@.len() > 0 && s@[0] == '+' {
        s@.drop_first()
    } else {
        s@
    };
    assert(d =~= s@.skip(start as int));
    if start == n {
        return None;
    }
    let mut v: usize = 0;
    let mut i: usize = start;
    while i < n
        invariant
            start <= i <= n == s@.len(),
            d == s@.skip(start as int),
            d == (if s@.len() > 0 && s@[0] == '+' {
                s@.drop_first()
            } else {
                s@
            }),
            all_digits(d.take(i - start)),
            v == digits_value(d.take(i - start)),
        decreases n - i,
    {
        let c = s[i];
        if !('0' <= c && c <= '9') {
            assert(d[i - start] == c);
            assert(!is_digit(d[i - start]));
            return None;
        }
        let ghost k = (i - start) as int;
        assert(d.take(k + 1).drop_last() =~= d.take(k));
        assert(d.take(k + 1).last() == c);
        let digit: usize = ((c as u32) - ('0' as u32)) as usize;
        assert(digits_value(d.take(k + 1)) == v * 10 + digit);
        match v.checked_mul(10) {
            Some(t) => match t.checked_add(digit) {
                Some(w) => {
                    v = w;
                },
                None => {
                    proof {
                        lemma_digits_value_prefix(d, k + 1);
                    }
                    return None;
                },
            },
            None => {
                proof {
                    lemma_digits_value_prefix(d, k + 1);
                }
                return None;
            },
        }
        i += 1;
    }
    assert(d.take(n - start) =~= d);
    Some(v)
}

/// Parses a decimal number held in a string.
pub fn parse_usize_string(s: &String) -> (out: Option<usize>)
    ensures
        out == parse_usize(s@),
{
    let v = chars_of(s.as_str());
    parse_usize_chars(&v)
}

/// Whether two character sequences are equal.
pub fn chars_eq(a: &[char], b: &[char]) -> (out: bool)
    ensures
        out == (a@ == b@),
{
    if a.len() != b.len() {
        return false;
    }
    let mut i: usize = 0;
    while i < a.len()
        invariant
            i <= a.len() == b.len(),
            forall|j: int| 0 <= j < i ==> a@[j] == b@[j],
        decreases a.len() - i,
    {
        if a[i] != b[i] {
            return false;
        }
        i += 1;
    }
    assert(a@ =~= b@);
    true
}

/// Whether a string equals the given text.
pub fn string_is(s: &String, t: &str) -> (out: bool)
    ensures
        out == (s@ == t@),
{
    let a = chars_of(s.as_str());
    let b = chars_of(t);
    chars_eq(&a, &b)
}

/// Whether `needle` occurs in `hay` at position `i`.
pub fn occurs_at_exec(hay: &[char], needle: &[char], i: usize) -> (out: bool)
    ensures
        out == occurs_at(hay@, needle@, i as int),
{
    if i > hay.len() || needle.len() > hay.len() - i {
        return false;
    }
    let mut j: usize = 0;
    while j < needle.len()
        invariant
            j <= needle.len(),
            i + needle.len() <= hay.len(),
            forall|k: int| 0 <= k < j ==> hay@[i + k] == needle@[k],
        decreases needle.len() - j,
    {
        if hay[i + j] != needle[j] {
            assert(hay@.subrange(i as int, i + needle.len())[j as int] != needle@[j as int]);
            return false;
        }
        j += 1;
    }
    assert(hay@.subrange(i as int, i + needle.len()) =~= needle@);
    true
}

/// Whether `needle` occurs in `hay`.
pub fn contains_chars(hay: &[char], needle: &[char]) -> (out: bool)
    ensures
        out == contains(hay@, needle@),
{
    if needle.len() > hay.len() {
        return false;
    }
    let last = hay.len() - needle.len();
    let mut i: usize = 0;
    while i < last
        invariant
            i <= last == hay.len() - needle.len(),
            forall|k: int| 0 <= k < i ==> !occurs_at(hay@, needle@, k),
        decreases last - i,
    {
        if occurs_at_exec(hay, needle, i) {
            return true;
        }
        i += 1;
    }
    if occurs_at_exec(hay, needle, last) {
        return true;
    }
    assert forall|k: int| !occurs_at(hay@, needle@, k) by {
        if 0 <= k < last {
        }
    }
    false
}

/// Whether a string contains the given text.
pub fn string_contains(s: &String, t: &str) -> (out: bool)
    ensures
        out == contains(s@, t@),
{
    let a = chars_of(s.as_str());
    let b = chars_of(t);
    contains_chars(&a, &b)
}

/// `s` without any occurrence of `c`.
pub fn without_char_chars(s: &[char], c: char) -> (out: Vec<char>)
    ensures
        out@ == without_char(s@, c),
{
    let mut out: Vec<char> = Vec::new();
    let mut i: usize = 0;
    while i < s.len()
        invariant
            i <= s.len(),
            out@ == without_char(s@.take(i as int), c),
        decreases s.len() - i,
    {
        assert(s@.take(i + 1).drop_last() =~= s@.take(i as int));
        if s[i] != c {
            out.push(s[i]);
        }
        i += 1;
    }
    assert(s@.take(s.len() as int) =~= s@);
    out
}

/// The pieces of `s` between the occurrences of `c`.
pub fn split_chars(s: &[char], c: char) -> (out: Vec<Vec<char>>)
    ensures
        views(out@) == split_char(s@, c),
{
    let mut done: Vec<Vec<char>> = Vec::new();
    let mut cur: Vec<char> = Vec::new();
    let mut i: usize = 0;
    while i < s.len()
        invariant
            i <= s.len(),
            views(done@).push(cur@) == split_char(s@.take(i as int), c),
        decreases s.len() - i,
    {
        assert(s@.take(i + 1).drop_last() =~= s@.take(i as int));
        let ghost before = views(done@).push(cur@);
        if s[i] == c {
            let finished = cur;
            done.push(finished);
            cur = Vec::new();
            assert(views(done@).push(cur@) =~= before.push(Seq::<char>::empty()));
        } else {
            cur.push(s[i]);
            assert(views(done@).push(cur@) =~= before.update(
                before.len() - 1,
                before.last().push(s@[i as int]),
            ));
        }
        i += 1;
    }
    assert(s@.take(s.len() as int) =~= s@);
    done.push(cur);
    done
}

/// `s` without the copies of `c` at its end.
pub fn strip_trailing_chars(s: &[char], c: char) -> (out: Vec<char>)
    ensures
        out@ == strip_trailing(s@, c),
{
    let mut b: usize = s.len();
    assert(s@.take(b as int) =~= s@);
    while b > 0 && s[b - 1] == c
        invariant
            b <= s.len(),
            strip_trailing(s@, c) == strip_trailing(s@.take(b as int), c),
        decreases b,
    {
        assert(s@.take(b as int).drop_last() =~= s@.take(b - 1));
        b -= 1;
    }
    slice_chars(s, 0, b)
}

/// `s` without the copies of `c` at its start.
pub fn strip_leading_chars(s: &[char], c: char) -> (out: Vec<char>)
    ensures
        out@ == strip_leading(s@, c),
{
    let mut a: usize = 0;
    assert(s@.skip(0) =~= s@);
    while a < s.len() && s[a] == c
        invariant
            a <= s.len(),
            strip_leading(s@, c) == strip_leading(s@.skip(a as int), c),
        decreases s.len() - a,
    {
        assert(s@.skip(a as int).drop_first() =~= s@.skip(a + 1));
        a += 1;
    }
    assert(s@.subrange(a as int, s.len() as int) =~= s@.skip(a as int));
    slice_chars(s, a, s.len())
}

/// `s` without the prefix `p`, or `None` where `s` does not start with it.
pub fn strip_prefix_chars(s: &[char], p: &[char]) -> (out: Option<Vec<char>>)
    ensures
        out matches Some(v) ==> strip_prefix(s@, p@) == Some(v@),
        out is None ==> strip_prefix(s@, p@) is None,
{
    if occurs_at_exec(s, p, 0) {
        let v = slice_chars(s, p.len(), s.len());
        assert(v@ =~= s@.skip(p.len() as int));
        Some(v)
    } else {
        None
    }
}

/// Whether `s` starts with `p`.
pub fn starts_with_chars(s: &[char], p: &[char]) -> (out: bool)
    ensures
        out == starts_with(s@, p@),
{
    occurs_at_exec(s, p, 0)
}

/// `s` with each occurrence of `p` replaced by `r`.
pub fn replace_all_chars(s: &[char], p: &[char], r: &[char]) -> (out: Vec<char>)
    requires
        p.len() > 0,
    ensures
        out@ == replace_all(s@, p@, r@),
{
    let mut out: Vec<char> = Vec::new();
    let mut i: usize = 0;
    assert(s@.skip(0) =~= s@);
    while i < s.len()
        invariant
            i <= s.len(),
            p@.len() > 0,
            out@ + replace_all(s@.skip(i as int), p@, r@) == replace_all(s@, p@, r@),
        decreases s.len() - i,
    {
        let ghost t = s@.skip(i as int);
        if occurs_at_exec(s, p, i) {
            assert(t.subrange(0, p@.len() as int) =~= s@.subrange(i as int, i + p@.len()));
            assert(occurs_at(t, p@, 0));
            assert(t.skip(p@.len() as int) =~= s@.skip(i + p@.len()));
            push_all(&mut out, r);
            i += p.len();
        } else {
            proof {
                if occurs_at(t, p@, 0) {
                    assert(t.subrange(0, p@.len() as int) =~= s@.subrange(i as int, i + p@.len()));
                }
            }
            assert(t.drop_first() =~= s@.skip(i + 1));
            out.push(s[i]);
            i += 1;
        }
    }
    assert(s@.skip(i as int) =~= Seq::<char>::empty());
    out
}

/// Whether a string is longer than one byte in UTF-8.
pub fn more_than_one_byte(s: &[char]) -> (out: bool)
    ensures
        out == (byte_len(s@) > 1),
{
    proof {
        lemma_byte_len_ge_len(s@);
        if s@.len() == 1 {
            assert(s@.drop_last() =~= Seq::<char>::empty());
            assert(byte_len(s@.drop_last()) == 0);
            assert(s@.last() == s@[0]);
            assert(byte_len(s@) == utf8_width(s@[0]));
        }
    }
    s.len() >= 2 || (s.len() == 1 && s[0] >= '\u{80}')
}

/// Whether `a` comes before or with `b` in the order of strings.
pub fn chars_le(a: &[char], b: &[char]) -> (out: bool)
    ensures
        out == text_le(a@, b@),
{
    let mut i: usize = 0;
    assert(a@.skip(0) =~= a@ && b@.skip(0) =~= b@);
    while i < a.len() && i < b.len() && a[i] == b[i]
        invariant
            i <= a.len(),
            i <= b.len(),
            text_le(a@, b@) == text_le(a@.skip(i as int), b@.skip(i as int)),
        decreases a.len() - i,
    {
        assert(a@.skip(i as int).drop_first() =~= a@.skip(i + 1));
        assert(b@.skip(i as int).drop_first() =~= b@.skip(i + 1));
        i += 1;
    }
    if i == a.len() {
        true
    } else if i == b.len() {
        false
    } else {
        a[i] < b[i]
    }
}

/// Whether string `a` comes before or with string `b`.
pub fn string_le(a: &String, b: &String) -> (out: bool)
    ensures
        out == text_le(a@, b@),
{
    let x = chars_of(a.as_str());
    let y = chars_of(b.as_str());
    chars_le(&x, &y)
}

/// Appends the characters of `t` to `out`.
pub fn push_all(out: &mut Vec<char>, t: &[char])
    ensures
        final(out)@ == old(out)@ + t@,
{
    let mut i: usize = 0;
    while i < t.len()
        invariant
            i <= t.len(),
            out@ == old(out)@ + t@.take(i as int),
        decreases t.len() - i,
    {
        out.push(t[i]);
        assert(old(out)@ + t@.take(i + 1) =~= old(out)@ + t@.take(i as int) + seq![t@[i as int]]);
        i += 1;
    }
    assert(t@.take(t.len() as int) =~= t@);
}

/// The pieces of `list` in order with `sep` between each two.
pub fn join_chars(list: &Vec<Vec<char>>, sep: &[char]) -> (out: Vec<char>)
    ensures
        out@ == join(views(list@), sep@),
{
    let mut out: Vec<char> = Vec::new();
    let mut i: usize = 0;
    while i < list.len()
        invariant
            i <= list.len(),
            out@ == join(views(list@).take(i as int), sep@),
        decreases list.len() - i,
    {
        let ghost l = views(list@);
        assert(l.take(i + 1).drop_last() =~= l.take(i as int));
        assert(l.take(i + 1).last() == list[i as int]@);
        if i > 0 {
            push_all(&mut out, sep);
        }
        push_all(&mut out, &list[i]);
        proof {
            if i == 0 {
                assert(out@ =~= l.take(1)[0]);
            }
        }
        i += 1;
    }
    assert(views(list@).take(list.len() as int) =~= views(list@));
    out
}

} // verus!
