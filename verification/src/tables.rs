//! Roll tables: numbered options such as "01-20 A storm breaks".

use vstd::prelude::*;
use crate::pattern::{Pattern, pattern_compiles, pattern_captures};
use crate::text::{trim, parse_usize, split_char, without_char, views, chars_of, trim_chars,
    string_of, split_chars, string_is, parse_usize_string, trim_string, without_char_chars, join,
    blank, one_line, lemma_trim_padded, lemma_split_join, lemma_split_concat, lemma_split_crlf,
    replace_all, same_or_cr};
use crate::fields::{grp, trimmed, upper_trimmed, group, group_trimmed, group_upper_trimmed};
use crate::translit::{transliterate, transliterated};

verus! {

/// One line of a roll table: `start[-end] entry`.
pub const OPTION_ROLL_PATTERN: &'static str = r"(?P<start>\d+)(-(?P<end>\d+))? (?P<entry>.*)";

/// A whole option table followed by a blank line, as the random tables file holds them.
pub const TABLES_PATTERN: &'static str = r#"(?mi)(?P<option_table>((?P<named>NAMED\s*)?OPTION TABLE[^\S\r\n]*(?P<option_name>.*)?(\n\s*(?P<option_description>[^\d].*)\s*\n)?(?P<options>[\W\w]*?)))\n\n"#;

/// What marks a table of GM intrusions.
pub const INTRUSION_PATTERN: &'static str = r"(?i)intrusion";

pub struct Amount {
    pub tier: usize,
    pub special_abilities: usize,
}

pub struct RollEntry {
    pub start: usize,
    pub end: usize,
    pub entry: String,
}

pub struct RollTable {
    pub name: Option<String>,
    pub description: Option<String>,
    pub table: Vec<RollEntry>,
}

pub struct RollEntryView {
    pub start: usize,
    pub end: usize,
    pub entry: Seq<char>,
}

pub struct RollTableView {
    pub name: Option<Seq<char>>,
    pub description: Option<Seq<char>>,
    pub table: Seq<RollEntryView>,
}

impl View for RollEntry {
    type V = RollEntryView;

    open spec fn view(&self) -> RollEntryView {
        RollEntryView { start: self.start, end: self.end, entry: self.entry@ }
    }
}

pub open spec fn entries_view(v: Seq<RollEntry>) -> Seq<RollEntryView> {
    v.map_values(|e: RollEntry| e@)
}

impl View for RollTable {
    type V = RollTableView;

    open spec fn view(&self) -> RollTableView {
        RollTableView {
            name: self.name.deep_view(),
            description: self.description.deep_view(),
            table: entries_view(self.table@),
        }
    }
}

pub open spec fn tables_view(v: Seq<RollTable>) -> Seq<RollTableView> {
    v.map_values(|t: RollTable| t@)
}

/// The groups read from a roll line.
pub open spec fn roll_groups() -> Seq<Seq<char>> {
    seq!["start"@, "end"@, "entry"@]
}

/// The number a roll bound stands for: "00" is 100.
pub open spec fn roll_number(s: Seq<char>) -> Option<usize> {
    if trim(s) == "00"@ {
        Some(100)
    } else {
        parse_usize(trim(s))
    }
}

/// The entry that a match of `OPTION_ROLL_PATTERN` describes: the end
/// defaults to the start; `None` where a bound is not a number that fits.
pub open spec fn roll_entry_of(m: Seq<Option<Seq<char>>>) -> Option<RollEntryView> {
    match (grp(m, 0), grp(m, 2)) {
        (Some(a), Some(e)) => match roll_number(a) {
            Some(start) => {
                let end = match grp(m, 1) {
                    Some(b) => roll_number(b),
                    None => Some(start),
                };
                match end {
                    Some(end) => Some(RollEntryView { start, end, entry: trim(e) }),
                    None => None,
                }
            },
            None => None,
        },
        _ => None,
    }
}

/// The lines of a table, each trimmed.
pub open spec fn table_lines(input: Seq<char>) -> Seq<Seq<char>> {
    split_char(input, '\n').map_values(|l: Seq<char>| trim(l))
}

/// The entries of the lines that match `OPTION_ROLL_PATTERN`, each read from
/// its first match; `None` where one of them cannot be read.
pub open spec fn entries_of_lines(lines: Seq<Seq<char>>) -> Option<Seq<RollEntryView>>
    decreases lines.len(),
{
    if lines.len() == 0 {
        Some(Seq::<RollEntryView>::empty())
    } else {
        match entries_of_lines(lines.drop_last()) {
            None => None,
            Some(prev) => {
                let ms = pattern_captures(OPTION_ROLL_PATTERN@, lines.last(), roll_groups());
                if ms.len() == 0 {
                    Some(prev)
                } else {
                    match roll_entry_of(ms[0]) {
                        Some(e) => Some(prev.push(e)),
                        None => None,
                    }
                }
            },
        }
    }
}

/// The option table held in `input`.
pub open spec fn option_table_of(input: Seq<char>) -> Option<Seq<RollEntryView>> {
    if pattern_compiles(OPTION_ROLL_PATTERN@) {
        entries_of_lines(table_lines(input))
    } else {
        None
    }
}

/// The entries of two runs of lines, one after the other.
pub open spec fn entries_joined(
    x: Option<Seq<RollEntryView>>,
    y: Option<Seq<RollEntryView>>,
) -> Option<Seq<RollEntryView>> {
    match (x, y) {
        (Some(a), Some(b)) => Some(a + b),
        _ => None,
    }
}

proof fn lemma_entries_concat(l1: Seq<Seq<char>>, l2: Seq<Seq<char>>)
    ensures
        entries_of_lines(l1 + l2) == entries_joined(entries_of_lines(l1), entries_of_lines(l2)),
    decreases l2.len(),
{
    if l2.len() == 0 {
        assert(l1 + l2 =~= l1);
        if let Some(x) = entries_of_lines(l1) {
            assert(x + Seq::<RollEntryView>::empty() =~= x);
        }
    } else {
        lemma_entries_concat(l1, l2.drop_last());
        assert((l1 + l2).drop_last() =~= l1 + l2.drop_last());
        assert((l1 + l2).last() == l2.last());
        if let (Some(x), Some(y)) = (entries_of_lines(l1), entries_of_lines(l2.drop_last())) {
            let ms = pattern_captures(OPTION_ROLL_PATTERN@, l2.last(), roll_groups());
            if ms.len() > 0 {
                if let Some(e) = roll_entry_of(ms[0]) {
                    assert((x + y).push(e) =~= x + y.push(e));
                }
            }
        }
    }
}

/// The option table of two texts joined by a line feed is the table of the
/// first followed by the table of the second; there is none where either
/// has none.
pub proof fn lemma_option_table_concat(a: Seq<char>, b: Seq<char>)
    ensures
        option_table_of(a + seq!['\n'] + b) == entries_joined(option_table_of(a), option_table_of(b)),
{
    lemma_split_concat(a, b);
    assert(table_lines(a + seq!['\n'] + b) =~= table_lines(a) + table_lines(b));
    lemma_entries_concat(table_lines(a), table_lines(b));
}

/// Carriage returns before line feeds change nothing: a text whose carriage
/// return and line feed pairs are replaced by line feeds gives the same
/// option table.
pub proof fn lemma_option_table_crlf(s: Seq<char>)
    ensures
        option_table_of(replace_all(s, seq!['\r', '\n'], seq!['\n'])) == option_table_of(s),
{
    let t = replace_all(s, seq!['\r', '\n'], seq!['\n']);
    lemma_split_crlf(s);
    let u = split_char(t, '\n');
    let v = split_char(s, '\n');
    assert forall|i: int| 0 <= i < u.len() implies trim(#[trigger] u[i]) == trim(v[i]) by {
        if v[i] != u[i] {
            lemma_trim_padded(Seq::<char>::empty(), u[i], seq!['\r']);
            assert(Seq::<char>::empty() + u[i] + seq!['\r'] =~= u[i].push('\r'));
        }
    }
    assert(table_lines(t) =~= table_lines(s));
}

/// The lines `lines`, each with `p` before it and `q` after it.
pub open spec fn padded_lines(lines: Seq<Seq<char>>, p: Seq<char>, q: Seq<char>) -> Seq<Seq<char>> {
    lines.map_values(|l: Seq<char>| p + l + q)
}

/// White space around the lines of an option table (other than line feeds)
/// changes nothing, as each line is read trimmed: indented lines, trailing
/// blanks, and carriage returns before the line feeds (`q` a carriage
/// return) give the same table.
pub proof fn lemma_option_table_padding(lines: Seq<Seq<char>>, p: Seq<char>, q: Seq<char>)
    requires
        forall|i: int| 0 <= i < lines.len() ==> one_line(#[trigger] lines[i]),
        blank(p),
        blank(q),
    ensures
        option_table_of(join(padded_lines(lines, p, q), seq!['\n'])) == option_table_of(
            join(lines, seq!['\n']),
        ),
{
    let padded = padded_lines(lines, p, q);
    if lines.len() > 0 {
        lemma_split_join(lines);
        assert forall|i: int| 0 <= i < padded.len() implies one_line(#[trigger] padded[i]) by {
            assert(padded[i] == p + lines[i] + q);
            assert forall|k: int| 0 <= k < padded[i].len() implies #[trigger] padded[i][k] != '\n' by {
                if k < p.len() {
                    assert(padded[i][k] == p[k]);
                } else if k < p.len() + lines[i].len() {
                    assert(padded[i][k] == lines[i][k - p.len()]);
                } else {
                    assert(padded[i][k] == q[k - p.len() - lines[i].len()]);
                }
            }
        }
        lemma_split_join(padded);
        assert forall|i: int| 0 <= i < lines.len() implies trim(#[trigger] padded[i]) == trim(
            lines[i],
        ) by {
            lemma_trim_padded(p, lines[i], q);
        }
        assert(table_lines(join(padded, seq!['\n'])) =~= table_lines(join(lines, seq!['\n'])));
    } else {
        assert(padded =~= lines);
    }
}


/// The table named `name` (upper-cased and trimmed), described by
/// `description` (trimmed), whose entries are the lines of `options` (trimmed).
pub open spec fn roll_table_of(
    name: Option<Seq<char>>,
    description: Option<Seq<char>>,
    options: Seq<char>,
) -> Option<RollTableView> {
    match option_table_of(trim(options)) {
        Some(t) => Some(
            RollTableView { name: upper_trimmed(name), description: trimmed(description), table: t },
        ),
        None => None,
    }
}

/// The option tables a record holds: none where `table` took no part in the
/// match, else the one its name, description and options describe.
pub open spec fn option_tables_of(
    table: Option<Seq<char>>,
    name: Option<Seq<char>>,
    description: Option<Seq<char>>,
    options: Option<Seq<char>>,
) -> Option<Seq<RollTableView>> {
    match table {
        None => Some(Seq::<RollTableView>::empty()),
        Some(_) => match options {
            None => None,
            Some(o) => match roll_table_of(name, description, o) {
                Some(t) => Some(seq![t]),
                None => None,
            },
        },
    }
}

/// The groups read from a table of the random tables file.
pub open spec fn tables_groups() -> Seq<Seq<char>> {
    seq!["option_name"@, "option_description"@, "options"@]
}

/// Whether a table is one of GM intrusions: its name matches `INTRUSION_PATTERN`.
pub open spec fn is_intrusion_table(t: RollTableView) -> bool {
    match t.name {
        Some(n) => pattern_captures(INTRUSION_PATTERN@, n, Seq::<Seq<char>>::empty()).len() > 0,
        None => false,
    }
}

/// The tables of the matches, the intrusion tables apart from the others,
/// each list in the order of the matches.
pub open spec fn divided_tables(ms: Seq<Seq<Option<Seq<char>>>>) -> Option<
    (Seq<RollTableView>, Seq<RollTableView>),
>
    decreases ms.len(),
{
    if ms.len() == 0 {
        Some((Seq::<RollTableView>::empty(), Seq::<RollTableView>::empty()))
    } else {
        match divided_tables(ms.drop_last()) {
            None => None,
            Some(prev) => {
                let m = ms.last();
                match grp(m, 2) {
                    None => None,
                    Some(o) => match roll_table_of(grp(m, 0), grp(m, 1), o) {
                        None => None,
                        Some(t) => if is_intrusion_table(t) {
                            Some((prev.0.push(t), prev.1))
                        } else {
                            Some((prev.0, prev.1.push(t)))
                        },
                    },
                }
            },
        }
    }
}

/// The text of the random tables file as the patterns read it: transliterated,
/// without carriage returns.
pub open spec fn tables_text(text: Seq<char>) -> Seq<char> {
    without_char(transliterated(text), '\r')
}

/// The intrusion tables and the other tables of the random tables file.
pub open spec fn intrusion_other_tables_of(text: Seq<char>) -> Option<
    (Seq<RollTableView>, Seq<RollTableView>),
> {
    if pattern_compiles(TABLES_PATTERN@) && pattern_compiles(INTRUSION_PATTERN@) {
        divided_tables(pattern_captures(TABLES_PATTERN@, tables_text(text), tables_groups()))
    } else {
        None
    }
}

proof fn lemma_entries_none_extends(lines: Seq<Seq<char>>, k: int)
    requires
        0 <= k <= lines.len(),
        entries_of_lines(lines.take(k)) is None,
    ensures
        entries_of_lines(lines) is None,
    decreases lines.len() - k,
{
    if k < lines.len() {
        assert(lines.take(k + 1).drop_last() =~= lines.take(k));
        lemma_entries_none_extends(lines, k + 1);
    } else {
        assert(lines.take(k) =~= lines);
    }
}

proof fn lemma_divided_none_extends(ms: Seq<Seq<Option<Seq<char>>>>, k: int)
    requires
        0 <= k <= ms.len(),
        divided_tables(ms.take(k)) is None,
    ensures
        divided_tables(ms) is None,
    decreases ms.len() - k,
{
    if k < ms.len() {
        assert(ms.take(k + 1).drop_last() =~= ms.take(k));
        lemma_divided_none_extends(ms, k + 1);
    } else {
        assert(ms.take(k) =~= ms);
    }
}

/// Reads a roll bound: "00" is 100.
fn roll_number_exec(s: &String) -> (out: Option<usize>)
    ensures
        out == roll_number(s@),
{
    let t = trim_string(s);
    if string_is(&t, "00") {
        Some(100)
    } else {
        parse_usize_string(&t)
    }
}

/// The entry that one match of `OPTION_ROLL_PATTERN` describes.
pub fn roll_entry(m: &Vec<Option<String>>) -> (out: Option<RollEntry>)
    ensures
        match out {
            Some(e) => roll_entry_of(m.deep_view()) == Some(e@),
            None => roll_entry_of(m.deep_view()) is None,
        },
{
    let a = group(m, 0);
    let e = group_trimmed(m, 2);
    match (a, e) {
        (Some(a), Some(e)) => match roll_number_exec(&a) {
            Some(start) => {
                let end = match group(m, 1) {
                    Some(b) => roll_number_exec(&b),
                    None => Some(start),
                };
                match end {
                    Some(end) => Some(RollEntry { start, end, entry: e }),
                    None => None,
                }
            },
            None => None,
        },
        _ => None,
    }
}

/// The entries of an option table: each line (trimmed) that matches
/// `OPTION_ROLL_PATTERN` gives one, in order. `None` where the pattern does not
/// compile or a bound is not a number that fits a `usize`.
pub fn load_option_table(input: &str) -> (out: Option<Vec<RollEntry>>)
    ensures
        out is Some <==> option_table_of(input@) is Some,
        out matches Some(v) ==> option_table_of(input@) == Some(entries_view(v@)),
{
    let p = match Pattern::new(OPTION_ROLL_PATTERN) {
        Some(p) => p,
        None => return None,
    };
    let chars = chars_of(input);
    let lines = split_chars(&chars, '\n');
    let groups: &[&str] = &["start", "end", "entry"];
    assert(groups.deep_view() =~= roll_groups());
    let ghost all = table_lines(input@);
    assert(all.len() == lines@.len());
    let mut out: Vec<RollEntry> = Vec::new();
    let mut i: usize = 0;
    assert(all.take(0) =~= Seq::<Seq<char>>::empty());
    while i < lines.len()
        invariant
            i <= lines.len() == all.len(),
            p.source() == OPTION_ROLL_PATTERN@,
            groups.deep_view() == roll_groups(),
            all == table_lines(input@),
            views(lines@) == split_char(input@, '\n'),
            entries_of_lines(all.take(i as int)) == Some(entries_view(out@)),
        decreases lines.len() - i,
    {
        assert(all.take(i + 1).drop_last() =~= all.take(i as int));
        assert(views(lines@)[i as int] == lines@[i as int]@);
        let t = trim_chars(&lines[i]);
        let line = string_of(&t);
        assert(all.take(i + 1).last() == line@);
        let ms = p.captures(line.as_str(), groups);
        if ms.len() > 0 {
            match roll_entry(&ms[0]) {
                Some(e) => {
                    let ghost before = out@;
                    let ghost ev = e@;
                    out.push(e);
                    assert(entries_view(out@) =~= entries_view(before).push(ev));
                },
                None => {
                    proof {
                        lemma_entries_none_extends(all, i + 1);
                    }
                    return None;
                },
            }
        }
        i += 1;
    }
    assert(all.take(all.len() as int) =~= all);
    Some(out)
}

/// The table named `option_name` (upper-cased, trimmed), described by
/// `option_description` (trimmed), with the entries of `options` (trimmed).
pub fn load_roll_table(
    option_name: &Option<String>,
    option_description: &Option<String>,
    options: &String,
) -> (out: Option<RollTable>)
    ensures
        out is Some <==> roll_table_of(
            option_name.deep_view(),
            option_description.deep_view(),
            options@,
        ) is Some,
        out matches Some(t) ==> roll_table_of(
            option_name.deep_view(),
            option_description.deep_view(),
            options@,
        ) == Some(t@),
{
    let opts = trim_string(options);
    let table = match load_option_table(opts.as_str()) {
        Some(t) => t,
        None => return None,
    };
    let name = match option_name {
        Some(n) => {
            let u = crate::text::upper_string(n);
            Some(trim_string(&u))
        },
        None => None,
    };
    let description = match option_description {
        Some(d) => Some(trim_string(d)),
        None => None,
    };
    Some(RollTable { name, description, table })
}

/// The option tables of a match whose groups `table`, `name`, `description`
/// and `options` are those of the option table pattern.
pub fn option_tables(
    m: &Vec<Option<String>>,
    table: usize,
    name: usize,
    description: usize,
    options: usize,
) -> (out: Option<Vec<RollTable>>)
    ensures
        out is Some <==> option_tables_of(
            grp(m.deep_view(), table as int),
            grp(m.deep_view(), name as int),
            grp(m.deep_view(), description as int),
            grp(m.deep_view(), options as int),
        ) is Some,
        out matches Some(v) ==> option_tables_of(
            grp(m.deep_view(), table as int),
            grp(m.deep_view(), name as int),
            grp(m.deep_view(), description as int),
            grp(m.deep_view(), options as int),
        ) == Some(tables_view(v@)),
{
    match group(m, table) {
        None => Some(Vec::new()),
        Some(_) => match group(m, options) {
            None => None,
            Some(o) => {
                let n = group(m, name);
                let d = group(m, description);
                match load_roll_table(&n, &d, &o) {
                    Some(t) => {
                        let v = vec![t];
                        assert(tables_view(v@) =~= seq![v@[0]@]);
                        Some(v)
                    },
                    None => None,
                }
            },
        },
    }
}

/// The table that one match of `TABLES_PATTERN` describes.
pub fn roll_table_from_match(m: &Vec<Option<String>>) -> (out: Option<RollTable>)
    ensures
        out is Some <==> (grp(m.deep_view(), 2) matches Some(o) && roll_table_of(
            grp(m.deep_view(), 0),
            grp(m.deep_view(), 1),
            o,
        ) is Some),
        out matches Some(t) ==> roll_table_of(
            grp(m.deep_view(), 0),
            grp(m.deep_view(), 1),
            grp(m.deep_view(), 2)->0,
        ) == Some(t@),
{
    match group(m, 2) {
        None => None,
        Some(o) => {
            let n = group(m, 0);
            let d = group(m, 1);
            load_roll_table(&n, &d, &o)
        },
    }
}

/// Reads the random tables file: the transliterated text without carriage
/// returns is cut into tables by `TABLES_PATTERN`, and the tables whose name
/// matches `INTRUSION_PATTERN` are set apart from the others.
pub fn load_intrusion_other_tables(text: &str) -> (out: Option<(Vec<RollTable>, Vec<RollTable>)>)
    ensures
        out is Some <==> intrusion_other_tables_of(text@) is Some,
        out matches Some(r) ==> intrusion_other_tables_of(text@) == Some(
            (tables_view(r.0@), tables_view(r.1@)),
        ),
{
    let regex = match Pattern::new(TABLES_PATTERN) {
        Some(p) => p,
        None => return None,
    };
    let intrusion = match Pattern::new(INTRUSION_PATTERN) {
        Some(p) => p,
        None => return None,
    };
    let raw = transliterate(text);
    let raw_chars = chars_of(raw.as_str());
    let clean = string_of(&without_char_chars(&raw_chars, '\r'));
    let groups: &[&str] = &["option_name", "option_description", "options"];
    assert(groups.deep_view() =~= tables_groups());
    let ms = regex.captures(clean.as_str(), groups);
    let ghost all = ms.deep_view();
    let no_groups: &[&str] = &[];
    assert(no_groups.deep_view() =~= Seq::<Seq<char>>::empty());
    let mut intrusions: Vec<RollTable> = Vec::new();
    let mut other: Vec<RollTable> = Vec::new();
    let mut i: usize = 0;
    assert(all.take(0) =~= Seq::<Seq<Option<Seq<char>>>>::empty());
    while i < ms.len()
        invariant
            i <= ms.len() == all.len(),
            all == ms.deep_view(),
            all == pattern_captures(TABLES_PATTERN@, tables_text(text@), tables_groups()),
            pattern_compiles(TABLES_PATTERN@),
            pattern_compiles(INTRUSION_PATTERN@),
            intrusion.source() == INTRUSION_PATTERN@,
            no_groups.deep_view() == Seq::<Seq<char>>::empty(),
            divided_tables(all.take(i as int)) == Some(
                (tables_view(intrusions@), tables_view(other@)),
            ),
        decreases ms.len() - i,
    {
        assert(all.take(i + 1).drop_last() =~= all.take(i as int));
        assert(all.take(i + 1).last() == ms@[i as int].deep_view());
        match roll_table_from_match(&ms[i]) {
            None => {
                proof {
                    lemma_divided_none_extends(all, i + 1);
                }
                return None;
            },
            Some(t) => {
                let ghost tv = t@;
                let is_intrusion = match &t.name {
                    Some(n) => intrusion.captures(n.as_str(), no_groups).len() > 0,
                    None => false,
                };
                assert(is_intrusion == is_intrusion_table(tv));
                if is_intrusion {
                    let ghost before = intrusions@;
                    intrusions.push(t);
                    assert(tables_view(intrusions@) =~= tables_view(before).push(tv));
                } else {
                    let ghost before = other@;
                    other.push(t);
                    assert(tables_view(other@) =~= tables_view(before).push(tv));
                }
            },
        }
        i += 1;
    }
    assert(all.take(all.len() as int) =~= all);
    Some((intrusions, other))
}

} // verus!
