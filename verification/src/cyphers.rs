//! Cyphers, and the tables that list them by kind.

use vstd::prelude::*;
use crate::pattern::{Pattern, pattern_compiles, pattern_captures};
use crate::text::{trim, upper, parse_usize, split_char, views, chars_of, trim_chars, string_of,
    split_chars, upper_chars, parse_usize_string, chars_eq};
use crate::fields::{grp, trimmed, upper_trimmed, number_or_zero, flattened, group, group_trimmed,
    group_upper_trimmed, group_number_or_zero, flatten_string};
use crate::order::{Named, name_of, sort_by_name, sort_by_key, sorted_by_key, lemma_sort_map,
    lemma_sort_by_key};
use crate::translit::{transliterate, transliterated};
use crate::tables::{RollEntry, RollEntryView, RollTable, RollTableView, OPTION_ROLL_PATTERN,
    roll_groups, tables_view, entries_view, option_tables_of, option_tables, table_lines,
    roll_entry_of, roll_entry};

verus! {

/// One cypher: name, level, optional form, effect and optional option table,
/// up to a blank line.
pub const CYPHER_PATTERN: &'static str = r#"(?m)(?P<name>[^\n]*)\s*Level:\s*(?P<dice>\d*d\d*)?[\s\+]*(?P<mod>\d*)\s*(?:Form:\s*(?P<form>.*)\s*)?Effect:\s*(?P<effect>[\s\w\W]*?)(?P<option_table>((?P<named>NAMED\s*)?OPTION TABLE[^\S\r\n]*(?P<option_name>.*)?(\n\s*(?P<option_description>[^\d].*)\s*\n)?(?P<options>[\W\w]*?)))?(^\s*$)"#;

pub struct Cypher {
    pub name: String,
    pub tags: Vec<String>,
    pub level_dice: Option<String>,
    pub level_mod: usize,
    pub form: Option<String>,
    pub effect: String,
    pub options: Vec<crate::tables::RollTable>,
}

#[verifier::ext_equal]
pub struct CypherView {
    pub name: Seq<char>,
    pub tags: Seq<Seq<char>>,
    pub level_dice: Option<Seq<char>>,
    pub level_mod: usize,
    pub form: Option<Seq<char>>,
    pub effect: Seq<char>,
    pub options: Seq<RollTableView>,
}

impl View for Cypher {
    type V = CypherView;

    open spec fn view(&self) -> CypherView {
        CypherView {
            name: self.name@,
            tags: self.tags.deep_view(),
            level_dice: self.level_dice.deep_view(),
            level_mod: self.level_mod,
            form: self.form.deep_view(),
            effect: self.effect@,
            options: tables_view(self.options@),
        }
    }
}

impl Named for Cypher {
    open spec fn name_key(&self) -> Seq<char> {
        self.name@
    }

    fn name_text(&self) -> (r: &String) {
        &self.name
    }
}

pub open spec fn cypher_view_fn() -> spec_fn(Cypher) -> CypherView {
    |c: Cypher| c@
}

pub open spec fn cypher_key() -> spec_fn(CypherView) -> Seq<char> {
    |c: CypherView| c.name
}

pub open spec fn cyphers_view(v: Seq<Cypher>) -> Seq<CypherView> {
    v.map_values(cypher_view_fn())
}

pub open spec fn cypher_groups() -> Seq<Seq<char>> {
    seq![
        "name"@,
        "dice"@,
        "mod"@,
        "form"@,
        "effect"@,
        "option_table"@,
        "option_name"@,
        "option_description"@,
        "options"@,
    ]
}

/// The cypher that a match of `CYPHER_PATTERN` describes, with no tags yet.
pub open spec fn cypher_of(m: Seq<Option<Seq<char>>>) -> Option<CypherView> {
    match (grp(m, 0), grp(m, 4), option_tables_of(grp(m, 5), grp(m, 6), grp(m, 7), grp(m, 8))) {
        (Some(n), Some(e), Some(options)) => Some(
            CypherView {
                name: trim(upper(n)),
                tags: Seq::<Seq<char>>::empty(),
                level_dice: trimmed(grp(m, 1)),
                level_mod: number_or_zero(grp(m, 2)),
                form: upper_trimmed(grp(m, 3)),
                effect: flattened(e),
                options: options,
            },
        ),
        _ => None,
    }
}

pub open spec fn cyphers_of_matches(ms: Seq<Seq<Option<Seq<char>>>>) -> Option<Seq<CypherView>>
    decreases ms.len(),
{
    if ms.len() == 0 {
        Some(Seq::<CypherView>::empty())
    } else {
        match (cyphers_of_matches(ms.drop_last()), cypher_of(ms.last())) {
            (Some(p), Some(c)) => Some(p.push(c)),
            _ => None,
        }
    }
}

/// The cyphers of the cyphers file (transliterated), in order of name.
pub open spec fn cyphers_of(text: Seq<char>) -> Option<Seq<CypherView>> {
    if !pattern_compiles(CYPHER_PATTERN@) {
        None
    } else {
        match cyphers_of_matches(
            pattern_captures(CYPHER_PATTERN@, transliterated(text), cypher_groups()),
        ) {
            Some(cs) => Some(sort_by_key(cs, cypher_key())),
            None => None,
        }
    }
}

proof fn lemma_cyphers_none_extends(ms: Seq<Seq<Option<Seq<char>>>>, k: int)
    requires
        0 <= k <= ms.len(),
        cyphers_of_matches(ms.take(k)) is None,
    ensures
        cyphers_of_matches(ms) is None,
    decreases ms.len() - k,
{
    if k < ms.len() {
        assert(ms.take(k + 1).drop_last() =~= ms.take(k));
        lemma_cyphers_none_extends(ms, k + 1);
    } else {
        assert(ms.take(k) =~= ms);
    }
}

/// The cypher that one match of `CYPHER_PATTERN` describes.
pub fn cypher_from_match(m: &Vec<Option<String>>) -> (out: Option<Cypher>)
    ensures
        match out {
            Some(c) => cypher_of(m.deep_view()) == Some(c@),
            None => cypher_of(m.deep_view()) is None,
        },
{
    let name = match group_upper_trimmed(m, 0) {
        Some(n) => n,
        None => return None,
    };
    let effect = match group(m, 4) {
        Some(e) => flatten_string(&e),
        None => return None,
    };
    let options = match option_tables(m, 5, 6, 7, 8) {
        Some(o) => o,
        None => return None,
    };
    let c = Cypher {
        name,
        tags: Vec::new(),
        level_dice: group_trimmed(m, 1),
        level_mod: group_number_or_zero(m, 2),
        form: group_upper_trimmed(m, 3),
        effect,
        options,
    };
    assert(c@.tags =~= Seq::<Seq<char>>::empty());
    Some(c)
}

/// Reads the cyphers file: one cypher per match of `CYPHER_PATTERN` in the
/// transliterated text, in order of name.
pub fn load_cyphers(text: &str) -> (out: Option<Vec<Cypher>>)
    ensures
        out is Some <==> cyphers_of(text@) is Some,
        out matches Some(v) ==> cyphers_of(text@) == Some(cyphers_view(v@)),
{
    let p = match Pattern::new(CYPHER_PATTERN) {
        Some(p) => p,
        None => return None,
    };
    let groups: &[&str] = &[
        "name",
        "dice",
        "mod",
        "form",
        "effect",
        "option_table",
        "option_name",
        "option_description",
        "options",
    ];
    assert(groups.deep_view() =~= cypher_groups());
    let t = transliterate(text);
    let ms = p.captures(t.as_str(), groups);
    let ghost all = ms.deep_view();
    let mut out: Vec<Cypher> = Vec::new();
    let mut i: usize = 0;
    assert(all.take(0) =~= Seq::<Seq<Option<Seq<char>>>>::empty());
    assert(cyphers_view(out@) =~= Seq::<CypherView>::empty());
    while i < ms.len()
        invariant
            i <= ms.len() == all.len(),
            all == ms.deep_view(),
            all == pattern_captures(CYPHER_PATTERN@, transliterated(text@), cypher_groups()),
            pattern_compiles(CYPHER_PATTERN@),
            cyphers_of_matches(all.take(i as int)) == Some(cyphers_view(out@)),
        decreases ms.len() - i,
    {
        assert(all.take(i + 1).drop_last() =~= all.take(i as int));
        assert(all.take(i + 1).last() == ms@[i as int].deep_view());
        match cypher_from_match(&ms[i]) {
            Some(c) => {
                let ghost before = out@;
                out.push(c);
                assert(cyphers_view(out@) =~= cyphers_view(before).push(out@.last()@));
            },
            None => {
                proof {
                    lemma_cyphers_none_extends(all, i + 1);
                }
                return None;
            },
        }
        i += 1;
    }
    assert(all.take(all.len() as int) =~= all);
    let sorted = sort_by_name(out);
    proof {
        lemma_sort_map(out@, cypher_view_fn(), name_of::<Cypher>(), cypher_key());
    }
    Some(sorted)
}

/// The cyphers read from a file come in order of name, and they are the
/// cyphers of the file's matches, none lost and none added.
pub proof fn lemma_cyphers_in_order(text: Seq<char>)
    ensures
        cyphers_of(text) is Some ==> sorted_by_key(cyphers_of(text).unwrap(), cypher_key()),
        cyphers_of(text) is Some ==> {
            let parsed = cyphers_of_matches(
                pattern_captures(CYPHER_PATTERN@, transliterated(text), cypher_groups()),
            );
            &&& parsed is Some
            &&& cyphers_of(text).unwrap().to_multiset() == parsed.unwrap().to_multiset()
        },
{
    let parsed = cyphers_of_matches(
        pattern_captures(CYPHER_PATTERN@, transliterated(text), cypher_groups()),
    );
    if let Some(cs) = parsed {
        lemma_sort_by_key(cs, cypher_key());
    }
}

// ----------------------------------------------------------------------------
// Cypher tables
// ----------------------------------------------------------------------------

/// The first position of the cypher named `name`.
pub open spec fn find_cypher(cs: Seq<CypherView>, name: Seq<char>) -> Option<int>
    decreases cs.len(),
{
    if cs.len() == 0 {
        None
    } else {
        match find_cypher(cs.drop_last(), name) {
            Some(i) => Some(i),
            None => if cs.last().name == name {
                Some(cs.len() - 1)
            } else {
                None
            },
        }
    }
}

/// The reading of the cypher tables file after some lines: the cyphers, the
/// finished tables, the name and entries of the table being read (`None`
/// where not set), its kind, whether its name has been read, and whether the
/// reading has stopped on an error.
#[verifier::ext_equal]
pub struct CypherTablesState {
    pub cyphers: Seq<CypherView>,
    pub out: Seq<RollTableView>,
    pub name: Option<Seq<char>>,
    pub table: Option<Seq<RollEntryView>>,
    pub kind: Seq<char>,
    pub named: bool,
    pub failed: bool,
}

/// One line (trimmed) of the cypher tables file. The first line of a table is
/// its name and the kind of its cyphers; each line that matches
/// `OPTION_ROLL_PATTERN` is an entry (a bound "00" is 100), and the cypher it
/// names (in upper case) is tagged with the kind; an empty line finishes the
/// table. Stops where an entry cannot be read, its cypher is not there, or a
/// table has no entries.
pub open spec fn cypher_table_step(st: CypherTablesState, line: Seq<char>) -> CypherTablesState {
    if st.failed {
        st
    } else if !st.named {
        CypherTablesState { name: Some(trim(line)), kind: trim(line), named: true, ..st }
    } else if pattern_captures(OPTION_ROLL_PATTERN@, line, roll_groups()).len() > 0 {
        let m = pattern_captures(OPTION_ROLL_PATTERN@, line, roll_groups())[0];
        match roll_entry_of(m) {
            None => CypherTablesState { failed: true, ..st },
            Some(e) => match find_cypher(st.cyphers, upper(e.entry)) {
                None => CypherTablesState { failed: true, ..st },
                Some(i) => CypherTablesState {
                    cyphers: st.cyphers.update(
                        i,
                        CypherView { tags: st.cyphers[i].tags.push(st.kind), ..st.cyphers[i] },
                    ),
                    table: Some(
                        match st.table {
                            Some(t) => t,
                            None => Seq::<RollEntryView>::empty(),
                        }.push(e),
                    ),
                    ..st
                },
            },
        }
    } else if line.len() == 0 {
        match (st.name, st.table) {
            (Some(n), Some(t)) => CypherTablesState {
                out: st.out.push(RollTableView { name: Some(n), description: None, table: t }),
                name: None,
                table: None,
                named: false,
                ..st
            },
            _ => CypherTablesState { failed: true, ..st },
        }
    } else {
        st
    }
}

pub open spec fn cypher_tables_run(lines: Seq<Seq<char>>, st: CypherTablesState) -> CypherTablesState
    decreases lines.len(),
{
    if lines.len() == 0 {
        st
    } else {
        cypher_table_step(cypher_tables_run(lines.drop_last(), st), lines.last())
    }
}

/// The cyphers after reading the cypher tables file (transliterated), and the
/// finished tables in order.
pub open spec fn cypher_tables_result(cyphers: Seq<CypherView>, text: Seq<char>) -> (
    Seq<CypherView>,
    Option<Seq<RollTableView>>,
) {
    if !pattern_compiles(OPTION_ROLL_PATTERN@) {
        (cyphers, None)
    } else {
        let st = cypher_tables_run(
            table_lines(transliterated(text)),
            CypherTablesState {
                cyphers: cyphers,
                out: Seq::<RollTableView>::empty(),
                name: None,
                table: None,
                kind: Seq::<char>::empty(),
                named: false,
                failed: false,
            },
        );
        if st.failed {
            (st.cyphers, None)
        } else {
            (st.cyphers, Some(st.out))
        }
    }
}

/// Whether `after` holds the cyphers of `before`, in the same order, each
/// changed at most by tags added after its own.
pub open spec fn only_tags_added(before: Seq<CypherView>, after: Seq<CypherView>) -> bool {
    &&& after.len() == before.len()
    &&& forall|i: int|
        0 <= i < before.len() ==> (CypherView { tags: before[i].tags, ..#[trigger] after[i] })
            == before[i] && before[i].tags.is_prefix_of(after[i].tags)
}

/// Whether every entry of the tables names (in upper case) one of the cyphers.
pub open spec fn entries_name_cyphers(tables: Seq<RollTableView>, cs: Seq<CypherView>) -> bool {
    forall|t: int, e: int|
        0 <= t < tables.len() && 0 <= e < tables[t].table.len() ==> find_cypher(
            cs,
            upper(#[trigger] tables[t].table[e].entry),
        ) is Some
}

proof fn lemma_find_cypher_same_names(s: Seq<CypherView>, t: Seq<CypherView>, k: Seq<char>)
    requires
        s.len() == t.len(),
        forall|i: int| 0 <= i < s.len() ==> (#[trigger] s[i]).name == t[i].name,
    ensures
        find_cypher(s, k) == find_cypher(t, k),
    decreases s.len(),
{
    if s.len() > 0 {
        lemma_find_cypher_same_names(s.drop_last(), t.drop_last(), k);
    }
}

proof fn lemma_find_cypher_found(s: Seq<CypherView>, k: Seq<char>)
    ensures
        find_cypher(s, k) matches Some(i) ==> 0 <= i < s.len() && s[i].name == k,
    decreases s.len(),
{
    if s.len() > 0 {
        lemma_find_cypher_found(s.drop_last(), k);
    }
}

spec fn tables_state_ok(st0: Seq<CypherView>, st: CypherTablesState) -> bool {
    &&& only_tags_added(st0, st.cyphers)
    &&& entries_name_cyphers(st.out, st0)
    &&& st.table matches Some(t) ==> forall|e: int|
        0 <= e < t.len() ==> find_cypher(st0, upper(#[trigger] t[e].entry)) is Some
}

proof fn lemma_cypher_tables_run_ok(lines: Seq<Seq<char>>, st: CypherTablesState)
    requires
        tables_state_ok(st.cyphers, st),
    ensures
        tables_state_ok(st.cyphers, cypher_tables_run(lines, st)),
    decreases lines.len(),
{
    if lines.len() > 0 {
        lemma_cypher_tables_run_ok(lines.drop_last(), st);
        let p = cypher_tables_run(lines.drop_last(), st);
        let line = lines.last();
        let r = cypher_table_step(p, line);
        let c0 = st.cyphers;
        if !p.failed && p.named && pattern_captures(OPTION_ROLL_PATTERN@, line, roll_groups()).len()
            > 0 {
            let m = pattern_captures(OPTION_ROLL_PATTERN@, line, roll_groups())[0];
            if let Some(e) = roll_entry_of(m) {
                lemma_find_cypher_found(p.cyphers, upper(e.entry));
                if let Some(i) = find_cypher(p.cyphers, upper(e.entry)) {
                    assert forall|j: int| 0 <= j < c0.len() implies (CypherView {
                        tags: c0[j].tags,
                        ..#[trigger] r.cyphers[j]
                    }) == c0[j] && c0[j].tags.is_prefix_of(r.cyphers[j].tags) by {
                        if j == i {
                            assert(p.cyphers[j].tags.push(p.kind).take(p.cyphers[j].tags.len() as int)
                                =~= p.cyphers[j].tags);
                            assert(c0[j].tags =~= p.cyphers[j].tags.take(c0[j].tags.len() as int));
                            assert(c0[j].tags =~= r.cyphers[j].tags.take(c0[j].tags.len() as int));
                        }
                    }
                    assert forall|k: int| 0 <= k < p.cyphers.len() implies (#[trigger] p.cyphers[k]).name
                        == c0[k].name by {
                        assert((CypherView { tags: c0[k].tags, ..p.cyphers[k] }) == c0[k]);
                    }
                    lemma_find_cypher_same_names(p.cyphers, c0, upper(e.entry));
                    let t = match p.table {
                        Some(t) => t,
                        None => Seq::<RollEntryView>::empty(),
                    };
                    assert forall|x: int| 0 <= x < t.push(e).len() implies find_cypher(
                        c0,
                        upper(#[trigger] t.push(e)[x].entry),
                    ) is Some by {
                        if x < t.len() {
                            assert(t.push(e)[x] == t[x]);
                        }
                    }
                }
            }
        } else if !p.failed && p.named && line.len() == 0 {
            if let (Some(n), Some(t)) = (p.name, p.table) {
                let out = p.out.push(RollTableView { name: Some(n), description: None, table: t });
                assert forall|a: int, b: int|
                    0 <= a < out.len() && 0 <= b < out[a].table.len() implies find_cypher(
                    c0,
                    upper(#[trigger] out[a].table[b].entry),
                ) is Some by {
                    if a < p.out.len() {
                        assert(out[a] == p.out[a]);
                    }
                }
            }
        }
    }
}

/// Reading the cypher tables changes the cyphers only by adding tags (each
/// cypher keeps its name, its fields and its place, and its earlier tags come
/// first), and every entry of every table read names one of the cyphers.
pub proof fn lemma_cypher_tables_sound(cyphers: Seq<CypherView>, text: Seq<char>)
    ensures
        only_tags_added(cyphers, cypher_tables_result(cyphers, text).0),
        cypher_tables_result(cyphers, text).1 matches Some(tables) ==> entries_name_cyphers(
            tables,
            cyphers,
        ),
{
    let st = CypherTablesState {
        cyphers: cyphers,
        out: Seq::<RollTableView>::empty(),
        name: None,
        table: None,
        kind: Seq::<char>::empty(),
        named: false,
        failed: false,
    };
    assert forall|i: int| 0 <= i < cyphers.len() implies (CypherView {
        tags: cyphers[i].tags,
        ..#[trigger] cyphers[i]
    }) == cyphers[i] && cyphers[i].tags.is_prefix_of(cyphers[i].tags) by {
        assert(cyphers[i].tags.take(cyphers[i].tags.len() as int) =~= cyphers[i].tags);
    }
    if pattern_compiles(OPTION_ROLL_PATTERN@) {
        lemma_cypher_tables_run_ok(table_lines(transliterated(text)), st);
    }
}

proof fn lemma_cypher_tables_failed_stays(lines: Seq<Seq<char>>, k: int, st: CypherTablesState)
    requires
        0 <= k <= lines.len(),
        cypher_tables_run(lines.take(k), st).failed,
    ensures
        cypher_tables_run(lines, st) == cypher_tables_run(lines.take(k), st),
    decreases lines.len() - k,
{
    if k < lines.len() {
        assert(lines.take(k + 1).drop_last() =~= lines.take(k));
        lemma_cypher_tables_failed_stays(lines, k + 1, st);
    } else {
        assert(lines.take(k) =~= lines);
    }
}

/// The position of the first cypher named `name`.
fn find_cypher_exec(cs: &Vec<Cypher>, name: &[char]) -> (out: Option<usize>)
    ensures
        match out {
            Some(i) => find_cypher(cyphers_view(cs@), name@) == Some(i as int) && i < cs.len(),
            None => find_cypher(cyphers_view(cs@), name@) is None,
        },
{
    let ghost all = cyphers_view(cs@);
    let mut i: usize = 0;
    assert(all.take(0) =~= Seq::<CypherView>::empty());
    while i < cs.len()
        invariant
            i <= cs.len(),
            all == cyphers_view(cs@),
            find_cypher(all.take(i as int), name@) is None,
        decreases cs.len() - i,
    {
        assert(all.take(i + 1).drop_last() =~= all.take(i as int));
        assert(all.take(i + 1).last() == cs@[i as int]@);
        let n = chars_of(cs[i].name.as_str());
        if chars_eq(&n, name) {
            proof {
                lemma_find_cypher_prefix(all, i + 1, name@);
            }
            return Some(i);
        }
        i += 1;
    }
    assert(all.take(all.len() as int) =~= all);
    None
}

proof fn lemma_find_cypher_prefix(s: Seq<CypherView>, j: int, k: Seq<char>)
    requires
        0 <= j <= s.len(),
        find_cypher(s.take(j), k) is Some,
    ensures
        find_cypher(s, k) == find_cypher(s.take(j), k),
    decreases s.len() - j,
{
    if j < s.len() {
        assert(s.take(j + 1).drop_last() =~= s.take(j));
        lemma_find_cypher_prefix(s, j + 1, k);
    } else {
        assert(s.take(j) =~= s);
    }
}

/// Reads the cypher tables file: the tables of cyphers by kind, in order;
/// each cypher an entry names is tagged in `db_cyphers` with the kind of its
/// table. `None` where the file cannot be read through, and then `db_cyphers` holds the
/// tags added before that line.
#[verifier::loop_isolation(false)]
pub fn load_cypher_tables(db_cyphers: &mut Vec<Cypher>, text: &str) -> (out: Option<Vec<RollTable>>)
    ensures
        cyphers_view(final(db_cyphers)@) == cypher_tables_result(
            cyphers_view(old(db_cyphers)@),
            text@,
        ).0,
        out is Some <==> cypher_tables_result(cyphers_view(old(db_cyphers)@), text@).1 is Some,
        out matches Some(v) ==> cypher_tables_result(cyphers_view(old(db_cyphers)@), text@).1
            == Some(tables_view(v@)),
{
    let p = match Pattern::new(OPTION_ROLL_PATTERN) {
        Some(p) => p,
        None => return None,
    };
    let groups: &[&str] = &["start", "end", "entry"];
    assert(groups.deep_view() =~= roll_groups());
    let t = transliterate(text);
    let lines = split_chars(&chars_of(t.as_str()), '\n');
    let ghost all = table_lines(transliterated(text@));
    let ghost st0 = CypherTablesState {
        cyphers: cyphers_view(old(db_cyphers)@),
        out: Seq::<RollTableView>::empty(),
        name: None,
        table: None,
        kind: Seq::<char>::empty(),
        named: false,
        failed: false,
    };
    let mut out: Vec<RollTable> = Vec::new();
    let mut name: Option<String> = None;
    let mut table: Option<Vec<RollEntry>> = None;
    let mut kind: Vec<char> = Vec::new();
    let mut named = false;
    let mut i: usize = 0;
    assert(all.take(0) =~= Seq::<Seq<char>>::empty());
    assert(tables_view(out@) =~= Seq::<RollTableView>::empty());
    while i < lines.len()
        invariant
            i <= lines.len() == all.len(),
            views(lines@) == split_char(transliterated(text@), '\n'),
            cypher_tables_run(all.take(i as int), st0) == (CypherTablesState {
                cyphers: cyphers_view(db_cyphers@),
                out: tables_view(out@),
                name: name.deep_view(),
                table: match table {
                    Some(t) => Some(entries_view(t@)),
                    None => None,
                },
                kind: kind@,
                named: named,
                failed: false,
            }),
        decreases lines.len() - i,
    {
        assert(all.take(i + 1).drop_last() =~= all.take(i as int));
        assert(views(lines@)[i as int] == lines@[i as int]@);
        let lc = trim_chars(&lines[i]);
        assert(all.take(i + 1).last() == lc@);
        if !named {
            let tl = trim_chars(&lc);
            name = Some(string_of(&tl));
            kind = tl;
            named = true;
        } else {
            let line = string_of(&lc);
            let ms = p.captures(line.as_str(), groups);
            if ms.len() > 0 {
                let e = match roll_entry(&ms[0]) {
                    Some(e) => e,
                    None => {
                        proof {
                            lemma_cypher_tables_failed_stays(all, i + 1, st0);
                        }
                        return None;
                    },
                };
                let key = upper_chars(&chars_of(e.entry.as_str()));
                match find_cypher_exec(db_cyphers, &key) {
                    None => {
                        proof {
                            lemma_cypher_tables_failed_stays(all, i + 1, st0);
                        }
                        return None;
                    },
                    Some(idx) => {
                        let ghost before_db = cyphers_view(db_cyphers@);
                        let mut c = db_cyphers.remove(idx);
                        let ghost cv = c@;
                        c.tags.push(string_of(&kind));
                        assert(c@ =~= CypherView { tags: cv.tags.push(kind@), ..cv });
                        let ghost cv2 = c@;
                        db_cyphers.insert(idx, c);
                        assert(cyphers_view(db_cyphers@) =~= before_db.update(idx as int, cv2));
                        let mut tb = match table {
                            Some(tb) => tb,
                            None => Vec::new(),
                        };
                        let ghost before_tb = entries_view(tb@);
                        let ghost ev = e@;
                        tb.push(e);
                        assert(entries_view(tb@) =~= before_tb.push(ev));
                        table = Some(tb);
                    },
                }
            } else if lc.len() == 0 {
                let n = name;
                let tb = table;
                name = None;
                table = None;
                named = false;
                match (n, tb) {
                    (Some(n), Some(tb)) => {
                        let ghost before = tables_view(out@);
                        let rt = RollTable { name: Some(n), description: None, table: tb };
                        let ghost rv = rt@;
                        out.push(rt);
                        assert(tables_view(out@) =~= before.push(rv));
                    },
                    _ => {
                        proof {
                            lemma_cypher_tables_failed_stays(all, i + 1, st0);
                        }
                        return None;
                    },
                }
            }
        }
        i += 1;
    }
    assert(all.take(all.len() as int) =~= all);
    Some(out)
}

/// The first line of a table of the cypher tables file names the table and
/// the kind of its cyphers.
pub proof fn lemma_cypher_table_name_line(st: CypherTablesState, line: Seq<char>)
    ensures
        !st.failed && !st.named ==> cypher_table_step(st, line) == (CypherTablesState {
            name: Some(trim(line)),
            kind: trim(line),
            named: true,
            ..st
        }),
{
}

/// An entry line of a table (after its name) adds its entry to the table and
/// tags the first cypher named as the entry (in upper case) with the table's
/// kind, and nothing else; the reading stops where the entry cannot be read
/// or no cypher has that name.
pub proof fn lemma_cypher_table_entry_line(st: CypherTablesState, line: Seq<char>)
    ensures
        ({
            let ms = pattern_captures(OPTION_ROLL_PATTERN@, line, roll_groups());
            let r = cypher_table_step(st, line);
            !st.failed && st.named && ms.len() > 0 ==> {
                &&& r.failed <==> (roll_entry_of(ms[0]) is None || find_cypher(
                    st.cyphers,
                    upper(roll_entry_of(ms[0])->0.entry),
                ) is None)
                &&& !r.failed ==> {
                    let e = roll_entry_of(ms[0])->0;
                    let i = find_cypher(st.cyphers, upper(e.entry))->0;
                    &&& r.cyphers.len() == st.cyphers.len()
                    &&& r.cyphers[i].name == upper(e.entry)
                    &&& r.cyphers[i].tags == st.cyphers[i].tags.push(st.kind)
                    &&& forall|j: int| 0 <= j < st.cyphers.len() && j != i ==> #[trigger] r.cyphers[j]
                        == st.cyphers[j]
                    &&& r.table matches Some(t) && t.len() > 0 && t.last() == e
                    &&& r.kind == st.kind && r.out == st.out
                }
            }
        }),
{
    let ms = pattern_captures(OPTION_ROLL_PATTERN@, line, roll_groups());
    if !st.failed && st.named && ms.len() > 0 {
        if let Some(e) = roll_entry_of(ms[0]) {
            lemma_find_cypher_found(st.cyphers, upper(e.entry));
        }
    }
}

} // verus!
