//! Foci: what a character does, with abilities by tier and connections.

use vstd::prelude::*;
use crate::pattern::{Pattern, pattern_compiles, pattern_captures};
use crate::text::{lemma_trim_idempotent, trim, upper, parse_usize, contains, join, replace_all, without_char, chars_of,
    trim_chars, string_of, upper_chars, parse_usize_string, trim_string, upper_string,
    contains_chars, join_chars, replace_all_chars, without_char_chars, string_is, views};
use crate::fields::{grp, trimmed, group, group_trimmed, first_groups_trimmed, first_groups};
use crate::order::{Named, name_of, sort_by_name, sort_by_key, sorted_by_key, lemma_sort_map,
    lemma_sort_by_key};
use crate::translit::{transliterate, transliterated};
use crate::ability::{AbilityMap, AbilityRef, AbilityRefView, AbilityView, refs_view, find_key,
    with_reference, ability_key, keys_unique, references_ordered, only_references_added,
    lemma_reference_added, lemma_references_added_preorder, lemma_references_added_keys,
    lemma_find_key_found, refs_found};

verus! {

/// One focus: name, description, optional note, connections, other lines,
/// optional type swap, the tier lines, and the GM intrusions.
pub const FOCUS_PATTERN: &'static str = r"(?m)(?P<name>[^\n]*?)\n(?P<description>[^\n]*?)\n(?:\s*\((?P<note>[^\n]*)\)\n)?(?P<connection>Connection:.*\s*(?:\s*\d.\s*([^\n]*))*\n)?(?P<basic_abilities>(^[^(Tier)][^\n]*\s*)*?)?(?:Type Swap Option: (?P<swap>[^\n]*)\n)?(?P<abilities>(?:^Tier \d:\s*[^\n]*\s*)+)(?:[^\n]*?GM Intrusions:(?P<intrusions>[^\n]*))?(?:\n{2,})";

/// One numbered connection.
pub const CONNECTIONS_PATTERN: &'static str = r"(?m)\s*\d\.\s*(?P<connection>[^\n]*)\s*";

/// One `Name: effect` line.
pub const EFFECTS_PATTERN: &'static str = r"(?mi)\s*(?P<name>[^\n]*?): (?P<effect>[^\n]*)\s*";

/// The pattern of a tier line is made of these pieces, with the alternatives
/// of the abilities whose names hold " OR " between them.
pub const TIER_LINE_START: &'static str = r"(?mi)Tier\s*(?P<tier>\d+)\s*:\s*(?P<a1>(?:";

pub const TIER_LINE_REST: &'static str = r")|[^\n]*?)#end";

pub const SECOND_ABILITY_START: &'static str = r"(?: or (?P<a2>(?:";

pub const THIRD_ABILITY_START: &'static str = r"(?: or (?P<a3>(?:";

pub const NEXT_ABILITY_REST: &'static str = r")|[^\n]*?)#end|$)";

pub const END_MARK: &'static str = "#end";

pub struct Focus {
    pub name: String,
    pub description: String,
    pub note: Option<String>,
    pub abilities: Vec<AbilityRef>,
    pub connections: Vec<String>,
    pub intrusions: Option<String>,
    pub additional_equipment: Option<String>,
    pub minor_effect: Option<String>,
    pub major_effect: Option<String>,
}

#[verifier::ext_equal]
pub struct FocusView {
    pub name: Seq<char>,
    pub description: Seq<char>,
    pub note: Option<Seq<char>>,
    pub abilities: Seq<AbilityRefView>,
    pub connections: Seq<Seq<char>>,
    pub intrusions: Option<Seq<char>>,
    pub additional_equipment: Option<Seq<char>>,
    pub minor_effect: Option<Seq<char>>,
    pub major_effect: Option<Seq<char>>,
}

impl View for Focus {
    type V = FocusView;

    open spec fn view(&self) -> FocusView {
        FocusView {
            name: self.name@,
            description: self.description@,
            note: self.note.deep_view(),
            abilities: refs_view(self.abilities@),
            connections: self.connections.deep_view(),
            intrusions: self.intrusions.deep_view(),
            additional_equipment: self.additional_equipment.deep_view(),
            minor_effect: self.minor_effect.deep_view(),
            major_effect: self.major_effect.deep_view(),
        }
    }
}

impl Named for Focus {
    open spec fn name_key(&self) -> Seq<char> {
        self.name@
    }

    fn name_text(&self) -> (r: &String) {
        &self.name
    }
}

pub open spec fn focus_view_fn() -> spec_fn(Focus) -> FocusView {
    |f: Focus| f@
}

pub open spec fn focus_key() -> spec_fn(FocusView) -> Seq<char> {
    |f: FocusView| f.name
}

pub open spec fn foci_view(v: Seq<Focus>) -> Seq<FocusView> {
    v.map_values(focus_view_fn())
}

pub open spec fn focus_groups() -> Seq<Seq<char>> {
    seq![
        "name"@,
        "description"@,
        "note"@,
        "connection"@,
        "basic_abilities"@,
        "swap"@,
        "abilities"@,
        "intrusions"@,
    ]
}

pub open spec fn connection_groups() -> Seq<Seq<char>> {
    seq!["connection"@]
}

pub open spec fn effect_groups() -> Seq<Seq<char>> {
    seq!["name"@, "effect"@]
}

pub open spec fn focus_tier_groups() -> Seq<Seq<char>> {
    seq!["tier"@, "a1"@, "a2"@, "a3"@]
}

/// The keys of the abilities whose keys hold " OR ", in the order of `map`.
pub open spec fn or_names(map: Seq<AbilityView>) -> Seq<Seq<char>>
    decreases map.len(),
{
    if map.len() == 0 {
        Seq::<Seq<char>>::empty()
    } else {
        let p = or_names(map.drop_last());
        if contains(ability_key(map.last()), " OR "@) {
            p.push(ability_key(map.last()))
        } else {
            p
        }
    }
}

/// The pattern of a tier line, which reads up to three abilities joined by
/// "or", where `alternatives` lists the names that hold " OR " themselves.
pub open spec fn tier_line_pattern(alternatives: Seq<char>) -> Seq<char> {
    let p1 = TIER_LINE_START@ + alternatives + TIER_LINE_REST@;
    let p2 = replace_all(p1, END_MARK@, SECOND_ABILITY_START@ + alternatives + NEXT_ABILITY_REST@);
    let p3 = replace_all(p2, END_MARK@, THIRD_ABILITY_START@ + alternatives + NEXT_ABILITY_REST@);
    replace_all(p3, END_MARK@, "$"@)
}

/// The tier line pattern for the abilities of `map`.
pub open spec fn tier_pattern_of(map: Seq<AbilityView>) -> Seq<char> {
    tier_line_pattern(join(or_names(map), "|"@))
}

/// The effects named in the `Name: effect` lines: minor, major, additional
/// equipment; other names are passed over.
pub open spec fn effects_run(ems: Seq<Seq<Option<Seq<char>>>>) -> (
    Option<Seq<char>>,
    Option<Seq<char>>,
    Option<Seq<char>>,
)
    decreases ems.len(),
{
    if ems.len() == 0 {
        (None, None, None)
    } else {
        let p = effects_run(ems.drop_last());
        let e = ems.last();
        match (grp(e, 0), trimmed(grp(e, 1))) {
            (Some(n), Some(v)) => if n == "Minor Effect Suggestion"@ {
                (Some(v), p.1, p.2)
            } else if n == "Major Effect Suggestion"@ {
                (p.0, Some(v), p.2)
            } else if n == "Additional Equipment"@ {
                (p.0, p.1, Some(v))
            } else {
                p
            },
            _ => p,
        }
    }
}

/// The focus that a match of `FOCUS_PATTERN` describes, before its abilities.
pub open spec fn focus_base(m: Seq<Option<Seq<char>>>) -> Option<FocusView> {
    match (grp(m, 0), grp(m, 1), grp(m, 6)) {
        (Some(n), Some(d), Some(_)) => {
            let eff = match grp(m, 4) {
                Some(b) => effects_run(pattern_captures(EFFECTS_PATTERN@, trim(b), effect_groups())),
                None => (None, None, None),
            };
            let conns = match grp(m, 3) {
                Some(c) => first_groups_trimmed(
                    pattern_captures(CONNECTIONS_PATTERN@, trim(c), connection_groups()),
                ),
                None => Some(Seq::<Seq<char>>::empty()),
            };
            match conns {
                None => None,
                Some(cs) => Some(
                    FocusView {
                        name: upper(trim(n)),
                        description: trim(d),
                        note: trimmed(grp(m, 2)),
                        abilities: Seq::<AbilityRefView>::empty(),
                        connections: cs,
                        intrusions: trimmed(grp(m, 7)),
                        additional_equipment: eff.2,
                        minor_effect: eff.0,
                        major_effect: eff.1,
                    },
                ),
            }
        },
        _ => None,
    }
}

/// The abilities and the focus being read, and whether all went well.
#[verifier::ext_equal]
pub struct FocusWork {
    pub map: Seq<AbilityView>,
    pub focus: FocusView,
    pub ok: bool,
}

/// Adds an ability to the focus at `tier`: the ability (found by its name in
/// upper case) gains the focus among its references. Fails where the tier is
/// missing, the ability is not there, or the tier is not a number (then after
/// the reference is added).
pub open spec fn add_focus_ability(
    w: FocusWork,
    ability: Seq<char>,
    tier: Option<Seq<char>>,
    selected: bool,
) -> FocusWork {
    match tier {
        None => FocusWork { ok: false, ..w },
        Some(tier) => match find_key(w.map, upper(ability)) {
            None => FocusWork { ok: false, ..w },
            Some(i) => {
                let map2 = w.map.update(i, with_reference(w.map[i], w.focus.name));
                match parse_usize(tier) {
                    None => FocusWork { map: map2, ok: false, ..w },
                    Some(t) => FocusWork {
                        map: map2,
                        focus: FocusView {
                            abilities: w.focus.abilities.push(
                                AbilityRefView { name: trim(ability), tier: t, preselected: selected },
                            ),
                            ..w.focus
                        },
                        ok: true,
                    },
                }
            },
        }
    }
}

/// The abilities that a tier line match names, in order.
pub open spec fn match_names(m: Seq<Option<Seq<char>>>) -> Seq<Seq<char>> {
    let a = match grp(m, 1) {
        Some(x) => seq![x],
        None => Seq::<Seq<char>>::empty(),
    };
    let b = match grp(m, 2) {
        Some(x) => a.push(x),
        None => a,
    };
    match grp(m, 3) {
        Some(x) => b.push(x),
        None => b,
    }
}

/// Adds the abilities `names` (each trimmed) at `tier`, stopping at the first failure.
pub open spec fn names_run(
    names: Seq<Seq<char>>,
    w: FocusWork,
    tier: Option<Seq<char>>,
    selected: bool,
) -> FocusWork
    decreases names.len(),
{
    if names.len() == 0 {
        w
    } else {
        let p = names_run(names.drop_last(), w, tier, selected);
        if !p.ok {
            p
        } else {
            add_focus_ability(p, trim(names.last()), tier, selected)
        }
    }
}

/// Adds the abilities of the tier line matches; an ability alone on its line
/// is preselected.
pub open spec fn tier_matches_run(ams: Seq<Seq<Option<Seq<char>>>>, w: FocusWork) -> FocusWork
    decreases ams.len(),
{
    if ams.len() == 0 {
        w
    } else {
        let p = tier_matches_run(ams.drop_last(), w);
        if !p.ok {
            p
        } else {
            let m = ams.last();
            names_run(match_names(m), p, grp(m, 0), match_names(m).len() == 1)
        }
    }
}

/// The reading of the foci file after some foci.
#[verifier::ext_equal]
pub struct FociState {
    pub map: Seq<AbilityView>,
    pub out: Seq<FocusView>,
    pub failed: bool,
}

/// One focus match: its base, then the type swap ability (tier 1), then the
/// abilities of its tier lines, which must match the tier line pattern.
pub open spec fn focus_step(st: FociState, m: Seq<Option<Seq<char>>>, tier_pattern: Seq<char>) -> FociState {
    if st.failed {
        st
    } else {
        match focus_base(m) {
            None => FociState { failed: true, ..st },
            Some(f0) => {
                let w0 = FocusWork { map: st.map, focus: f0, ok: true };
                let w1 = match grp(m, 5) {
                    Some(s) => add_focus_ability(w0, trim(s), Some("1"@), false),
                    None => w0,
                };
                if !w1.ok {
                    FociState { map: w1.map, failed: true, ..st }
                } else {
                    let ams = pattern_captures(tier_pattern, trim(grp(m, 6)->0), focus_tier_groups());
                    if ams.len() == 0 {
                        FociState { map: w1.map, failed: true, ..st }
                    } else {
                        let w2 = tier_matches_run(ams, w1);
                        if !w2.ok {
                            FociState { map: w2.map, failed: true, ..st }
                        } else {
                            FociState { map: w2.map, out: st.out.push(w2.focus), failed: false }
                        }
                    }
                }
            },
        }
    }
}

pub open spec fn foci_run(
    ms: Seq<Seq<Option<Seq<char>>>>,
    tier_pattern: Seq<char>,
    st: FociState,
) -> FociState
    decreases ms.len(),
{
    if ms.len() == 0 {
        st
    } else {
        focus_step(foci_run(ms.drop_last(), tier_pattern, st), ms.last(), tier_pattern)
    }
}

/// The text of the foci file as the patterns read it.
pub open spec fn foci_text(text: Seq<char>) -> Seq<char> {
    without_char(transliterated(text), '\r')
}

/// The abilities after reading the foci file, and the foci in order of name.
pub open spec fn foci_result(map: Seq<AbilityView>, text: Seq<char>) -> (
    Seq<AbilityView>,
    Option<Seq<FocusView>>,
) {
    let tp = tier_pattern_of(map);
    if !(pattern_compiles(FOCUS_PATTERN@) && pattern_compiles(CONNECTIONS_PATTERN@)
        && pattern_compiles(EFFECTS_PATTERN@) && pattern_compiles(tp)) {
        (map, None)
    } else {
        let ms = pattern_captures(FOCUS_PATTERN@, foci_text(text), focus_groups());
        if ms.len() == 0 {
            (map, None)
        } else {
            let st = foci_run(ms, tp, FociState { map: map, out: Seq::<FocusView>::empty(), failed: false });
            if st.failed {
                (st.map, None)
            } else {
                (st.map, Some(sort_by_key(st.out, focus_key())))
            }
        }
    }
}

proof fn lemma_foci_failed_stays(ms: Seq<Seq<Option<Seq<char>>>>, k: int, tp: Seq<char>, st: FociState)
    requires
        0 <= k <= ms.len(),
        foci_run(ms.take(k), tp, st).failed,
    ensures
        foci_run(ms, tp, st) == foci_run(ms.take(k), tp, st),
    decreases ms.len() - k,
{
    if k < ms.len() {
        assert(ms.take(k + 1).drop_last() =~= ms.take(k));
        lemma_foci_failed_stays(ms, k + 1, tp, st);
    } else {
        assert(ms.take(k) =~= ms);
    }
}

proof fn lemma_names_failed_stays(
    names: Seq<Seq<char>>,
    k: int,
    w: FocusWork,
    tier: Option<Seq<char>>,
    selected: bool,
)
    requires
        0 <= k <= names.len(),
        !names_run(names.take(k), w, tier, selected).ok,
    ensures
        names_run(names, w, tier, selected) == names_run(names.take(k), w, tier, selected),
    decreases names.len() - k,
{
    if k < names.len() {
        assert(names.take(k + 1).drop_last() =~= names.take(k));
        lemma_names_failed_stays(names, k + 1, w, tier, selected);
    } else {
        assert(names.take(k) =~= names);
    }
}

proof fn lemma_tiers_failed_stays(ams: Seq<Seq<Option<Seq<char>>>>, k: int, w: FocusWork)
    requires
        0 <= k <= ams.len(),
        !tier_matches_run(ams.take(k), w).ok,
    ensures
        tier_matches_run(ams, w) == tier_matches_run(ams.take(k), w),
    decreases ams.len() - k,
{
    if k < ams.len() {
        assert(ams.take(k + 1).drop_last() =~= ams.take(k));
        lemma_tiers_failed_stays(ams, k + 1, w);
    } else {
        assert(ams.take(k) =~= ams);
    }
}

/// The keys of the abilities of `map` that hold " OR ".
fn or_names_exec(map: &AbilityMap) -> (out: Vec<Vec<char>>)
    ensures
        views(out@) == or_names(map@),
{
    let sep = chars_of(" OR ");
    let mut out: Vec<Vec<char>> = Vec::new();
    let mut i: usize = 0;
    assert(map@.take(0) =~= Seq::<AbilityView>::empty());
    while i < map.entries.len()
        invariant
            i <= map.entries.len(),
            sep@ == " OR "@,
            views(out@) == or_names(map@.take(i as int)),
        decreases map.entries.len() - i,
    {
        assert(map@.take(i + 1).drop_last() =~= map@.take(i as int));
        assert(map@.take(i + 1).last() == map.entries@[i as int]@);
        let name = chars_of(map.entries[i].name.as_str());
        let key = upper_chars(&name);
        if contains_chars(&key, &sep) {
            let ghost before = out@;
            out.push(key);
            assert(views(out@) =~= views(before).push(out@.last()@));
        }
        i += 1;
    }
    assert(map@.take(map.entries.len() as int) =~= map@);
    out
}

/// The tier line pattern for `map`.
fn tier_pattern_exec(map: &AbilityMap) -> (out: String)
    ensures
        out@ == tier_pattern_of(map@),
{
    let names = or_names_exec(map);
    let bar = chars_of("|");
    let alternatives = join_chars(&names, &bar);
    let mut p1 = chars_of(TIER_LINE_START);
    crate::text::push_all(&mut p1, &alternatives);
    crate::text::push_all(&mut p1, &chars_of(TIER_LINE_REST));
    let end = chars_of(END_MARK);
    proof {
        reveal_strlit("#end");
    }
    let mut second = chars_of(SECOND_ABILITY_START);
    crate::text::push_all(&mut second, &alternatives);
    crate::text::push_all(&mut second, &chars_of(NEXT_ABILITY_REST));
    let mut third = chars_of(THIRD_ABILITY_START);
    crate::text::push_all(&mut third, &alternatives);
    crate::text::push_all(&mut third, &chars_of(NEXT_ABILITY_REST));
    let p2 = replace_all_chars(&p1, &end, &second);
    let p3 = replace_all_chars(&p2, &end, &third);
    let p4 = replace_all_chars(&p3, &end, &chars_of("$"));
    string_of(&p4)
}

/// The effects of the `Name: effect` matches.
fn effects_exec(ems: &Vec<Vec<Option<String>>>) -> (out: (Option<String>, Option<String>, Option<String>))
    ensures
        (out.0.deep_view(), out.1.deep_view(), out.2.deep_view()) == effects_run(ems.deep_view()),
{
    let mut minor: Option<String> = None;
    let mut major: Option<String> = None;
    let mut additional: Option<String> = None;
    let mut i: usize = 0;
    let ghost all = ems.deep_view();
    assert(all.take(0) =~= Seq::<Seq<Option<Seq<char>>>>::empty());
    while i < ems.len()
        invariant
            i <= ems.len() == all.len(),
            all == ems.deep_view(),
            (minor.deep_view(), major.deep_view(), additional.deep_view()) == effects_run(
                all.take(i as int),
            ),
        decreases ems.len() - i,
    {
        assert(all.take(i + 1).drop_last() =~= all.take(i as int));
        assert(all.take(i + 1).last() == ems@[i as int].deep_view());
        let n = group(&ems[i], 0);
        let v = group_trimmed(&ems[i], 1);
        match (n, v) {
            (Some(n), Some(v)) => {
                if string_is(&n, "Minor Effect Suggestion") {
                    minor = Some(v);
                } else if string_is(&n, "Major Effect Suggestion") {
                    major = Some(v);
                } else if string_is(&n, "Additional Equipment") {
                    additional = Some(v);
                }
            },
            _ => {},
        }
        i += 1;
    }
    assert(all.take(all.len() as int) =~= all);
    (minor, major, additional)
}

/// The focus that a match of `FOCUS_PATTERN` describes, before its
/// abilities; `None` also where the patterns it reads the match with do not
/// compile.
pub fn focus_from_match(m: &Vec<Option<String>>) -> (out: Option<Focus>)
    ensures
        pattern_compiles(EFFECTS_PATTERN@) && pattern_compiles(CONNECTIONS_PATTERN@) ==> (
            match out {
                Some(x) => focus_base(m.deep_view()) == Some(x@),
                None => focus_base(m.deep_view()) is None,
            }),
        !(pattern_compiles(EFFECTS_PATTERN@) && pattern_compiles(CONNECTIONS_PATTERN@)) ==> out is None,
{
    let effects = match Pattern::new(EFFECTS_PATTERN) {
        Some(p) => p,
        None => return None,
    };
    let connections = match Pattern::new(CONNECTIONS_PATTERN) {
        Some(p) => p,
        None => return None,
    };
    focus_base_exec(m, &effects, &connections)
}

/// The focus of a match before its abilities, read with the given patterns.
fn focus_base_exec(m: &Vec<Option<String>>, effects: &Pattern, connections: &Pattern) -> (out: Option<
    Focus,
>)
    requires
        effects.source() == EFFECTS_PATTERN@,
        connections.source() == CONNECTIONS_PATTERN@,
    ensures
        match out {
            Some(f) => focus_base(m.deep_view()) == Some(f@),
            None => focus_base(m.deep_view()) is None,
        },
{
    let n = group_trimmed(m, 0);
    let d = group_trimmed(m, 1);
    let a = group(m, 6);
    let (name, description) = match (n, d, a) {
        (Some(n), Some(d), Some(_)) => (upper_string(&n), d),
        _ => return None,
    };
    let (minor, major, additional) = match group_trimmed(m, 4) {
        Some(b) => {
            let groups: &[&str] = &["name", "effect"];
            assert(groups.deep_view() =~= effect_groups());
            let ems = effects.captures(b.as_str(), groups);
            effects_exec(&ems)
        },
        None => (None, None, None),
    };
    let conns = match group_trimmed(m, 3) {
        Some(c) => {
            let groups: &[&str] = &["connection"];
            assert(groups.deep_view() =~= connection_groups());
            let cms = connections.captures(c.as_str(), groups);
            first_groups(&cms)
        },
        None => {
            let v: Vec<String> = Vec::new();
            assert(v.deep_view() =~= Seq::<Seq<char>>::empty());
            Some(v)
        },
    };
    match conns {
        None => None,
        Some(cs) => {
            let f = Focus {
                name,
                description,
                note: group_trimmed(m, 2),
                abilities: Vec::new(),
                connections: cs,
                intrusions: group_trimmed(m, 7),
                additional_equipment: additional,
                minor_effect: minor,
                major_effect: major,
            };
            assert(f@.abilities =~= Seq::<AbilityRefView>::empty());
            Some(f)
        },
    }
}

/// Adds the ability named `ability` to `focus` at `tier`, and the focus to
/// the references of that ability in `map`; `false` where the tier is
/// missing, the ability is not there, or the tier is not a number.
pub fn add_ability_to_focus(
    map: &mut AbilityMap,
    focus: &mut Focus,
    ability: &[char],
    tier: &Option<String>,
    selected: bool,
) -> (ok: bool)
    ensures
        ({
            let w = add_focus_ability(
                FocusWork { map: old(map)@, focus: old(focus)@, ok: true },
                ability@,
                tier.deep_view(),
                selected,
            );
            w.ok == ok && w.map == final(map)@ && (ok ==> w.focus == final(focus)@)
        }),
{
    let t = match tier {
        Some(t) => t,
        None => return false,
    };
    let key = upper_chars(ability);
    if !map.add_reference(&key, &focus.name) {
        return false;
    }
    match parse_usize_string(t) {
        None => false,
        Some(n) => {
            let ghost before = focus@;
            let trimmed_name = trim_chars(ability);
            focus.abilities.push(
                AbilityRef { name: string_of(&trimmed_name), tier: n, preselected: selected },
            );
            assert(focus@.abilities =~= before.abilities.push(focus.abilities@.last()@));
            assert(focus@ =~= FocusView { abilities: focus@.abilities, ..before });
            true
        },
    }
}

/// The abilities named by a tier line match.
fn match_names_exec(m: &Vec<Option<String>>) -> (out: Vec<Vec<char>>)
    ensures
        views(out@) == match_names(m.deep_view()),
{
    let mut out: Vec<Vec<char>> = Vec::new();
    let mut k: usize = 1;
    while k <= 3
        invariant
            1 <= k <= 4,
            views(out@) == ({
                let md = m.deep_view();
                let a = if k > 1 && grp(md, 1) is Some {
                    seq![grp(md, 1)->0]
                } else {
                    Seq::<Seq<char>>::empty()
                };
                let b = if k > 2 && grp(md, 2) is Some {
                    a.push(grp(md, 2)->0)
                } else {
                    a
                };
                if k > 3 && grp(md, 3) is Some {
                    b.push(grp(md, 3)->0)
                } else {
                    b
                }
            }),
        decreases 4 - k,
    {
        match group(m, k) {
            Some(a) => {
                let ghost before = out@;
                out.push(chars_of(a.as_str()));
                assert(views(out@) =~= views(before).push(a@));
            },
            None => {},
        }
        k += 1;
    }
    out
}

/// Reads the foci file. Each ability a focus offers gains the focus's name
/// among its references in `abilities`; the foci come in order of name.
/// `None` where the file cannot be read through, and then `abilities` holds the references
/// added before that point.
#[verifier::loop_isolation(false)]
#[verifier::spinoff_prover]
#[verifier::rlimit(30)]
pub fn load_foci(abilities: &mut AbilityMap, text: &str) -> (out: Option<Vec<Focus>>)
    ensures
        final(abilities)@ == foci_result(old(abilities)@, text@).0,
        out is Some <==> foci_result(old(abilities)@, text@).1 is Some,
        out matches Some(v) ==> foci_result(old(abilities)@, text@).1 == Some(foci_view(v@)),
        keys_unique(old(abilities)@) && references_ordered(old(abilities)@) ==> keys_unique(
            final(abilities)@,
        ) && references_ordered(final(abilities)@),
{
    proof {
        if keys_unique(abilities@) && references_ordered(abilities@) {
            lemma_foci_sound(abilities@, text@);
        }
    }
    let regex = match Pattern::new(FOCUS_PATTERN) {
        Some(p) => p,
        None => return None,
    };
    let connections = match Pattern::new(CONNECTIONS_PATTERN) {
        Some(p) => p,
        None => return None,
    };
    let effects = match Pattern::new(EFFECTS_PATTERN) {
        Some(p) => p,
        None => return None,
    };
    let tp = tier_pattern_exec(abilities);
    let tier_re = match Pattern::new(tp.as_str()) {
        Some(p) => p,
        None => return None,
    };
    let ghost tpv = tp@;
    let raw = transliterate(text);
    let clean = string_of(&without_char_chars(&chars_of(raw.as_str()), '\r'));
    let groups: &[&str] = &[
        "name",
        "description",
        "note",
        "connection",
        "basic_abilities",
        "swap",
        "abilities",
        "intrusions",
    ];
    assert(groups.deep_view() =~= focus_groups());
    let ms = regex.captures(clean.as_str(), groups);
    if ms.len() == 0 {
        return None;
    }
    let tier_groups: &[&str] = &["tier", "a1", "a2", "a3"];
    assert(tier_groups.deep_view() =~= focus_tier_groups());
    let one = String::from_str("1");
    let ghost all = ms.deep_view();
    let ghost st0 = FociState { map: old(abilities)@, out: Seq::<FocusView>::empty(), failed: false };
    let mut out: Vec<Focus> = Vec::new();
    let mut i: usize = 0;
    assert(all.take(0) =~= Seq::<Seq<Option<Seq<char>>>>::empty());
    assert(foci_view(out@) =~= Seq::<FocusView>::empty());
    while i < ms.len()
        invariant
            i <= ms.len() == all.len(),
            all == ms.deep_view(),
            all == pattern_captures(FOCUS_PATTERN@, foci_text(text@), focus_groups()),
            all.len() > 0,
            tpv == tier_pattern_of(old(abilities)@),
            tier_re.source() == tpv,
            effects.source() == EFFECTS_PATTERN@,
            connections.source() == CONNECTIONS_PATTERN@,
            pattern_compiles(FOCUS_PATTERN@),
            pattern_compiles(CONNECTIONS_PATTERN@),
            pattern_compiles(EFFECTS_PATTERN@),
            pattern_compiles(tpv),
            tier_groups.deep_view() == focus_tier_groups(),
            one@ == "1"@,
            st0 == (FociState { map: old(abilities)@, out: Seq::<FocusView>::empty(), failed: false }),
            foci_run(all.take(i as int), tpv, st0) == (FociState {
                map: abilities@,
                out: foci_view(out@),
                failed: false,
            }),
        decreases ms.len() - i,
    {
        assert(all.take(i + 1).drop_last() =~= all.take(i as int));
        assert(all.take(i + 1).last() == ms@[i as int].deep_view());
        let ghost md = ms@[i as int].deep_view();
        let mut focus = match focus_base_exec(&ms[i], &effects, &connections) {
            Some(f) => f,
            None => {
                proof {
                    lemma_foci_failed_stays(all, i + 1, tpv, st0);
                }
                return None;
            },
        };
        let ghost w0 = FocusWork { map: abilities@, focus: focus@, ok: true };
        match group_trimmed(&ms[i], 5) {
            Some(s) => {
                let sc = chars_of(s.as_str());
                let one_tier = Some(copy_text(&one));
                if !add_ability_to_focus(abilities, &mut focus, &sc, &one_tier, false) {
                    proof {
                        lemma_foci_failed_stays(all, i + 1, tpv, st0);
                    }
                    return None;
                }
            },
            None => {},
        }
        let ghost w1 = FocusWork { map: abilities@, focus: focus@, ok: true };
        let abilities_str = match group_trimmed(&ms[i], 6) {
            Some(a) => a,
            None => {
                return None;
            },
        };
        let ams = tier_re.captures(abilities_str.as_str(), tier_groups);
        if ams.len() == 0 {
            proof {
                lemma_foci_failed_stays(all, i + 1, tpv, st0);
            }
            return None;
        }
        let ghost aall = ams.deep_view();
        let mut j: usize = 0;
        assert(aall.take(0) =~= Seq::<Seq<Option<Seq<char>>>>::empty());
        while j < ams.len()
            invariant
                j <= ams.len() == aall.len(),
                aall == ams.deep_view(),
                tier_matches_run(aall.take(j as int), w1) == (FocusWork {
                    map: abilities@,
                    focus: focus@,
                    ok: true,
                }),
            decreases ams.len() - j,
        {
            assert(aall.take(j + 1).drop_last() =~= aall.take(j as int));
            assert(aall.take(j + 1).last() == ams@[j as int].deep_view());
            let ghost amd = ams@[j as int].deep_view();
            let ghost wj = FocusWork { map: abilities@, focus: focus@, ok: true };
            let names = match_names_exec(&ams[j]);
            let tier = group(&ams[j], 0);
            let selected = names.len() == 1;
            let mut k: usize = 0;
            assert(views(names@).take(0) =~= Seq::<Seq<char>>::empty());
            while k < names.len()
                invariant
                    k <= names.len(),
                    views(names@) == match_names(amd),
                    tier.deep_view() == grp(amd, 0),
                    selected == (match_names(amd).len() == 1),
                    names_run(views(names@).take(k as int), wj, grp(amd, 0), selected) == (
                    FocusWork { map: abilities@, focus: focus@, ok: true }),
                decreases names.len() - k,
            {
                let ghost nv = views(names@);
                assert(nv.take(k + 1).drop_last() =~= nv.take(k as int));
                assert(nv.take(k + 1).last() == names@[k as int]@);
                let a = trim_chars(&names[k]);
                if !add_ability_to_focus(abilities, &mut focus, &a, &tier, selected) {
                    proof {
                        lemma_names_failed_stays(nv, k + 1, wj, grp(amd, 0), selected);
                        assert(nv.take(nv.len() as int) =~= nv);
                        lemma_tiers_failed_stays(aall, j + 1, w1);
                        lemma_foci_failed_stays(all, i + 1, tpv, st0);
                    }
                    return None;
                }
                k += 1;
            }
            assert(views(names@).take(names.len() as int) =~= views(names@));
            j += 1;
        }
        assert(aall.take(aall.len() as int) =~= aall);
        let ghost fv = focus@;
        let ghost before = out@;
        out.push(focus);
        assert(foci_view(out@) =~= foci_view(before).push(fv));
        i += 1;
    }
    assert(all.take(all.len() as int) =~= all);
    let sorted = sort_by_name(out);
    proof {
        lemma_sort_map(out@, focus_view_fn(), name_of::<Focus>(), focus_key());
    }
    Some(sorted)
}

fn copy_text(s: &String) -> (out: String)
    ensures
        out@ == s@,
{
    s.clone()
}

/// The foci read from a file come in order of name, and they are the foci
/// that the reading built, none lost and none added.
pub proof fn lemma_foci_in_order(map: Seq<AbilityView>, text: Seq<char>)
    ensures
        foci_result(map, text).1 is Some ==> sorted_by_key(
            foci_result(map, text).1.unwrap(),
            focus_key(),
        ),
        foci_result(map, text).1 is Some ==> {
            let st = foci_run(
                pattern_captures(FOCUS_PATTERN@, foci_text(text), focus_groups()),
                tier_pattern_of(map),
                FociState { map: map, out: Seq::<FocusView>::empty(), failed: false },
            );
            foci_result(map, text).1.unwrap().to_multiset() == st.out.to_multiset()
        },
{
    let st = foci_run(
        pattern_captures(FOCUS_PATTERN@, foci_text(text), focus_groups()),
        tier_pattern_of(map),
        FociState { map: map, out: Seq::<FocusView>::empty(), failed: false },
    );
    lemma_sort_by_key(st.out, focus_key());
}

spec fn map_ok(map0: Seq<AbilityView>, map: Seq<AbilityView>) -> bool {
    references_ordered(map) && only_references_added(map0, map)
}

spec fn work_ok(map0: Seq<AbilityView>, w: FocusWork) -> bool {
    map_ok(map0, w.map) && refs_found(w.focus.abilities, map0)
}

proof fn lemma_add_focus_ability_ok(
    map0: Seq<AbilityView>,
    w: FocusWork,
    ability: Seq<char>,
    tier: Option<Seq<char>>,
    selected: bool,
)
    requires
        work_ok(map0, w),
        trim(ability) == ability,
    ensures
        work_ok(map0, add_focus_ability(w, ability, tier, selected)),
        add_focus_ability(w, ability, tier, selected).focus.name == w.focus.name,
{
    if let Some(t) = tier {
        lemma_find_key_found(w.map, upper(ability));
        lemma_references_added_keys(map0, w.map);
        if let Some(i) = find_key(w.map, upper(ability)) {
            lemma_reference_added(w.map, i, w.focus.name);
            lemma_references_added_preorder(
                map0,
                w.map,
                w.map.update(i, with_reference(w.map[i], w.focus.name)),
            );
            if let Some(n) = parse_usize(t) {
                let a = w.focus.abilities;
                let r = AbilityRefView { name: trim(ability), tier: n, preselected: selected };
                assert forall|k: int| 0 <= k < a.push(r).len() implies find_key(
                    map0,
                    upper(#[trigger] a.push(r)[k].name),
                ) is Some by {
                    if k < a.len() {
                        assert(a.push(r)[k] == a[k]);
                    }
                }
            }
        }
    }
}

proof fn lemma_names_run_ok(
    map0: Seq<AbilityView>,
    names: Seq<Seq<char>>,
    w: FocusWork,
    tier: Option<Seq<char>>,
    selected: bool,
)
    requires
        work_ok(map0, w),
    ensures
        work_ok(map0, names_run(names, w, tier, selected)),
        names_run(names, w, tier, selected).focus.name == w.focus.name,
    decreases names.len(),
{
    if names.len() > 0 {
        lemma_names_run_ok(map0, names.drop_last(), w, tier, selected);
        let p = names_run(names.drop_last(), w, tier, selected);
        if p.ok {
            lemma_trim_idempotent(names.last());
            lemma_add_focus_ability_ok(map0, p, trim(names.last()), tier, selected);
        }
    }
}

proof fn lemma_tier_matches_run_ok(map0: Seq<AbilityView>, ams: Seq<Seq<Option<Seq<char>>>>, w: FocusWork)
    requires
        work_ok(map0, w),
    ensures
        work_ok(map0, tier_matches_run(ams, w)),
    decreases ams.len(),
{
    if ams.len() > 0 {
        lemma_tier_matches_run_ok(map0, ams.drop_last(), w);
        let p = tier_matches_run(ams.drop_last(), w);
        if p.ok {
            let m = ams.last();
            lemma_names_run_ok(map0, match_names(m), p, grp(m, 0), match_names(m).len() == 1);
        }
    }
}

spec fn foci_state_ok(map0: Seq<AbilityView>, st: FociState) -> bool {
    &&& map_ok(map0, st.map)
    &&& forall|f: int| 0 <= f < st.out.len() ==> refs_found(#[trigger] st.out[f].abilities, map0)
}

proof fn lemma_foci_run_ok(
    map0: Seq<AbilityView>,
    ms: Seq<Seq<Option<Seq<char>>>>,
    tp: Seq<char>,
    st: FociState,
)
    requires
        foci_state_ok(map0, st),
    ensures
        foci_state_ok(map0, foci_run(ms, tp, st)),
    decreases ms.len(),
{
    if ms.len() > 0 {
        lemma_foci_run_ok(map0, ms.drop_last(), tp, st);
        let p = foci_run(ms.drop_last(), tp, st);
        let m = ms.last();
        if !p.failed {
            if let Some(f0) = focus_base(m) {
                let w0 = FocusWork { map: p.map, focus: f0, ok: true };
                assert(refs_found(f0.abilities, map0));
                if let Some(x) = grp(m, 5) {
                    lemma_trim_idempotent(x);
                    lemma_add_focus_ability_ok(map0, w0, trim(x), Some("1"@), false);
                }
                let w1 = match grp(m, 5) {
                    Some(x) => add_focus_ability(w0, trim(x), Some("1"@), false),
                    None => w0,
                };
                if w1.ok {
                    let ams = pattern_captures(tp, trim(grp(m, 6)->0), focus_tier_groups());
                    lemma_tier_matches_run_ok(map0, ams, w1);
                    let w2 = tier_matches_run(ams, w1);
                    if ams.len() > 0 && w2.ok {
                        let out = p.out.push(w2.focus);
                        assert forall|x: int| 0 <= x < out.len() implies refs_found(
                            #[trigger] out[x].abilities,
                            map0,
                        ) by {
                            if x < p.out.len() {
                                assert(out[x] == p.out[x]);
                            }
                        }
                    }
                }
            }
        }
    }
}

/// Reading the foci changes the abilities only by adding references (each
/// keeps its key and place, so the keys stay distinct, and its references
/// stay an ordered set), and every ability a focus offers is one of them.
pub proof fn lemma_foci_sound(map: Seq<AbilityView>, text: Seq<char>)
    requires
        keys_unique(map),
        references_ordered(map),
    ensures
        only_references_added(map, foci_result(map, text).0),
        keys_unique(foci_result(map, text).0),
        references_ordered(foci_result(map, text).0),
        foci_result(map, text).1 matches Some(fs) ==> forall|f: int|
            0 <= f < fs.len() ==> refs_found(#[trigger] fs[f].abilities, map),
{
    lemma_references_added_preorder(map, map, map);
    let tp = tier_pattern_of(map);
    let ms = pattern_captures(FOCUS_PATTERN@, foci_text(text), focus_groups());
    let st0 = FociState { map: map, out: Seq::<FocusView>::empty(), failed: false };
    lemma_foci_run_ok(map, ms, tp, st0);
    lemma_references_added_keys(map, foci_result(map, text).0);
    let st = foci_run(ms, tp, st0);
    let sorted = sort_by_key(st.out, focus_key());
    lemma_sort_by_key(st.out, focus_key());
    assert forall|x: int| 0 <= x < sorted.len() implies refs_found(
        #[trigger] sorted[x].abilities,
        map,
    ) by {
        assert(sorted.to_multiset().count(sorted[x]) > 0) by {
            broadcast use vstd::seq_lib::group_to_multiset_ensures;

            assert(sorted.contains(sorted[x]));
        }
        assert(st.out.contains(sorted[x])) by {
            broadcast use vstd::seq_lib::group_to_multiset_ensures;
        }
    }
}

/// The label of the effect line kind `k`: 0 minor effect, 1 major effect, 2
/// additional equipment.
pub open spec fn effect_label(k: int) -> Seq<char> {
    if k == 0 {
        "Minor Effect Suggestion"@
    } else if k == 1 {
        "Major Effect Suggestion"@
    } else {
        "Additional Equipment"@
    }
}

/// Component `k` of the three effects.
pub open spec fn effect_part(t: (Option<Seq<char>>, Option<Seq<char>>, Option<Seq<char>>), k: int) -> Option<
    Seq<char>,
> {
    if k == 0 {
        t.0
    } else if k == 1 {
        t.1
    } else {
        t.2
    }
}

/// Whether the effect line `e` has label `label` and a text.
pub open spec fn labelled(e: Seq<Option<Seq<char>>>, label: Seq<char>) -> bool {
    grp(e, 0) == Some(label) && grp(e, 1) is Some
}

/// Each effect of a focus (minor, major, additional equipment) is the text,
/// trimmed, of the last effect line with its label; none where no line has
/// that label.
pub proof fn lemma_effects_last(ems: Seq<Seq<Option<Seq<char>>>>, k: int)
    requires
        0 <= k < 3,
    ensures
        effect_part(effects_run(ems), k) is None <==> forall|i: int|
            0 <= i < ems.len() ==> !labelled(#[trigger] ems[i], effect_label(k)),
        effect_part(effects_run(ems), k) matches Some(v) ==> exists|i: int|
            0 <= i < ems.len() && labelled(#[trigger] ems[i], effect_label(k)) && v == trim(
                grp(ems[i], 1)->0,
            ) && forall|j: int| i < j < ems.len() ==> !labelled(#[trigger] ems[j], effect_label(k)),
    decreases ems.len(),
{
    reveal_strlit("Minor Effect Suggestion");
    reveal_strlit("Major Effect Suggestion");
    reveal_strlit("Additional Equipment");
    assert(effect_label(0) != effect_label(1) && effect_label(0) != effect_label(2) && effect_label(1)
        != effect_label(2)) by {
        assert("Minor Effect Suggestion"@[1] != "Major Effect Suggestion"@[1]);
        assert("Minor Effect Suggestion"@.len() != "Additional Equipment"@.len());
        assert("Major Effect Suggestion"@.len() != "Additional Equipment"@.len());
    }
    if ems.len() > 0 {
        let d = ems.drop_last();
        lemma_effects_last(d, k);
        let e = ems.last();
        assert(ems[ems.len() - 1] == e);
        assert forall|i: int| 0 <= i < d.len() implies d[i] == ems[i] by {}
        let l = effect_label(k);
        if labelled(e, l) {
            assert(grp(e, 0) == Some(l));
            assert(effect_part(effects_run(ems), k) == Some(trim(grp(e, 1)->0)));
        } else {
            assert(effect_part(effects_run(ems), k) == effect_part(effects_run(d), k));
            if let Some(v) = effect_part(effects_run(d), k) {
                let i = choose|i: int|
                    0 <= i < d.len() && labelled(#[trigger] d[i], l) && v == trim(grp(d[i], 1)->0)
                        && forall|j: int| i < j < d.len() ==> !labelled(#[trigger] d[j], l);
                assert(labelled(ems[i], l));
                assert forall|j: int| i < j < ems.len() implies !labelled(#[trigger] ems[j], l) by {
                    if j < d.len() {
                        assert(d[j] == ems[j]);
                    }
                }
            }
        }
    }
}

/// The effects of a focus read from a match: each (minor, major, additional
/// equipment) is the text, trimmed, of the last effect line with its label in
/// the focus's basic abilities; none where there is no such line.
pub proof fn lemma_focus_effects(m: Seq<Option<Seq<char>>>, k: int)
    requires
        0 <= k < 3,
    ensures
        focus_base(m) matches Some(f) ==> ({
            let part = effect_part((f.minor_effect, f.major_effect, f.additional_equipment), k);
            let ems = pattern_captures(EFFECTS_PATTERN@, trim(grp(m, 4)->0), effect_groups());
            &&& grp(m, 4) is None ==> part is None
            &&& grp(m, 4) is Some ==> (part is None <==> forall|i: int|
                0 <= i < ems.len() ==> !labelled(#[trigger] ems[i], effect_label(k)))
            &&& grp(m, 4) is Some ==> (part matches Some(v) ==> exists|i: int|
                0 <= i < ems.len() && labelled(#[trigger] ems[i], effect_label(k)) && v == trim(
                    grp(ems[i], 1)->0,
                ) && forall|j: int| i < j < ems.len() ==> !labelled(#[trigger] ems[j], effect_label(k)))
        }),
{
    if let Some(b) = grp(m, 4) {
        lemma_effects_last(pattern_captures(EFFECTS_PATTERN@, trim(b), effect_groups()), k);
    }
}

proof fn lemma_names_run_refs(names: Seq<Seq<char>>, w: FocusWork, tier: Option<Seq<char>>, selected: bool)
    ensures
        ({
            let r = names_run(names, w, tier, selected);
            let n = w.focus.abilities.len();
            &&& r.focus.name == w.focus.name
            &&& r.focus.abilities.len() >= n
            &&& forall|k: int| 0 <= k < n ==> #[trigger] r.focus.abilities[k] == w.focus.abilities[k]
            &&& r.focus.abilities.len() > n ==> tier is Some
            &&& forall|k: int|
                n <= k < r.focus.abilities.len() ==> parse_usize(tier->0) == Some(
                    (#[trigger] r.focus.abilities[k]).tier,
                ) && r.focus.abilities[k].preselected == selected
            &&& r.ok ==> w.ok && r.focus.abilities.len() == n + names.len() && forall|i: int|
                0 <= i < names.len() ==> (#[trigger] r.focus.abilities[n + i]).name == trim(names[i])
        }),
    decreases names.len(),
{
    if names.len() > 0 {
        let d = names.drop_last();
        lemma_names_run_refs(d, w, tier, selected);
        let p = names_run(d, w, tier, selected);
        lemma_trim_idempotent(names.last());
        if p.ok {
            let r = names_run(names, w, tier, selected);
            let n = w.focus.abilities.len();
            assert(r == add_focus_ability(p, trim(names.last()), tier, selected));
            if r.ok {
                let t = parse_usize(tier->0)->0;
                assert(r.focus.abilities == p.focus.abilities.push(
                    AbilityRefView { name: trim(trim(names.last())), tier: t, preselected: selected },
                ));
                assert forall|k: int| 0 <= k < n implies #[trigger] r.focus.abilities[k]
                    == w.focus.abilities[k] by {
                    assert(r.focus.abilities[k] == p.focus.abilities[k]);
                }
                assert forall|k: int| n <= k < r.focus.abilities.len() implies parse_usize(
                    tier->0,
                ) == Some((#[trigger] r.focus.abilities[k]).tier) && r.focus.abilities[k].preselected
                    == selected by {
                    if k < p.focus.abilities.len() {
                        assert(r.focus.abilities[k] == p.focus.abilities[k]);
                    }
                }
                assert forall|i: int| 0 <= i < names.len() implies (#[trigger] r.focus.abilities[n
                    + i]).name == trim(names[i]) by {
                    if i < d.len() {
                        assert(d[i] == names[i]);
                        assert(r.focus.abilities[n + i] == p.focus.abilities[n + i]);
                    }
                }
            } else {
                assert(r.focus.abilities == p.focus.abilities);
                assert forall|k: int| n <= k < r.focus.abilities.len() implies parse_usize(
                    tier->0,
                ) == Some((#[trigger] r.focus.abilities[k]).tier) && r.focus.abilities[k].preselected
                    == selected by {
                    assert(r.focus.abilities[k] == p.focus.abilities[k]);
                }
            }
        } else {
            let r = names_run(names, w, tier, selected);
            assert(r == p);
            assert forall|k: int| w.focus.abilities.len() <= k < r.focus.abilities.len() implies parse_usize(tier->0) == Some((#[trigger] r.focus.abilities[k]).tier)
                && r.focus.abilities[k].preselected == selected by {
                assert(r.focus.abilities[k] == p.focus.abilities[k]);
            }
        }
    } else {
        assert(names_run(names, w, tier, selected) == w);
    }
}

/// A tier line `Tier N: A or B ...` of a focus adds each ability it names,
/// in order, trimmed, at tier N; an ability alone on its line is
/// preselected, and those offered as a choice are not. What the focus held
/// before stays.
pub proof fn lemma_focus_tier_line(w: FocusWork, m: Seq<Option<Seq<char>>>)
    ensures
        ({
            let names = match_names(m);
            let r = names_run(names, w, grp(m, 0), names.len() == 1);
            let n = w.focus.abilities.len();
            r.ok ==> {
                &&& r.focus.abilities.len() == n + names.len()
                &&& forall|k: int| 0 <= k < n ==> #[trigger] r.focus.abilities[k] == w.focus.abilities[k]
                &&& forall|i: int|
                    0 <= i < names.len() ==> {
                        let a = #[trigger] r.focus.abilities[n + i];
                        &&& a.name == trim(names[i])
                        &&& grp(m, 0) is Some && parse_usize(grp(m, 0)->0) == Some(a.tier)
                        &&& a.preselected == (names.len() == 1)
                    }
            }
        }),
{
    let names = match_names(m);
    lemma_names_run_refs(names, w, grp(m, 0), names.len() == 1);
    let r = names_run(names, w, grp(m, 0), names.len() == 1);
    let n = w.focus.abilities.len();
    if r.ok {
        assert forall|i: int| 0 <= i < names.len() implies {
            let a = #[trigger] r.focus.abilities[n + i];
            &&& a.name == trim(names[i])
            &&& grp(m, 0) is Some && parse_usize(grp(m, 0)->0) == Some(a.tier)
            &&& a.preselected == (names.len() == 1)
        } by {
            assert(n <= n + i < r.focus.abilities.len());
        }
    }
}

} // verus!
