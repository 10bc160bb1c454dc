//! Flavors: sets of abilities by tier that a type can take instead of its own.

use vstd::prelude::*;
use crate::pattern::{Pattern, pattern_compiles, pattern_captures};
use crate::text::{trim, upper, parse_usize, split_char, views, chars_of, trim_chars, string_of,
    split_chars, upper_chars, parse_usize_string, lemma_trim_idempotent};
use crate::fields::{grp, group};
use crate::order::{Named, name_of, sort_by_name, sort_by_key, sorted_by_key, lemma_sort_map,
    lemma_sort_by_key};
use crate::translit::{transliterate, transliterated};
use crate::tables::table_lines;
use crate::ability::{AbilityMap, AbilityRef, AbilityRefView, AbilityView, refs_view, find_key,
    with_reference, keys_unique, references_ordered, only_references_added, lemma_reference_added,
    lemma_references_added_preorder, lemma_references_added_keys, refs_found};

verus! {

/// The heading of a flavor: its kind, then its description.
pub const FLAVOR_NAME_PATTERN: &'static str = r"^(?P<flavor>STEALTH FLAVOR|TECHNOLOGY FLAVOR|MAGIC FLAVOR|COMBAT FLAVOR|SKILLS AND KNOWLEDGE FLAVOR)\s*(?P<description>[^\n]*?)$";

/// The heading of the abilities of one tier.
pub const FLAVOR_TIER_PATTERN: &'static str = r"^(?P<tier>\d)-TIER [^\n]* ABILITIES$";

pub struct Flavor {
    pub name: String,
    pub description: String,
    pub abilities: Vec<AbilityRef>,
}

#[verifier::ext_equal]
pub struct FlavorView {
    pub name: Seq<char>,
    pub description: Seq<char>,
    pub abilities: Seq<AbilityRefView>,
}

impl View for Flavor {
    type V = FlavorView;

    open spec fn view(&self) -> FlavorView {
        FlavorView {
            name: self.name@,
            description: self.description@,
            abilities: refs_view(self.abilities@),
        }
    }
}

impl Named for Flavor {
    open spec fn name_key(&self) -> Seq<char> {
        self.name@
    }

    fn name_text(&self) -> (r: &String) {
        &self.name
    }
}

pub open spec fn flavor_view_fn() -> spec_fn(Flavor) -> FlavorView {
    |f: Flavor| f@
}

pub open spec fn flavor_key() -> spec_fn(FlavorView) -> Seq<char> {
    |f: FlavorView| f.name
}

pub open spec fn flavors_view(v: Seq<Flavor>) -> Seq<FlavorView> {
    v.map_values(flavor_view_fn())
}

pub open spec fn flavor_name_groups() -> Seq<Seq<char>> {
    seq!["flavor"@, "description"@]
}

pub open spec fn flavor_tier_groups() -> Seq<Seq<char>> {
    seq!["tier"@]
}

/// The reading of the flavors file after some lines: the abilities, the
/// finished flavors, the fields of the flavor being read (`None` where not
/// set), the tier being read (`None` before any tier heading of the flavor),
/// and whether the reading has stopped on an error.
#[verifier::ext_equal]
pub struct FlavorState {
    pub map: Seq<AbilityView>,
    pub out: Seq<FlavorView>,
    pub name: Option<Seq<char>>,
    pub description: Option<Seq<char>>,
    pub abilities: Option<Seq<AbilityRefView>>,
    pub tier: Option<usize>,
    pub failed: bool,
}

/// The flavor whose fields have been read, where all of them are set.
pub open spec fn built_flavor(st: FlavorState) -> Option<FlavorView> {
    match (st.name, st.description, st.abilities) {
        (Some(n), Some(d), Some(a)) => Some(FlavorView { name: n, description: d, abilities: a }),
        _ => None,
    }
}

/// One line (trimmed) of the flavors file. A flavor heading finishes the
/// flavor being read if a tier of it has been read, then starts a new one
/// (its kind upper-cased); a tier heading sets the tier; any other non-empty
/// line within a tier names an ability, which is added to the flavor and
/// gains the flavor among its references. The reading stops where a flavor
/// cannot be finished, or a named ability is not there, or an ability comes
/// before any flavor.
pub open spec fn flavor_step(st: FlavorState, line: Seq<char>) -> FlavorState {
    if st.failed {
        st
    } else if pattern_captures(FLAVOR_NAME_PATTERN@, line, flavor_name_groups()).len() > 0 {
        let m = pattern_captures(FLAVOR_NAME_PATTERN@, trim(line), flavor_name_groups())[0];
        let st1 = if st.tier is Some {
            match built_flavor(st) {
                Some(f) => FlavorState {
                    out: st.out.push(f),
                    name: None,
                    description: None,
                    abilities: None,
                    tier: None,
                    ..st
                },
                None => FlavorState { failed: true, ..st },
            }
        } else {
            st
        };
        if st1.failed {
            st1
        } else {
            match (grp(m, 0), grp(m, 1)) {
                (Some(f), Some(d)) => FlavorState {
                    name: Some(upper(f)),
                    description: Some(d),
                    abilities: Some(Seq::<AbilityRefView>::empty()),
                    ..st1
                },
                _ => FlavorState { failed: true, ..st1 },
            }
        }
    } else if pattern_captures(FLAVOR_TIER_PATTERN@, line, flavor_tier_groups()).len() > 0 {
        let m = pattern_captures(FLAVOR_TIER_PATTERN@, line, flavor_tier_groups())[0];
        match grp(m, 0) {
            Some(t) => match parse_usize(t) {
                Some(n) => FlavorState { tier: Some(n), ..st },
                None => FlavorState { failed: true, ..st },
            },
            None => FlavorState { failed: true, ..st },
        }
    } else {
        match st.tier {
            None => st,
            Some(t) => if line.len() == 0 {
                st
            } else {
                match (find_key(st.map, upper(line)), st.name) {
                    (Some(i), Some(n)) => FlavorState {
                        map: st.map.update(i, with_reference(st.map[i], n)),
                        abilities: Some(
                            match st.abilities {
                                Some(a) => a,
                                None => Seq::<AbilityRefView>::empty(),
                            }.push(AbilityRefView { name: line, tier: t, preselected: false }),
                        ),
                        ..st
                    },
                    _ => FlavorState { failed: true, ..st },
                }
            },
        }
    }
}

/// The flavors file read line by line from `st`.
pub open spec fn flavor_run(lines: Seq<Seq<char>>, st: FlavorState) -> FlavorState
    decreases lines.len(),
{
    if lines.len() == 0 {
        st
    } else {
        flavor_step(flavor_run(lines.drop_last(), st), lines.last())
    }
}

/// The state before the first line.
pub open spec fn flavor_start(map: Seq<AbilityView>) -> FlavorState {
    FlavorState {
        map: map,
        out: Seq::<FlavorView>::empty(),
        name: None,
        description: None,
        abilities: None,
        tier: None,
        failed: false,
    }
}

/// The abilities after reading the flavors file (transliterated), and the
/// flavors in order of name; no flavors where the reading stops or the last
/// flavor cannot be finished.
pub open spec fn flavors_result(map: Seq<AbilityView>, text: Seq<char>) -> (
    Seq<AbilityView>,
    Option<Seq<FlavorView>>,
) {
    if !(pattern_compiles(FLAVOR_NAME_PATTERN@) && pattern_compiles(FLAVOR_TIER_PATTERN@)) {
        (map, None)
    } else {
        let st = flavor_run(table_lines(transliterated(text)), flavor_start(map));
        if st.failed {
            (st.map, None)
        } else {
            match built_flavor(st) {
                None => (st.map, None),
                Some(f) => (st.map, Some(sort_by_key(st.out.push(f), flavor_key()))),
            }
        }
    }
}

proof fn lemma_flavor_failed_stays(lines: Seq<Seq<char>>, k: int, st: FlavorState)
    requires
        0 <= k <= lines.len(),
        flavor_run(lines.take(k), st).failed,
    ensures
        flavor_run(lines, st) == flavor_run(lines.take(k), st),
    decreases lines.len() - k,
{
    if k < lines.len() {
        assert(lines.take(k + 1).drop_last() =~= lines.take(k));
        lemma_flavor_failed_stays(lines, k + 1, st);
    } else {
        assert(lines.take(k) =~= lines);
    }
}

/// The flavor whose fields have been read.
fn build(
    name: Option<String>,
    description: Option<String>,
    abilities: Option<Vec<AbilityRef>>,
) -> (out: Option<Flavor>)
    ensures
        opt_flavor(out) == built_flavor(
            FlavorState {
                map: Seq::<AbilityView>::empty(),
                out: Seq::<FlavorView>::empty(),
                name: name.deep_view(),
                description: description.deep_view(),
                abilities: opt_refs(abilities),
                tier: None,
                failed: false,
            },
        ),
{
    match (name, description, abilities) {
        (Some(n), Some(d), Some(a)) => Some(Flavor { name: n, description: d, abilities: a }),
        _ => None,
    }
}

pub open spec fn opt_flavor(o: Option<Flavor>) -> Option<FlavorView> {
    match o {
        Some(f) => Some(f@),
        None => None,
    }
}

pub open spec fn opt_refs(o: Option<Vec<AbilityRef>>) -> Option<Seq<AbilityRefView>> {
    match o {
        Some(v) => Some(refs_view(v@)),
        None => None,
    }
}

/// Reads the flavors file. Each ability a flavor offers gains the flavor's
/// name among its references in `abilities`; the flavors come in order of
/// name. `None` where the file cannot be read through (see `flavor_step`), and then
/// `abilities` holds the references added before that line.
pub fn load_flavors(abilities: &mut AbilityMap, text: &str) -> (out: Option<Vec<Flavor>>)
    ensures
        final(abilities)@ == flavors_result(old(abilities)@, text@).0,
        out is Some <==> flavors_result(old(abilities)@, text@).1 is Some,
        out matches Some(v) ==> flavors_result(old(abilities)@, text@).1 == Some(
            flavors_view(v@),
        ),
        keys_unique(old(abilities)@) && references_ordered(old(abilities)@) ==> keys_unique(
            final(abilities)@,
        ) && references_ordered(final(abilities)@),
{
    proof {
        if keys_unique(old(abilities)@) && references_ordered(old(abilities)@) {
            lemma_flavors_sound(old(abilities)@, text@);
        }
    }
    let name_re = match Pattern::new(FLAVOR_NAME_PATTERN) {
        Some(p) => p,
        None => return None,
    };
    let tier_re = match Pattern::new(FLAVOR_TIER_PATTERN) {
        Some(p) => p,
        None => return None,
    };
    let name_groups: &[&str] = &["flavor", "description"];
    assert(name_groups.deep_view() =~= flavor_name_groups());
    let tier_groups: &[&str] = &["tier"];
    assert(tier_groups.deep_view() =~= flavor_tier_groups());
    let t = transliterate(text);
    let tc = chars_of(t.as_str());
    let lines = split_chars(&tc, '\n');
    let ghost all = table_lines(transliterated(text@));
    let ghost st0 = flavor_start(old(abilities)@);
    let mut out: Vec<Flavor> = Vec::new();
    let mut name: Option<String> = None;
    let mut description: Option<String> = None;
    let mut refs: Option<Vec<AbilityRef>> = None;
    let mut tier: Option<usize> = None;
    let mut i: usize = 0;
    assert(all.take(0) =~= Seq::<Seq<char>>::empty());
    assert(flavors_view(out@) =~= Seq::<FlavorView>::empty());
    while i < lines.len()
        invariant
            keys_unique(old(abilities)@) && references_ordered(old(abilities)@) ==> keys_unique(
                flavors_result(old(abilities)@, text@).0,
            ) && references_ordered(flavors_result(old(abilities)@, text@).0),
            i <= lines.len() == all.len(),
            all == table_lines(transliterated(text@)),
            views(lines@) == split_char(transliterated(text@), '\n'),
            name_re.source() == FLAVOR_NAME_PATTERN@,
            tier_re.source() == FLAVOR_TIER_PATTERN@,
            name_groups.deep_view() == flavor_name_groups(),
            tier_groups.deep_view() == flavor_tier_groups(),
            pattern_compiles(FLAVOR_NAME_PATTERN@),
            pattern_compiles(FLAVOR_TIER_PATTERN@),
            st0 == flavor_start(old(abilities)@),
            flavor_run(all.take(i as int), st0) == (FlavorState {
                map: abilities@,
                out: flavors_view(out@),
                name: name.deep_view(),
                description: description.deep_view(),
                abilities: opt_refs(refs),
                tier: tier,
                failed: false,
            }),
        decreases lines.len() - i,
    {
        assert(all.take(i + 1).drop_last() =~= all.take(i as int));
        assert(views(lines@)[i as int] == lines@[i as int]@);
        let lc = trim_chars(&lines[i]);
        assert(all.take(i + 1).last() == lc@);
        let line = string_of(&lc);
        let ghost st = flavor_run(all.take(i as int), st0);
        let nm = name_re.captures(line.as_str(), name_groups);
        if nm.len() > 0 {
            proof {
                lemma_trim_idempotent(lines@[i as int]@);
            }
            if tier.is_some() {
                let n = name;
                let d = description;
                let r = refs;
                name = None;
                description = None;
                refs = None;
                match build(n, d, r) {
                    Some(f) => {
                        let ghost before = out@;
                        out.push(f);
                        assert(flavors_view(out@) =~= flavors_view(before).push(out@.last()@));
                    },
                    None => {
                        proof {
                            lemma_flavor_failed_stays(all, i + 1, st0);
                        }
                        return None;
                    },
                }
                tier = None;
            }
            let f = group(&nm[0], 0);
            let d = group(&nm[0], 1);
            match (f, d) {
                (Some(f), Some(d)) => {
                    let fc = chars_of(f.as_str());
                    name = Some(string_of(&upper_chars(&fc)));
                    description = Some(d);
                    refs = Some(Vec::new());
                    assert(refs_view(Seq::<AbilityRef>::empty()) =~= Seq::<
                        AbilityRefView,
                    >::empty());
                },
                _ => {
                    proof {
                        lemma_flavor_failed_stays(all, i + 1, st0);
                    }
                    return None;
                },
            }
        } else {
            let tm = tier_re.captures(line.as_str(), tier_groups);
            if tm.len() > 0 {
                match group(&tm[0], 0) {
                    Some(ts) => match parse_usize_string(&ts) {
                        Some(n) => {
                            tier = Some(n);
                        },
                        None => {
                            proof {
                                lemma_flavor_failed_stays(all, i + 1, st0);
                            }
                            return None;
                        },
                    },
                    None => {
                        proof {
                            lemma_flavor_failed_stays(all, i + 1, st0);
                        }
                        return None;
                    },
                }
            } else {
                match tier {
                    None => {},
                    Some(t) => {
                        if lc.len() != 0 {
                            let key = upper_chars(&lc);
                            let found = match &name {
                                Some(n) => abilities.add_reference(&key, n),
                                None => false,
                            };
                            if !found {
                                proof {
                                    lemma_flavor_failed_stays(all, i + 1, st0);
                                }
                                return None;
                            }
                            let mut r = match refs {
                                Some(r) => r,
                                None => Vec::new(),
                            };
                            let ghost before = r@;
                            r.push(AbilityRef { name: copy_line(&line), tier: t, preselected: false });
                            assert(refs_view(r@) =~= refs_view(before).push(r@.last()@));
                            refs = Some(r);
                        }
                    },
                }
            }
        }
        i += 1;
    }
    assert(all.take(all.len() as int) =~= all);
    match build(name, description, refs) {
        Some(f) => {
            let ghost before = out@;
            out.push(f);
            assert(flavors_view(out@) =~= flavors_view(before).push(out@.last()@));
            let sorted = sort_by_name(out);
            proof {
                lemma_sort_map(out@, flavor_view_fn(), name_of::<Flavor>(), flavor_key());
            }
            Some(sorted)
        },
        None => None,
    }
}

fn copy_line(s: &String) -> (out: String)
    ensures
        out@ == s@,
{
    s.clone()
}

/// The flavors read from a file come in order of name, and they are the
/// flavors that the reading built, none lost and none added.
pub proof fn lemma_flavors_in_order(map: Seq<AbilityView>, text: Seq<char>)
    ensures
        flavors_result(map, text).1 is Some ==> sorted_by_key(
            flavors_result(map, text).1.unwrap(),
            flavor_key(),
        ),
        flavors_result(map, text).1 is Some ==> {
            let st = flavor_run(table_lines(transliterated(text)), flavor_start(map));
            &&& built_flavor(st) is Some
            &&& flavors_result(map, text).1.unwrap().to_multiset() == st.out.push(
                built_flavor(st).unwrap(),
            ).to_multiset()
        },
{
    let st = flavor_run(table_lines(transliterated(text)), flavor_start(map));
    if let Some(f) = built_flavor(st) {
        lemma_sort_by_key(st.out.push(f), flavor_key());
    }
}

spec fn flavor_state_ok(map0: Seq<AbilityView>, st: FlavorState) -> bool {
    &&& references_ordered(st.map)
    &&& only_references_added(map0, st.map)
    &&& forall|f: int| 0 <= f < st.out.len() ==> refs_found(#[trigger] st.out[f].abilities, map0)
    &&& st.abilities matches Some(a) ==> refs_found(a, map0)
}

proof fn lemma_flavor_run_ok(lines: Seq<Seq<char>>, map0: Seq<AbilityView>, st: FlavorState)
    requires
        flavor_state_ok(map0, st),
    ensures
        flavor_state_ok(map0, flavor_run(lines, st)),
    decreases lines.len(),
{
    if lines.len() > 0 {
        lemma_flavor_run_ok(lines.drop_last(), map0, st);
        let p = flavor_run(lines.drop_last(), st);
        let line = lines.last();
        lemma_references_added_keys(map0, p.map);
        if !p.failed && pattern_captures(FLAVOR_NAME_PATTERN@, line, flavor_name_groups()).len()
            == 0 && pattern_captures(FLAVOR_TIER_PATTERN@, line, flavor_tier_groups()).len() == 0 {
            if let (Some(t), Some(n)) = (p.tier, p.name) {
                if line.len() != 0 {
                    if let Some(i) = find_key(p.map, upper(line)) {
                        crate::ability::lemma_find_key_found(p.map, upper(line));
                        lemma_reference_added(p.map, i, n);
                        let m2 = p.map.update(i, with_reference(p.map[i], n));
                        lemma_references_added_preorder(map0, p.map, m2);
                        let a = match p.abilities {
                            Some(a) => a,
                            None => Seq::<AbilityRefView>::empty(),
                        };
                        let r = AbilityRefView { name: line, tier: t, preselected: false };
                        assert forall|k: int| 0 <= k < a.push(r).len() implies find_key(
                            map0,
                            upper(#[trigger] a.push(r)[k].name),
                        ) is Some by {
                            if k < a.len() {
                                assert(a.push(r)[k] == a[k]);
                            }
                        }
                    }
                }
            }
        } else if !p.failed && pattern_captures(FLAVOR_NAME_PATTERN@, line, flavor_name_groups()).len()
            > 0 {
            if p.tier is Some {
                if let Some(f) = built_flavor(p) {
                    let out = p.out.push(f);
                    assert forall|x: int| 0 <= x < out.len() implies refs_found(
                        #[trigger] out[x].abilities,
                        map0,
                    ) by {
                        if x < p.out.len() {
                            assert(out[x] == p.out[x]);
                        }
                    }
                }
            }
            let r = flavor_step(p, line);
            assert(r.abilities matches Some(a) ==> refs_found(a, map0)) by {
                if let Some(a) = r.abilities {
                    if a.len() > 0 {
                        assert(p.abilities == r.abilities);
                    }
                }
            }
        }
    }
}

/// Reading the flavors changes the abilities only by adding references (each
/// keeps its key and place, so the keys stay distinct, and its references
/// stay an ordered set), and every ability a flavor offers is one of them.
pub proof fn lemma_flavors_sound(map: Seq<AbilityView>, text: Seq<char>)
    requires
        keys_unique(map),
        references_ordered(map),
    ensures
        only_references_added(map, flavors_result(map, text).0),
        keys_unique(flavors_result(map, text).0),
        references_ordered(flavors_result(map, text).0),
        flavors_result(map, text).1 matches Some(fs) ==> forall|f: int|
            0 <= f < fs.len() ==> refs_found(#[trigger] fs[f].abilities, map),
{
    lemma_references_added_preorder(map, map, map);
    let st0 = flavor_start(map);
    if pattern_compiles(FLAVOR_NAME_PATTERN@) && pattern_compiles(FLAVOR_TIER_PATTERN@) {
        let lines = table_lines(transliterated(text));
        lemma_flavor_run_ok(lines, map, st0);
        let st = flavor_run(lines, st0);
        lemma_references_added_keys(map, st.map);
        if !st.failed {
            if let Some(f) = built_flavor(st) {
                let all = st.out.push(f);
                assert forall|x: int| 0 <= x < all.len() implies refs_found(
                    #[trigger] all[x].abilities,
                    map,
                ) by {
                    if x < st.out.len() {
                        assert(all[x] == st.out[x]);
                    }
                }
                let sorted = sort_by_key(all, flavor_key());
                lemma_sort_by_key(all, flavor_key());
                assert forall|x: int| 0 <= x < sorted.len() implies refs_found(
                    #[trigger] sorted[x].abilities,
                    map,
                ) by {
                    assert(sorted.to_multiset().count(sorted[x]) > 0) by {
                        broadcast use vstd::seq_lib::group_to_multiset_ensures;

                        assert(sorted.contains(sorted[x]));
                    }
                    assert(all.contains(sorted[x])) by {
                        broadcast use vstd::seq_lib::group_to_multiset_ensures;
                    }
                }
            }
        }
    } else {
        lemma_references_added_keys(map, map);
    }
}

/// A tier heading `N-TIER ... ABILITIES` sets the tier to N: the abilities
/// below it, up to the next heading, are at tier N.
pub proof fn lemma_flavor_tier_heading(st: FlavorState, line: Seq<char>)
    ensures
        ({
            let ms = pattern_captures(FLAVOR_TIER_PATTERN@, line, flavor_tier_groups());
            !st.failed && pattern_captures(FLAVOR_NAME_PATTERN@, line, flavor_name_groups()).len() == 0
                && ms.len() > 0 ==> match grp(ms[0], 0) {
                Some(t) => match parse_usize(t) {
                    Some(n) => flavor_step(st, line) == FlavorState { tier: Some(n), ..st },
                    None => flavor_step(st, line).failed,
                },
                None => flavor_step(st, line).failed,
            }
        }),
{
}

/// A non-empty line that is no heading, within a tier of a flavor, names an
/// ability: it is added to the flavor at the current tier, named as the line
/// reads, and the ability (found by the line in upper case) gains the flavor
/// among its references; the reading stops where there is no such ability.
pub proof fn lemma_flavor_ability_line(st: FlavorState, line: Seq<char>)
    ensures
        ({
            let r = flavor_step(st, line);
            !st.failed && pattern_captures(FLAVOR_NAME_PATTERN@, line, flavor_name_groups()).len() == 0
                && pattern_captures(FLAVOR_TIER_PATTERN@, line, flavor_tier_groups()).len() == 0
                && st.tier is Some && line.len() > 0 ==> {
                &&& r.failed <==> (find_key(st.map, upper(line)) is None || st.name is None)
                &&& !r.failed ==> r.tier == st.tier && r.name == st.name && r.out == st.out
                    && r.abilities == Some(
                    match st.abilities {
                        Some(a) => a,
                        None => Seq::<AbilityRefView>::empty(),
                    }.push(AbilityRefView { name: line, tier: st.tier->0, preselected: false }),
                ) && r.map == st.map.update(
                    find_key(st.map, upper(line))->0,
                    with_reference(st.map[find_key(st.map, upper(line))->0], st.name->0),
                )
            }
        }),
{
}

/// Whether a line of the flavors file is a heading (of a flavor or of a tier).
pub open spec fn flavor_heading(line: Seq<char>) -> bool {
    pattern_captures(FLAVOR_NAME_PATTERN@, line, flavor_name_groups()).len() > 0
        || pattern_captures(FLAVOR_TIER_PATTERN@, line, flavor_tier_groups()).len() > 0
}

/// Whether a line of the flavors file is the heading of tier `n`.
pub open spec fn tier_heading(line: Seq<char>, n: usize) -> bool {
    let ms = pattern_captures(FLAVOR_TIER_PATTERN@, line, flavor_tier_groups());
    &&& pattern_captures(FLAVOR_NAME_PATTERN@, line, flavor_name_groups()).len() == 0
    &&& ms.len() > 0
    &&& grp(ms[0], 0) matches Some(t) && parse_usize(t) == Some(n)
}

/// While the flavors file is read, the current tier is that of the nearest
/// tier heading above, with no flavor heading between: where the reading
/// has not stopped and a tier is set to N, some line read is the heading of
/// tier N and no heading follows it (or the tier was set before the lines).
pub proof fn lemma_flavor_tier_nearest(lines: Seq<Seq<char>>, st: FlavorState)
    ensures
        ({
            let r = flavor_run(lines, st);
            !r.failed && r.tier is Some ==> (exists|i: int|
                0 <= i < lines.len() && tier_heading(#[trigger] lines[i], r.tier->0) && forall|j: int|
                    i < j < lines.len() ==> !flavor_heading(#[trigger] lines[j])) || (st.tier == r.tier
                && forall|j: int| 0 <= j < lines.len() ==> !flavor_heading(#[trigger] lines[j]))
        }),
    decreases lines.len(),
{
    if lines.len() > 0 {
        let d = lines.drop_last();
        lemma_flavor_tier_nearest(d, st);
        let p = flavor_run(d, st);
        let line = lines.last();
        let r = flavor_run(lines, st);
        assert(lines[lines.len() - 1] == line);
        assert forall|j: int| 0 <= j < d.len() implies d[j] == lines[j] by {}
        if !r.failed && r.tier is Some {
            let n = r.tier->0;
            if pattern_captures(FLAVOR_NAME_PATTERN@, line, flavor_name_groups()).len() > 0 {
                assert(!p.failed);
                assert(r.tier is None);
            } else if pattern_captures(FLAVOR_TIER_PATTERN@, line, flavor_tier_groups()).len() > 0 {
                assert(tier_heading(line, n));
                assert(tier_heading(lines[lines.len() - 1], n));
            } else {
                assert(!p.failed);
                assert(p.tier == r.tier);
                assert(!flavor_heading(line));
                if exists|i: int|
                    0 <= i < d.len() && tier_heading(#[trigger] d[i], n) && forall|j: int|
                        i < j < d.len() ==> !flavor_heading(#[trigger] d[j]) {
                    let i = choose|i: int|
                        0 <= i < d.len() && tier_heading(#[trigger] d[i], n) && forall|j: int|
                            i < j < d.len() ==> !flavor_heading(#[trigger] d[j]);
                    assert(tier_heading(lines[i], n));
                    assert forall|j: int| i < j < lines.len() implies !flavor_heading(#[trigger] lines[j]) by {
                        if j < d.len() {
                            assert(!flavor_heading(d[j]));
                        }
                    }
                } else {
                    assert forall|j: int| 0 <= j < lines.len() implies !flavor_heading(#[trigger] lines[j]) by {
                        if j < d.len() {
                            assert(!flavor_heading(d[j]));
                        }
                    }
                }
            }
        }
    }
}

} // verus!
