//! Character types: intrusions, stat pools, background, abilities and the
//! special abilities to choose at each tier.

use vstd::prelude::*;
use crate::pattern::{Pattern, pattern_compiles, pattern_captures};
use crate::text::{trim, upper, parse_usize, split_char, views, chars_of, trim_chars, string_of,
    split_chars, upper_chars, parse_usize_string, trim_string, upper_string};
use crate::fields::{grp, group, group_trimmed, group_upper_trimmed};
use crate::translit::{transliterate, transliterated};
use crate::tables::{Amount, RollTable, RollTableView, RollEntryView, option_table_of,
    load_option_table, entries_view};
use crate::ability::{AbilityMap, AbilityRef, AbilityRefView, AbilityView, BasicAbility,
    BasicAbilityView, basics_view, refs_view, basics_of, basic_abilities, find_key, with_reference,
    keys_unique, references_ordered, only_references_added, refs_found, lemma_reference_added,
    lemma_references_added_preorder, lemma_references_added_keys, lemma_find_key_found};

verus! {

/// One type, from its name to the closing `---`.
pub const TYPE_PATTERN: &'static str = r"(?m)(---)?\s*(?P<type>.*)\s*PLAYER INTRUSIONS(?P<intrusions>[\s\w\W]*?)STAT POOLS\s*((?i)might\s*(?P<might>\d+))\s*((?i)speed\s*(?P<speed>\d+))\s*((?i)intellect\s*(?P<intellect>\d+))\s*BACKGROUND(?P<background>[\s\w\W]*?)\s*ABILITIES(?P<abilities>[\w\s\S]*?)(?P<tiers>1-TIER[\s\w\W]*?)---";

/// One `Name: description` line of a type.
pub const TYPE_BASIC_PATTERN: &'static str = r"(?m)^(?P<name>.*?):\s*(?P<description>.*)$";

/// The special abilities to choose from at one tier.
pub const SPECIAL_PATTERN: &'static str = r"(?m)(?P<tier>\d)-TIER\s*Choose (?P<amount>\d).*(?P<abilities>[\s\w\W]*?)(^\s*$)";

pub struct StatPool {
    pub might: usize,
    pub speed: usize,
    pub intellect: usize,
}

pub struct Type {
    pub name: String,
    pub intrusions: Vec<BasicAbility>,
    pub stat_pool: StatPool,
    pub background: RollTable,
    pub special_abilities_per_tier: Vec<Amount>,
    pub abilities: Vec<BasicAbility>,
    pub special_abilities: Vec<AbilityRef>,
}

#[verifier::ext_equal]
pub struct AmountView {
    pub tier: usize,
    pub special_abilities: usize,
}

#[verifier::ext_equal]
pub struct TypeView {
    pub name: Seq<char>,
    pub intrusions: Seq<BasicAbilityView>,
    pub might: usize,
    pub speed: usize,
    pub intellect: usize,
    pub background: RollTableView,
    pub special_abilities_per_tier: Seq<AmountView>,
    pub abilities: Seq<BasicAbilityView>,
    pub special_abilities: Seq<AbilityRefView>,
}

pub open spec fn amounts_view(v: Seq<Amount>) -> Seq<AmountView> {
    v.map_values(|a: Amount| AmountView { tier: a.tier, special_abilities: a.special_abilities })
}

impl View for Type {
    type V = TypeView;

    open spec fn view(&self) -> TypeView {
        TypeView {
            name: self.name@,
            intrusions: basics_view(self.intrusions@),
            might: self.stat_pool.might,
            speed: self.stat_pool.speed,
            intellect: self.stat_pool.intellect,
            background: self.background@,
            special_abilities_per_tier: amounts_view(self.special_abilities_per_tier@),
            abilities: basics_view(self.abilities@),
            special_abilities: refs_view(self.special_abilities@),
        }
    }
}

pub open spec fn types_view(v: Seq<Type>) -> Seq<TypeView> {
    v.map_values(|t: Type| t@)
}

pub open spec fn type_groups() -> Seq<Seq<char>> {
    seq![
        "type"@,
        "intrusions"@,
        "might"@,
        "speed"@,
        "intellect"@,
        "background"@,
        "abilities"@,
        "tiers"@,
    ]
}

pub open spec fn basic_groups() -> Seq<Seq<char>> {
    seq!["name"@, "description"@]
}

pub open spec fn special_groups() -> Seq<Seq<char>> {
    seq!["tier"@, "amount"@, "abilities"@]
}

/// The `Name: description` abilities of an optional section of a type.
pub open spec fn section_basics(o: Option<Seq<char>>) -> Option<Seq<BasicAbilityView>> {
    match o {
        Some(s) => basics_of(pattern_captures(TYPE_BASIC_PATTERN@, s, basic_groups())),
        None => Some(Seq::<BasicAbilityView>::empty()),
    }
}

/// A stat read from a match.
pub open spec fn stat(o: Option<Seq<char>>) -> Option<usize> {
    match o {
        Some(s) => parse_usize(s),
        None => None,
    }
}

/// The type that a match of `TYPE_PATTERN` describes, before its special
/// abilities.
pub open spec fn type_base(m: Seq<Option<Seq<char>>>) -> Option<TypeView> {
    match (
        grp(m, 0),
        section_basics(grp(m, 1)),
        stat(grp(m, 2)),
        stat(grp(m, 3)),
        stat(grp(m, 4)),
        grp(m, 5),
    ) {
        (Some(n), Some(intrusions), Some(might), Some(speed), Some(intellect), Some(b)) => match (
            option_table_of(b),
            section_basics(grp(m, 6)),
        ) {
            (Some(entries), Some(abilities)) => Some(
                TypeView {
                    name: trim(upper(n)),
                    intrusions,
                    might,
                    speed,
                    intellect,
                    background: RollTableView {
                        name: Some("BACKGROUND"@),
                        description: None,
                        table: entries,
                    },
                    special_abilities_per_tier: Seq::<AmountView>::empty(),
                    abilities,
                    special_abilities: Seq::<AbilityRefView>::empty(),
                },
            ),
            _ => None,
        },
        _ => None,
    }
}

/// The abilities and the type being read, and whether all went well.
#[verifier::ext_equal]
pub struct TypeWork {
    pub map: Seq<AbilityView>,
    pub ty: TypeView,
    pub ok: bool,
}

/// Adds the special ability named on `line` (trimmed) at `tier`: the ability,
/// found by its name in upper case, gains the type among its references.
pub open spec fn add_special(w: TypeWork, line: Seq<char>, tier: usize) -> TypeWork {
    match find_key(w.map, upper(trim(line))) {
        None => TypeWork { ok: false, ..w },
        Some(i) => TypeWork {
            map: w.map.update(i, with_reference(w.map[i], w.ty.name)),
            ty: TypeView {
                special_abilities: w.ty.special_abilities.push(
                    AbilityRefView { name: trim(line), tier: tier, preselected: false },
                ),
                ..w.ty
            },
            ok: true,
        },
    }
}

/// Adds the special abilities of `lines`, stopping at the first failure.
pub open spec fn special_lines_run(lines: Seq<Seq<char>>, w: TypeWork, tier: usize) -> TypeWork
    decreases lines.len(),
{
    if lines.len() == 0 {
        w
    } else {
        let p = special_lines_run(lines.drop_last(), w, tier);
        if !p.ok {
            p
        } else {
            add_special(p, lines.last(), tier)
        }
    }
}

/// One tier of special abilities: its tier and amount, then one ability per
/// line of its (trimmed) list.
pub open spec fn special_step(w: TypeWork, m: Seq<Option<Seq<char>>>) -> TypeWork {
    match (stat(grp(m, 0)), stat(grp(m, 1)), grp(m, 2)) {
        (Some(tier), Some(amount), Some(list)) => special_lines_run(
            split_char(trim(list), '\n'),
            TypeWork {
                ty: TypeView {
                    special_abilities_per_tier: w.ty.special_abilities_per_tier.push(
                        AmountView { tier: tier, special_abilities: amount },
                    ),
                    ..w.ty
                },
                ..w
            },
            tier,
        ),
        _ => TypeWork { ok: false, ..w },
    }
}

pub open spec fn specials_run(ms: Seq<Seq<Option<Seq<char>>>>, w: TypeWork) -> TypeWork
    decreases ms.len(),
{
    if ms.len() == 0 {
        w
    } else {
        let p = specials_run(ms.drop_last(), w);
        if !p.ok {
            p
        } else {
            special_step(p, ms.last())
        }
    }
}

/// The reading of the types file after some types.
#[verifier::ext_equal]
pub struct TypesState {
    pub map: Seq<AbilityView>,
    pub out: Seq<TypeView>,
    pub failed: bool,
}

/// Whether each of the lists a type is built with has been given at least
/// one element (an empty one is never set, and the type cannot be built).
pub open spec fn type_complete(t: TypeView) -> bool {
    t.intrusions.len() > 0 && t.special_abilities_per_tier.len() > 0 && t.abilities.len() > 0
        && t.special_abilities.len() > 0
}

/// One type match: its base, then its special abilities.
pub open spec fn type_step(st: TypesState, m: Seq<Option<Seq<char>>>) -> TypesState {
    if st.failed {
        st
    } else {
        match type_base(m) {
            None => TypesState { failed: true, ..st },
            Some(t0) => {
                let w = match grp(m, 7) {
                    Some(tiers) => specials_run(
                        pattern_captures(SPECIAL_PATTERN@, tiers, special_groups()),
                        TypeWork { map: st.map, ty: t0, ok: true },
                    ),
                    None => TypeWork { map: st.map, ty: t0, ok: true },
                };
                if w.ok && type_complete(w.ty) {
                    TypesState { map: w.map, out: st.out.push(w.ty), failed: false }
                } else {
                    TypesState { map: w.map, failed: true, ..st }
                }
            },
        }
    }
}

pub open spec fn types_run(ms: Seq<Seq<Option<Seq<char>>>>, st: TypesState) -> TypesState
    decreases ms.len(),
{
    if ms.len() == 0 {
        st
    } else {
        type_step(types_run(ms.drop_last(), st), ms.last())
    }
}

/// The abilities after reading the types file (transliterated), and the types
/// in the order of the file.
pub open spec fn types_result(map: Seq<AbilityView>, text: Seq<char>) -> (
    Seq<AbilityView>,
    Option<Seq<TypeView>>,
) {
    if !(pattern_compiles(TYPE_PATTERN@) && pattern_compiles(TYPE_BASIC_PATTERN@)
        && pattern_compiles(SPECIAL_PATTERN@)) {
        (map, None)
    } else {
        let st = types_run(
            pattern_captures(TYPE_PATTERN@, transliterated(text), type_groups()),
            TypesState { map: map, out: Seq::<TypeView>::empty(), failed: false },
        );
        if st.failed {
            (st.map, None)
        } else {
            (st.map, Some(st.out))
        }
    }
}

proof fn lemma_types_failed_stays(ms: Seq<Seq<Option<Seq<char>>>>, k: int, st: TypesState)
    requires
        0 <= k <= ms.len(),
        types_run(ms.take(k), st).failed,
    ensures
        types_run(ms, st) == types_run(ms.take(k), st),
    decreases ms.len() - k,
{
    if k < ms.len() {
        assert(ms.take(k + 1).drop_last() =~= ms.take(k));
        lemma_types_failed_stays(ms, k + 1, st);
    } else {
        assert(ms.take(k) =~= ms);
    }
}

proof fn lemma_specials_failed_stays(ms: Seq<Seq<Option<Seq<char>>>>, k: int, w: TypeWork)
    requires
        0 <= k <= ms.len(),
        !specials_run(ms.take(k), w).ok,
    ensures
        specials_run(ms, w) == specials_run(ms.take(k), w),
    decreases ms.len() - k,
{
    if k < ms.len() {
        assert(ms.take(k + 1).drop_last() =~= ms.take(k));
        lemma_specials_failed_stays(ms, k + 1, w);
    } else {
        assert(ms.take(k) =~= ms);
    }
}

proof fn lemma_lines_failed_stays(lines: Seq<Seq<char>>, k: int, w: TypeWork, tier: usize)
    requires
        0 <= k <= lines.len(),
        !special_lines_run(lines.take(k), w, tier).ok,
    ensures
        special_lines_run(lines, w, tier) == special_lines_run(lines.take(k), w, tier),
    decreases lines.len() - k,
{
    if k < lines.len() {
        assert(lines.take(k + 1).drop_last() =~= lines.take(k));
        lemma_lines_failed_stays(lines, k + 1, w, tier);
    } else {
        assert(lines.take(k) =~= lines);
    }
}

/// The `Name: description` abilities of an optional section.
fn section_basics_exec(o: &Option<String>, basic: &Pattern) -> (out: Option<Vec<BasicAbility>>)
    requires
        basic.source() == TYPE_BASIC_PATTERN@,
    ensures
        match out {
            Some(v) => section_basics(o.deep_view()) == Some(basics_view(v@)),
            None => section_basics(o.deep_view()) is None,
        },
{
    match o {
        Some(s) => {
            let groups: &[&str] = &["name", "description"];
            assert(groups.deep_view() =~= basic_groups());
            let ms = basic.captures(s.as_str(), groups);
            basic_abilities(&ms)
        },
        None => {
            let v: Vec<BasicAbility> = Vec::new();
            assert(basics_view(v@) =~= Seq::<BasicAbilityView>::empty());
            Some(v)
        },
    }
}

fn stat_exec(o: &Option<String>) -> (out: Option<usize>)
    ensures
        out == stat(o.deep_view()),
{
    match o {
        Some(s) => parse_usize_string(s),
        None => None,
    }
}

/// The type that a match of `TYPE_PATTERN` describes, before its special
/// abilities; `None` also where the pattern it reads the match with does not
/// compile.
pub fn type_from_match(m: &Vec<Option<String>>) -> (out: Option<Type>)
    ensures
        pattern_compiles(TYPE_BASIC_PATTERN@) ==> (
            match out {
                Some(x) => type_base(m.deep_view()) == Some(x@),
                None => type_base(m.deep_view()) is None,
            }),
        !pattern_compiles(TYPE_BASIC_PATTERN@) ==> out is None,
{
    let basic = match Pattern::new(TYPE_BASIC_PATTERN) {
        Some(p) => p,
        None => return None,
    };
    type_base_exec(m, &basic)
}

/// The type of a match before its special abilities, read with the given pattern.
fn type_base_exec(m: &Vec<Option<String>>, basic: &Pattern) -> (out: Option<Type>)
    requires
        basic.source() == TYPE_BASIC_PATTERN@,
    ensures
        match out {
            Some(t) => type_base(m.deep_view()) == Some(t@),
            None => type_base(m.deep_view()) is None,
        },
{
    let name = match group_upper_trimmed(m, 0) {
        Some(n) => n,
        None => return None,
    };
    let intrusions = match section_basics_exec(&group(m, 1), basic) {
        Some(v) => v,
        None => return None,
    };
    let might = match stat_exec(&group(m, 2)) {
        Some(v) => v,
        None => return None,
    };
    let speed = match stat_exec(&group(m, 3)) {
        Some(v) => v,
        None => return None,
    };
    let intellect = match stat_exec(&group(m, 4)) {
        Some(v) => v,
        None => return None,
    };
    let b = match group(m, 5) {
        Some(b) => b,
        None => return None,
    };
    let entries = match load_option_table(b.as_str()) {
        Some(e) => e,
        None => return None,
    };
    let abilities = match section_basics_exec(&group(m, 6), basic) {
        Some(v) => v,
        None => return None,
    };
    let t = Type {
        name,
        intrusions,
        stat_pool: StatPool { might, speed, intellect },
        background: RollTable {
            name: Some(String::from_str("BACKGROUND")),
            description: None,
            table: entries,
        },
        special_abilities_per_tier: Vec::new(),
        abilities,
        special_abilities: Vec::new(),
    };
    assert(t@.special_abilities_per_tier =~= Seq::<AmountView>::empty());
    assert(t@.special_abilities =~= Seq::<AbilityRefView>::empty());
    Some(t)
}

/// Reads the types file, in its order. Each special ability a type offers
/// gains the type's name among its references in `abilities`. `None` where
/// the file cannot be read through, and then `abilities` holds the references added
/// before that point.
#[verifier::loop_isolation(false)]
#[verifier::spinoff_prover]
#[verifier::rlimit(40)]
pub fn load_types(abilities: &mut AbilityMap, text: &str) -> (out: Option<Vec<Type>>)
    ensures
        final(abilities)@ == types_result(old(abilities)@, text@).0,
        out is Some <==> types_result(old(abilities)@, text@).1 is Some,
        out matches Some(v) ==> types_result(old(abilities)@, text@).1 == Some(types_view(v@)),
        keys_unique(old(abilities)@) && references_ordered(old(abilities)@) ==> keys_unique(
            final(abilities)@,
        ) && references_ordered(final(abilities)@),
{
    proof {
        if keys_unique(abilities@) && references_ordered(abilities@) {
            lemma_types_sound(abilities@, text@);
        }
    }
    let type_re = match Pattern::new(TYPE_PATTERN) {
        Some(p) => p,
        None => return None,
    };
    let basic = match Pattern::new(TYPE_BASIC_PATTERN) {
        Some(p) => p,
        None => return None,
    };
    let special = match Pattern::new(SPECIAL_PATTERN) {
        Some(p) => p,
        None => return None,
    };
    let groups: &[&str] = &[
        "type",
        "intrusions",
        "might",
        "speed",
        "intellect",
        "background",
        "abilities",
        "tiers",
    ];
    assert(groups.deep_view() =~= type_groups());
    let special_groups_exec: &[&str] = &["tier", "amount", "abilities"];
    assert(special_groups_exec.deep_view() =~= special_groups());
    let t = transliterate(text);
    let ms = type_re.captures(t.as_str(), groups);
    let ghost all = ms.deep_view();
    let ghost st0 = TypesState { map: old(abilities)@, out: Seq::<TypeView>::empty(), failed: false };
    let mut out: Vec<Type> = Vec::new();
    let mut i: usize = 0;
    assert(all.take(0) =~= Seq::<Seq<Option<Seq<char>>>>::empty());
    assert(types_view(out@) =~= Seq::<TypeView>::empty());
    while i < ms.len()
        invariant
            i <= ms.len() == all.len(),
            all == ms.deep_view(),
            types_run(all.take(i as int), st0) == (TypesState {
                map: abilities@,
                out: types_view(out@),
                failed: false,
            }),
        decreases ms.len() - i,
    {
        assert(all.take(i + 1).drop_last() =~= all.take(i as int));
        assert(all.take(i + 1).last() == ms@[i as int].deep_view());
        let ghost md = ms@[i as int].deep_view();
        let mut ty = match type_base_exec(&ms[i], &basic) {
            Some(t) => t,
            None => {
                proof {
                    lemma_types_failed_stays(all, i + 1, st0);
                }
                return None;
            },
        };
        let ghost w0 = TypeWork { map: abilities@, ty: ty@, ok: true };
        match group(&ms[i], 7) {
            Some(tiers) => {
                let sms = special.captures(tiers.as_str(), special_groups_exec);
                let ghost sall = sms.deep_view();
                let mut j: usize = 0;
                assert(sall.take(0) =~= Seq::<Seq<Option<Seq<char>>>>::empty());
                while j < sms.len()
                    invariant
                        j <= sms.len() == sall.len(),
                        sall == sms.deep_view(),
                        specials_run(sall.take(j as int), w0) == (TypeWork {
                            map: abilities@,
                            ty: ty@,
                            ok: true,
                        }),
                    decreases sms.len() - j,
                {
                    assert(sall.take(j + 1).drop_last() =~= sall.take(j as int));
                    assert(sall.take(j + 1).last() == sms@[j as int].deep_view());
                    let ghost smd = sms@[j as int].deep_view();
                    let tier = stat_exec(&group(&sms[j], 0));
                    let amount = stat_exec(&group(&sms[j], 1));
                    let list = group(&sms[j], 2);
                    let (tier, amount, list) = match (tier, amount, list) {
                        (Some(t), Some(a), Some(l)) => (t, a, l),
                        _ => {
                            proof {
                                lemma_specials_failed_stays(sall, j + 1, w0);
                                lemma_types_failed_stays(all, i + 1, st0);
                            }
                            return None;
                        },
                    };
                    let ghost before_amounts = ty@;
                    ty.special_abilities_per_tier.push(Amount { tier, special_abilities: amount });
                    assert(ty@.special_abilities_per_tier =~= before_amounts.special_abilities_per_tier.push(
                        AmountView { tier: tier, special_abilities: amount },
                    ));
                    let ghost wj = TypeWork { map: abilities@, ty: ty@, ok: true };
                    let lc = trim_chars(&chars_of(list.as_str()));
                    let lines = split_chars(&lc, '\n');
                    let ghost lv = views(lines@);
                    let mut k: usize = 0;
                    assert(lv.take(0) =~= Seq::<Seq<char>>::empty());
                    while k < lines.len()
                        invariant
                            k <= lines.len() == lv.len(),
                            lv == views(lines@),
                            lv == split_char(trim(list@), '\n'),
                            special_lines_run(lv.take(k as int), wj, tier) == (TypeWork {
                                map: abilities@,
                                ty: ty@,
                                ok: true,
                            }),
                        decreases lines.len() - k,
                    {
                        assert(lv.take(k + 1).drop_last() =~= lv.take(k as int));
                        assert(lv.take(k + 1).last() == lines@[k as int]@);
                        let name = trim_chars(&lines[k]);
                        let key = upper_chars(&name);
                        if !abilities.add_reference(&key, &ty.name) {
                            proof {
                                lemma_lines_failed_stays(lv, k + 1, wj, tier);
                                assert(lv.take(lv.len() as int) =~= lv);
                                lemma_specials_failed_stays(sall, j + 1, w0);
                                lemma_types_failed_stays(all, i + 1, st0);
                            }
                            return None;
                        }
                        let ghost before = ty@;
                        ty.special_abilities.push(
                            AbilityRef { name: string_of(&name), tier, preselected: false },
                        );
                        assert(ty@.special_abilities =~= before.special_abilities.push(
                            AbilityRefView { name: name@, tier: tier, preselected: false },
                        ));
                        assert(ty@ =~= TypeView { special_abilities: ty@.special_abilities, ..before });
                        k += 1;
                    }
                    assert(lv.take(lv.len() as int) =~= lv);
                    j += 1;
                }
                assert(sall.take(sall.len() as int) =~= sall);
            },
            None => {},
        }
        if ty.intrusions.len() > 0 && ty.special_abilities_per_tier.len() > 0
            && ty.abilities.len() > 0 && ty.special_abilities.len() > 0 {
            let ghost tv = ty@;
            let ghost before = out@;
            out.push(ty);
            assert(types_view(out@) =~= types_view(before).push(tv));
        } else {
            proof {
                lemma_types_failed_stays(all, i + 1, st0);
            }
            return None;
        }
        i += 1;
    }
    assert(all.take(all.len() as int) =~= all);
    Some(out)
}

spec fn work_ok(map0: Seq<AbilityView>, w: TypeWork) -> bool {
    &&& references_ordered(w.map)
    &&& only_references_added(map0, w.map)
    &&& refs_found(w.ty.special_abilities, map0)
}

proof fn lemma_special_lines_ok(map0: Seq<AbilityView>, lines: Seq<Seq<char>>, w: TypeWork, tier: usize)
    requires
        work_ok(map0, w),
    ensures
        work_ok(map0, special_lines_run(lines, w, tier)),
        special_lines_run(lines, w, tier).ty.name == w.ty.name,
    decreases lines.len(),
{
    if lines.len() > 0 {
        lemma_special_lines_ok(map0, lines.drop_last(), w, tier);
        let p = special_lines_run(lines.drop_last(), w, tier);
        if p.ok {
            let key = upper(trim(lines.last()));
            lemma_find_key_found(p.map, key);
            lemma_references_added_keys(map0, p.map);
            if let Some(i) = find_key(p.map, key) {
                lemma_reference_added(p.map, i, p.ty.name);
                lemma_references_added_preorder(
                    map0,
                    p.map,
                    p.map.update(i, with_reference(p.map[i], p.ty.name)),
                );
                let a = p.ty.special_abilities;
                let r = AbilityRefView { name: trim(lines.last()), tier: tier, preselected: false };
                assert forall|k: int| 0 <= k < a.push(r).len() implies find_key(
                    map0,
                    upper(#[trigger] a.push(r)[k].name),
                ) is Some by {
                    if k < a.len() {
                        assert(a.push(r)[k] == a[k]);
                    }
                }
            }
        }
    }
}

proof fn lemma_specials_ok(map0: Seq<AbilityView>, ms: Seq<Seq<Option<Seq<char>>>>, w: TypeWork)
    requires
        work_ok(map0, w),
    ensures
        work_ok(map0, specials_run(ms, w)),
    decreases ms.len(),
{
    if ms.len() > 0 {
        lemma_specials_ok(map0, ms.drop_last(), w);
        let p = specials_run(ms.drop_last(), w);
        if p.ok {
            let m = ms.last();
            if let (Some(tier), Some(amount), Some(list)) = (stat(grp(m, 0)), stat(grp(m, 1)), grp(m, 2)) {
                let w2 = TypeWork {
                    ty: TypeView {
                        special_abilities_per_tier: p.ty.special_abilities_per_tier.push(
                            AmountView { tier: tier, special_abilities: amount },
                        ),
                        ..p.ty
                    },
                    ..p
                };
                lemma_special_lines_ok(map0, split_char(trim(list), '\n'), w2, tier);
            }
        }
    }
}

spec fn types_state_ok(map0: Seq<AbilityView>, st: TypesState) -> bool {
    &&& references_ordered(st.map)
    &&& only_references_added(map0, st.map)
    &&& forall|t: int| 0 <= t < st.out.len() ==> refs_found(#[trigger] st.out[t].special_abilities, map0)
}

proof fn lemma_types_run_ok(map0: Seq<AbilityView>, ms: Seq<Seq<Option<Seq<char>>>>, st: TypesState)
    requires
        types_state_ok(map0, st),
    ensures
        types_state_ok(map0, types_run(ms, st)),
    decreases ms.len(),
{
    if ms.len() > 0 {
        lemma_types_run_ok(map0, ms.drop_last(), st);
        let p = types_run(ms.drop_last(), st);
        let m = ms.last();
        if !p.failed {
            if let Some(t0) = type_base(m) {
                let w0 = TypeWork { map: p.map, ty: t0, ok: true };
                assert(refs_found(t0.special_abilities, map0));
                if let Some(tiers) = grp(m, 7) {
                    lemma_specials_ok(map0, pattern_captures(SPECIAL_PATTERN@, tiers, special_groups()), w0);
                }
                let w = match grp(m, 7) {
                    Some(tiers) => specials_run(
                        pattern_captures(SPECIAL_PATTERN@, tiers, special_groups()),
                        w0,
                    ),
                    None => w0,
                };
                if w.ok && type_complete(w.ty) {
                    let out = p.out.push(w.ty);
                    assert forall|x: int| 0 <= x < out.len() implies refs_found(
                        #[trigger] out[x].special_abilities,
                        map0,
                    ) by {
                        if x < p.out.len() {
                            assert(out[x] == p.out[x]);
                        }
                    }
                }
            }
        }
    }
}

/// Reading the types changes the abilities only by adding references (each
/// keeps its key and place, so the keys stay distinct, and its references
/// stay an ordered set), and every special ability of a type is one of them.
pub proof fn lemma_types_sound(map: Seq<AbilityView>, text: Seq<char>)
    requires
        keys_unique(map),
        references_ordered(map),
    ensures
        only_references_added(map, types_result(map, text).0),
        keys_unique(types_result(map, text).0),
        references_ordered(types_result(map, text).0),
        types_result(map, text).1 matches Some(ts) ==> forall|t: int|
            0 <= t < ts.len() ==> refs_found(#[trigger] ts[t].special_abilities, map),
{
    lemma_references_added_preorder(map, map, map);
    lemma_types_run_ok(
        map,
        pattern_captures(TYPE_PATTERN@, transliterated(text), type_groups()),
        TypesState { map: map, out: Seq::<TypeView>::empty(), failed: false },
    );
    lemma_references_added_keys(map, types_result(map, text).0);
}

proof fn lemma_special_lines_tier(lines: Seq<Seq<char>>, w: TypeWork, tier: usize)
    ensures
        ({
            let r = special_lines_run(lines, w, tier);
            &&& r.ty.special_abilities_per_tier == w.ty.special_abilities_per_tier
            &&& r.ty.special_abilities.len() >= w.ty.special_abilities.len()
            &&& forall|k: int|
                0 <= k < w.ty.special_abilities.len() ==> #[trigger] r.ty.special_abilities[k]
                    == w.ty.special_abilities[k]
            &&& forall|k: int|
                w.ty.special_abilities.len() <= k < r.ty.special_abilities.len() ==> (
                #[trigger] r.ty.special_abilities[k]).tier == tier
            &&& r.ok ==> w.ok && r.ty.special_abilities.len() == w.ty.special_abilities.len()
                + lines.len() && forall|i: int|
                0 <= i < lines.len() ==> (#[trigger] r.ty.special_abilities[w.ty.special_abilities.len()
                    + i]).name == trim(lines[i])
        }),
    decreases lines.len(),
{
    if lines.len() > 0 {
        let d = lines.drop_last();
        lemma_special_lines_tier(d, w, tier);
        let p = special_lines_run(d, w, tier);
        if p.ok {
            let r = special_lines_run(lines, w, tier);
            let n = w.ty.special_abilities.len();
            if r.ok {
                assert forall|i: int| 0 <= i < lines.len() implies (#[trigger] r.ty.special_abilities[n
                    + i]).name == trim(lines[i]) by {
                    if i < d.len() {
                        assert(d[i] == lines[i]);
                        assert(r.ty.special_abilities[n + i] == p.ty.special_abilities[n + i]);
                    }
                }
            }
        }
    }
}

/// One tier heading `N-TIER Choose K` of a type adds the amount (tier N, K
/// abilities) and then one special ability per line of its list, in order,
/// each at tier N; what the type held before stays.
pub proof fn lemma_special_step(w: TypeWork, m: Seq<Option<Seq<char>>>)
    ensures
        ({
            let r = special_step(w, m);
            r.ok ==> {
                &&& stat(grp(m, 0)) is Some && stat(grp(m, 1)) is Some && grp(m, 2) is Some
                &&& r.ty.special_abilities_per_tier == w.ty.special_abilities_per_tier.push(
                    AmountView { tier: stat(grp(m, 0))->0, special_abilities: stat(grp(m, 1))->0 },
                )
                &&& r.ty.special_abilities.len() == w.ty.special_abilities.len() + split_char(
                    trim(grp(m, 2)->0),
                    '\n',
                ).len()
                &&& forall|k: int|
                    0 <= k < w.ty.special_abilities.len() ==> #[trigger] r.ty.special_abilities[k]
                        == w.ty.special_abilities[k]
                &&& forall|k: int|
                    w.ty.special_abilities.len() <= k < r.ty.special_abilities.len() ==> (
                    #[trigger] r.ty.special_abilities[k]).tier == stat(grp(m, 0))->0
                &&& forall|i: int|
                    0 <= i < split_char(trim(grp(m, 2)->0), '\n').len() ==> (
                    #[trigger] r.ty.special_abilities[w.ty.special_abilities.len() + i]).name == trim(
                        split_char(trim(grp(m, 2)->0), '\n')[i],
                    )
            }
        }),
{
    if let (Some(tier), Some(amount), Some(list)) = (stat(grp(m, 0)), stat(grp(m, 1)), grp(m, 2)) {
        let w2 = TypeWork {
            ty: TypeView {
                special_abilities_per_tier: w.ty.special_abilities_per_tier.push(
                    AmountView { tier: tier, special_abilities: amount },
                ),
                ..w.ty
            },
            ..w
        };
        lemma_special_lines_tier(split_char(trim(list), '\n'), w2, tier);
    }
}

} // verus!
