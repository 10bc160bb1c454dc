//! Creatures, super villains and NPCs.

use vstd::prelude::*;
use crate::pattern::{Pattern, pattern_compiles, pattern_captures};
use crate::text::{trim, upper, parse_usize, without_char, chars_of, string_of, without_char_chars,
    parse_usize_string};
use crate::fields::{grp, trimmed, trimmed_nonempty, trimmed_upper, semicolon_list, group,
    group_trimmed, group_trimmed_nonempty, group_trimmed_upper, semicolon_pieces};
use crate::order::{Named, name_of, sort_by_name, sort_by_key, sorted_by_key, lemma_sort_map,
    lemma_sort_by_key};
use crate::translit::{transliterate, transliterated};
use crate::tables::{RollTable, RollTableView, tables_view, option_tables_of, option_tables};

verus! {

/// One creature, from its name and level to its GM intrusions.
pub const CREATURE_PATTERN: &'static str = r#"(?m)(?P<name>[-(),\w\s]*)\s(?P<level>\d*)\s\(\d*\)\s*(?P<description>[[:ascii:]]*?)Motive: (?P<motive>[^\n]*)\s*(?:Environment: (?P<environment>[^\n]*)\s*)?Health: (?P<health>\d*)\s*Damage Inflicted: (?P<damage>[^\n]*)(\s*Armor: (?P<armor>\d+))?\s*Movement: (?P<movement>[^\n]*)\s*(?:Modifications: (?P<modification>[^\n]*)\s*)?(?:Combat: (?P<combat>[[:ascii:]]*?)(?P<option_table>((?P<named>NAMED\s*)?OPTION TABLE[^\S\r\n]*(?P<option_name>.*)?(\n\s*(?P<option_description>[^\d].*)\s*\n)?(?P<options>[\W\w]*?)))?Interaction: (?P<interaction>[^\n]*)\s*)?(?:Use: (?P<use>[^\n]*)\s*)?(?:Loot: (?P<loot>[^\n]*)\s*)?(?:GM\s(\(group\)\s)?[iI]ntrusions?:\s(?P<intrusion>[^\n]*))?"#;

pub struct Creature {
    pub name: String,
    pub kind: String,
    pub level: Option<usize>,
    pub description: String,
    pub motive: Option<String>,
    pub environment: Option<String>,
    pub health: Option<usize>,
    pub damage: Option<String>,
    pub armor: usize,
    pub movement: Option<String>,
    pub modifications: Vec<String>,
    pub combat: Option<String>,
    pub options: Vec<RollTable>,
    pub interactions: Option<String>,
    pub uses: Option<String>,
    pub loot: Option<String>,
    pub intrusions: Option<String>,
}

#[verifier::ext_equal]
pub struct CreatureView {
    pub name: Seq<char>,
    pub kind: Seq<char>,
    pub level: Option<usize>,
    pub description: Seq<char>,
    pub motive: Option<Seq<char>>,
    pub environment: Option<Seq<char>>,
    pub health: Option<usize>,
    pub damage: Option<Seq<char>>,
    pub armor: usize,
    pub movement: Option<Seq<char>>,
    pub modifications: Seq<Seq<char>>,
    pub combat: Option<Seq<char>>,
    pub options: Seq<RollTableView>,
    pub interactions: Option<Seq<char>>,
    pub uses: Option<Seq<char>>,
    pub loot: Option<Seq<char>>,
    pub intrusions: Option<Seq<char>>,
}

impl View for Creature {
    type V = CreatureView;

    open spec fn view(&self) -> CreatureView {
        CreatureView {
            name: self.name@,
            kind: self.kind@,
            level: self.level,
            description: self.description@,
            motive: self.motive.deep_view(),
            environment: self.environment.deep_view(),
            health: self.health,
            damage: self.damage.deep_view(),
            armor: self.armor,
            movement: self.movement.deep_view(),
            modifications: self.modifications.deep_view(),
            combat: self.combat.deep_view(),
            options: tables_view(self.options@),
            interactions: self.interactions.deep_view(),
            uses: self.uses.deep_view(),
            loot: self.loot.deep_view(),
            intrusions: self.intrusions.deep_view(),
        }
    }
}

impl Named for Creature {
    open spec fn name_key(&self) -> Seq<char> {
        self.name@
    }

    fn name_text(&self) -> (r: &String) {
        &self.name
    }
}

pub open spec fn creature_view_fn() -> spec_fn(Creature) -> CreatureView {
    |c: Creature| c@
}

pub open spec fn creatures_view(v: Seq<Creature>) -> Seq<CreatureView> {
    v.map_values(creature_view_fn())
}

pub open spec fn creature_groups() -> Seq<Seq<char>> {
    seq![
        "name"@,
        "level"@,
        "description"@,
        "motive"@,
        "environment"@,
        "health"@,
        "damage"@,
        "armor"@,
        "movement"@,
        "modification"@,
        "combat"@,
        "option_table"@,
        "option_name"@,
        "option_description"@,
        "options"@,
        "interaction"@,
        "use"@,
        "loot"@,
        "intrusion"@,
    ]
}

/// Whether a level is one of the levels 1 to 10.
pub open spec fn level_in_range(v: usize) -> bool {
    1 <= v <= 10
}

/// The level, a number from 1 to 10; fails (`None` outside) where it is
/// missing, not a number, or out of that range.
pub open spec fn level_of(o: Option<Seq<char>>) -> Option<Option<usize>> {
    match o {
        None => None,
        Some(s) => match parse_usize(s) {
            Some(v) => if level_in_range(v) {
                Some(Some(v))
            } else {
                None
            },
            None => None,
        },
    }
}

/// The health: `None` where absent, 0 or not a number.
pub open spec fn health_of(o: Option<Seq<char>>) -> Option<usize> {
    match o {
        None => None,
        Some(s) => {
            let v = match parse_usize(s) {
                Some(v) => v,
                None => 0,
            };
            if v != 0 {
                Some(v)
            } else {
                None
            }
        },
    }
}

/// The armor: 0 where absent; fails (`None`) where not a number that fits.
pub open spec fn armor_of(o: Option<Seq<char>>) -> Option<usize> {
    match o {
        None => Some(0),
        Some(s) => parse_usize(s),
    }
}

/// The creature of kind `kind` that a match of `CREATURE_PATTERN` describes.
pub open spec fn creature_of(m: Seq<Option<Seq<char>>>, kind: Seq<char>) -> Option<CreatureView> {
    match (
        grp(m, 0),
        level_of(grp(m, 1)),
        grp(m, 2),
        armor_of(grp(m, 7)),
        option_tables_of(grp(m, 11), grp(m, 12), grp(m, 13), grp(m, 14)),
    ) {
        (Some(n), Some(level), Some(d), Some(armor), Some(options)) => Some(
            CreatureView {
                name: upper(trim(n)),
                kind: kind,
                level: level,
                description: trim(d),
                motive: trimmed_nonempty(grp(m, 3)),
                environment: trimmed_nonempty(grp(m, 4)),
                health: health_of(grp(m, 5)),
                damage: trimmed_nonempty(grp(m, 6)),
                armor: armor,
                movement: trimmed_nonempty(grp(m, 8)),
                modifications: match grp(m, 9) {
                    Some(s) => semicolon_list(s),
                    None => Seq::<Seq<char>>::empty(),
                },
                combat: trimmed(grp(m, 10)),
                options: options,
                interactions: trimmed_nonempty(grp(m, 15)),
                uses: trimmed_nonempty(grp(m, 16)),
                loot: trimmed_nonempty(grp(m, 17)),
                intrusions: trimmed_nonempty(grp(m, 18)),
            },
        ),
        _ => None,
    }
}

pub open spec fn creatures_of_matches(ms: Seq<Seq<Option<Seq<char>>>>, kind: Seq<char>) -> Option<
    Seq<CreatureView>,
>
    decreases ms.len(),
{
    if ms.len() == 0 {
        Some(Seq::<CreatureView>::empty())
    } else {
        match (creatures_of_matches(ms.drop_last(), kind), creature_of(ms.last(), kind)) {
            (Some(p), Some(c)) => Some(p.push(c)),
            _ => None,
        }
    }
}

/// The text of a creatures file as the pattern reads it.
pub open spec fn creatures_text(text: Seq<char>) -> Seq<char> {
    without_char(transliterated(text), '\r')
}

/// The creatures of kind `kind` of a creatures file, in the order of the
/// file; `None` where the pattern finds none or a creature cannot be read.
pub open spec fn creatures_of(text: Seq<char>, kind: Seq<char>) -> Option<Seq<CreatureView>> {
    if !pattern_compiles(CREATURE_PATTERN@) {
        None
    } else {
        let ms = pattern_captures(CREATURE_PATTERN@, creatures_text(text), creature_groups());
        if ms.len() == 0 {
            None
        } else {
            creatures_of_matches(ms, kind)
        }
    }
}

/// Whether a level is given, from 1 to 10.
pub open spec fn level_given(o: Option<usize>) -> bool {
    o matches Some(l) && level_in_range(l)
}

/// Whether every creature has a level from 1 to 10.
pub open spec fn levels_in_range(cs: Seq<CreatureView>) -> bool {
    forall|i: int| 0 <= i < cs.len() ==> level_given(#[trigger] cs[i].level)
}

proof fn lemma_matches_levels(ms: Seq<Seq<Option<Seq<char>>>>, kind: Seq<char>)
    ensures
        creatures_of_matches(ms, kind) matches Some(cs) ==> levels_in_range(cs),
    decreases ms.len(),
{
    if ms.len() > 0 {
        lemma_matches_levels(ms.drop_last(), kind);
        if let (Some(p), Some(c)) = (creatures_of_matches(ms.drop_last(), kind), creature_of(ms.last(), kind)) {
            let r = p.push(c);
            assert forall|i: int| 0 <= i < r.len() implies level_given(#[trigger] r[i].level) by {
                if i < p.len() {
                    assert(r[i] == p[i]);
                }
            }
        }
    }
}

/// Every creature read from a file has a level from 1 to 10.
pub proof fn lemma_creature_levels(text: Seq<char>, kind: Seq<char>)
    ensures
        creatures_of(text, kind) matches Some(cs) ==> levels_in_range(cs),
{
    lemma_matches_levels(
        pattern_captures(CREATURE_PATTERN@, creatures_text(text), creature_groups()),
        kind,
    );
}

proof fn lemma_creatures_none_extends(ms: Seq<Seq<Option<Seq<char>>>>, k: int, kind: Seq<char>)
    requires
        0 <= k <= ms.len(),
        creatures_of_matches(ms.take(k), kind) is None,
    ensures
        creatures_of_matches(ms, kind) is None,
    decreases ms.len() - k,
{
    if k < ms.len() {
        assert(ms.take(k + 1).drop_last() =~= ms.take(k));
        lemma_creatures_none_extends(ms, k + 1, kind);
    } else {
        assert(ms.take(k) =~= ms);
    }
}

/// The creature of kind `kind` that one match of `CREATURE_PATTERN` describes.
pub fn creature_from_match(m: &Vec<Option<String>>, kind: &str) -> (out: Option<Creature>)
    ensures
        match out {
            Some(c) => creature_of(m.deep_view(), kind@) == Some(c@),
            None => creature_of(m.deep_view(), kind@) is None,
        },
{
    let name = match group_trimmed_upper(m, 0) {
        Some(n) => n,
        None => return None,
    };
    let level = match group(m, 1) {
        None => return None,
        Some(s) => match parse_usize_string(&s) {
            Some(v) => if 1 <= v && v <= 10 {
                Some(v)
            } else {
                return None;
            },
            None => return None,
        },
    };
    let description = match group_trimmed(m, 2) {
        Some(d) => d,
        None => return None,
    };
    let health = match group(m, 5) {
        None => None,
        Some(s) => {
            let v = match parse_usize_string(&s) {
                Some(v) => v,
                None => 0,
            };
            if v != 0 {
                Some(v)
            } else {
                None
            }
        },
    };
    let armor = match group(m, 7) {
        None => 0,
        Some(s) => match parse_usize_string(&s) {
            Some(v) => v,
            None => return None,
        },
    };
    let modifications = match group(m, 9) {
        Some(s) => semicolon_pieces(&s),
        None => {
            let v: Vec<String> = Vec::new();
            assert(v.deep_view() =~= Seq::<Seq<char>>::empty());
            v
        },
    };
    let options = match option_tables(m, 11, 12, 13, 14) {
        Some(o) => o,
        None => return None,
    };
    Some(
        Creature {
            name,
            kind: String::from_str(kind),
            level,
            description,
            motive: group_trimmed_nonempty(m, 3),
            environment: group_trimmed_nonempty(m, 4),
            health,
            damage: group_trimmed_nonempty(m, 6),
            armor,
            movement: group_trimmed_nonempty(m, 8),
            modifications,
            combat: group_trimmed(m, 10),
            options,
            interactions: group_trimmed_nonempty(m, 15),
            uses: group_trimmed_nonempty(m, 16),
            loot: group_trimmed_nonempty(m, 17),
            intrusions: group_trimmed_nonempty(m, 18),
        },
    )
}

/// Reads a creatures file: one creature of kind `kind` per match of
/// `CREATURE_PATTERN` in the transliterated text without carriage returns,
/// in the order of the file.
pub fn load_creatures(text: &str, kind: &str) -> (out: Option<Vec<Creature>>)
    ensures
        out is Some <==> creatures_of(text@, kind@) is Some,
        out matches Some(v) ==> creatures_of(text@, kind@) == Some(creatures_view(v@)),
        out matches Some(v) ==> levels_in_range(creatures_view(v@)),
{
    proof {
        lemma_creature_levels(text@, kind@);
    }
    let p = match Pattern::new(CREATURE_PATTERN) {
        Some(p) => p,
        None => return None,
    };
    let groups: &[&str] = &[
        "name",
        "level",
        "description",
        "motive",
        "environment",
        "health",
        "damage",
        "armor",
        "movement",
        "modification",
        "combat",
        "option_table",
        "option_name",
        "option_description",
        "options",
        "interaction",
        "use",
        "loot",
        "intrusion",
    ];
    assert(groups.deep_view() =~= creature_groups());
    let raw = transliterate(text);
    let clean = string_of(&without_char_chars(&chars_of(raw.as_str()), '\r'));
    let ms = p.captures(clean.as_str(), groups);
    if ms.len() == 0 {
        return None;
    }
    let ghost all = ms.deep_view();
    let mut out: Vec<Creature> = Vec::new();
    let mut i: usize = 0;
    assert(all.take(0) =~= Seq::<Seq<Option<Seq<char>>>>::empty());
    assert(creatures_view(out@) =~= Seq::<CreatureView>::empty());
    while i < ms.len()
        invariant
            i <= ms.len() == all.len(),
            all == ms.deep_view(),
            all == pattern_captures(CREATURE_PATTERN@, creatures_text(text@), creature_groups()),
            all.len() > 0,
            pattern_compiles(CREATURE_PATTERN@),
            creatures_of_matches(all.take(i as int), kind@) == Some(creatures_view(out@)),
        decreases ms.len() - i,
    {
        assert(all.take(i + 1).drop_last() =~= all.take(i as int));
        assert(all.take(i + 1).last() == ms@[i as int].deep_view());
        match creature_from_match(&ms[i], kind) {
            Some(c) => {
                let ghost before = out@;
                out.push(c);
                assert(creatures_view(out@) =~= creatures_view(before).push(out@.last()@));
            },
            None => {
                proof {
                    lemma_creatures_none_extends(all, i + 1, kind@);
                }
                return None;
            },
        }
        i += 1;
    }
    assert(all.take(all.len() as int) =~= all);
    Some(out)
}

/// All creatures of the three files, in order of name (equal names keep the
/// order creatures, super villains, NPCs).
pub fn gather_creatures(
    creatures: Vec<Creature>,
    villains: Vec<Creature>,
    npcs: Vec<Creature>,
) -> (out: Vec<Creature>)
    ensures
        out@ == sort_by_key(creatures@ + villains@ + npcs@, name_of::<Creature>()),
{
    let mut all = creatures;
    let mut v = villains;
    let mut n = npcs;
    let ghost a0 = all@;
    let ghost v0 = v@;
    let ghost n0 = n@;
    all.append(&mut v);
    all.append(&mut n);
    assert(all@ =~= a0 + v0 + n0);
    sort_by_name(all)
}

/// The gathered creatures come in order of name, and they are those of the
/// three lists, none lost and none added.
pub proof fn lemma_gathered_in_order(creatures: Seq<Creature>, villains: Seq<Creature>, npcs: Seq<Creature>)
    ensures
        sorted_by_key(
            sort_by_key(creatures + villains + npcs, name_of::<Creature>()),
            name_of::<Creature>(),
        ),
        sort_by_key(creatures + villains + npcs, name_of::<Creature>()).to_multiset() == (creatures
            + villains + npcs).to_multiset(),
{
    lemma_sort_by_key(creatures + villains + npcs, name_of::<Creature>());
}

} // verus!
