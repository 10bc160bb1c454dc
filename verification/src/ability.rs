//! Abilities: the special abilities of types, flavors and foci.

use vstd::prelude::*;
use crate::pattern::{Pattern, pattern_compiles, pattern_captures};
use crate::text::{trim, upper, parse_usize, contains, starts_with, strip_prefix, strip_leading,
    strip_trailing, byte_len, split_char, views, chars_of, trim_chars, string_of, split_chars,
    upper_chars, chars_eq, string_contains, parse_usize_string, trim_string, strip_leading_chars,
    strip_trailing_chars, strip_prefix_chars, starts_with_chars, contains_chars,
    more_than_one_byte};
use crate::fields::{grp, trimmed, group, group_trimmed};
use crate::order::{Named, set_insert, string_set_insert, sort_by_name, sort_by_key, name_of,
    strictly_sorted, lemma_set_insert, lemma_set_insert_again};
use crate::translit::{transliterate, transliterated};
use crate::tables::table_lines;

verus! {

/// One line of the abilities file: `Name (cost pool points + extra): description`.
pub const ABILITIES_PATTERN: &'static str = r"(?P<name>^\w[\w\s\d/\-'\?,]*)(?P<rendered>\((?P<cost>\d*)(?P<plus>\+)? (?P<pool>[\w\s]*) points?( \+ (?P<additional>.*))?\))?:(?P<description>.*)";

pub struct BasicAbility {
    pub name: String,
    pub description: String,
}

pub struct AbilityRef {
    pub name: String,
    pub tier: usize,
    pub preselected: bool,
}

pub struct Ability {
    pub name: String,
    pub cost: Option<usize>,
    pub pool: Vec<String>,
    pub additional_cost: Option<String>,
    pub cost_rendered: String,
    pub tier: Option<String>,
    pub category: Vec<String>,
    pub description: String,
    /// The names of the types, flavors and foci that offer the ability, in
    /// order, each once.
    pub references: Vec<String>,
}

#[verifier::ext_equal]
pub struct BasicAbilityView {
    pub name: Seq<char>,
    pub description: Seq<char>,
}

#[verifier::ext_equal]
pub struct AbilityRefView {
    pub name: Seq<char>,
    pub tier: usize,
    pub preselected: bool,
}

#[verifier::ext_equal]
pub struct AbilityView {
    pub name: Seq<char>,
    pub cost: Option<usize>,
    pub pool: Seq<Seq<char>>,
    pub additional_cost: Option<Seq<char>>,
    pub cost_rendered: Seq<char>,
    pub tier: Option<Seq<char>>,
    pub category: Seq<Seq<char>>,
    pub description: Seq<char>,
    pub references: Seq<Seq<char>>,
}

impl View for BasicAbility {
    type V = BasicAbilityView;

    open spec fn view(&self) -> BasicAbilityView {
        BasicAbilityView { name: self.name@, description: self.description@ }
    }
}

impl View for AbilityRef {
    type V = AbilityRefView;

    open spec fn view(&self) -> AbilityRefView {
        AbilityRefView { name: self.name@, tier: self.tier, preselected: self.preselected }
    }
}

impl View for Ability {
    type V = AbilityView;

    open spec fn view(&self) -> AbilityView {
        AbilityView {
            name: self.name@,
            cost: self.cost,
            pool: self.pool.deep_view(),
            additional_cost: self.additional_cost.deep_view(),
            cost_rendered: self.cost_rendered@,
            tier: self.tier.deep_view(),
            category: self.category.deep_view(),
            description: self.description@,
            references: self.references.deep_view(),
        }
    }
}

impl Named for Ability {
    open spec fn name_key(&self) -> Seq<char> {
        self.name@
    }

    fn name_text(&self) -> (r: &String) {
        &self.name
    }
}

pub open spec fn basics_view(v: Seq<BasicAbility>) -> Seq<BasicAbilityView> {
    v.map_values(|a: BasicAbility| a@)
}

pub open spec fn refs_view(v: Seq<AbilityRef>) -> Seq<AbilityRefView> {
    v.map_values(|a: AbilityRef| a@)
}

pub open spec fn abilities_view(v: Seq<Ability>) -> Seq<AbilityView> {
    v.map_values(|a: Ability| a@)
}

/// The groups read from a line of the abilities file.
pub open spec fn ability_groups() -> Seq<Seq<char>> {
    seq!["name"@, "rendered"@, "cost"@, "plus"@, "pool"@, "additional"@, "description"@]
}

/// The pools named in `p`, in the order Might, Speed, Intellect.
pub open spec fn pool_of(p: Seq<char>) -> Seq<Seq<char>> {
    let a = if contains(p, "Might"@) {
        seq!["Might"@]
    } else {
        Seq::<Seq<char>>::empty()
    };
    let b = if contains(p, "Speed"@) {
        a.push("Speed"@)
    } else {
        a
    };
    if contains(p, "Intellect"@) {
        b.push("Intellect"@)
    } else {
        b
    }
}

/// The ability that a match of `ABILITIES_PATTERN` describes; `None` where
/// its cost is there but not a number that fits a `usize`.
pub open spec fn ability_of(m: Seq<Option<Seq<char>>>) -> Option<AbilityView> {
    match (grp(m, 0), grp(m, 6)) {
        (Some(n), Some(d)) => {
            let cost = match grp(m, 2) {
                None => Some(None),
                Some(c) => match parse_usize(c) {
                    Some(v) => Some(Some(v)),
                    None => None,
                },
            };
            match cost {
                None => None,
                Some(cost) => Some(
                    AbilityView {
                        name: trim(n),
                        cost: cost,
                        pool: match grp(m, 4) {
                            Some(p) => pool_of(p),
                            None => Seq::<Seq<char>>::empty(),
                        },
                        additional_cost: match grp(m, 5) {
                            Some(a) => Some(trim(a)),
                            None => trimmed(grp(m, 3)),
                        },
                        cost_rendered: match grp(m, 1) {
                            Some(r) => strip_leading(strip_trailing(trim(r), ')'), '('),
                            None => Seq::<char>::empty(),
                        },
                        tier: None,
                        category: Seq::<Seq<char>>::empty(),
                        description: trim(d),
                        references: Seq::<Seq<char>>::empty(),
                    },
                ),
            }
        },
        _ => None,
    }
}

/// The key under which an ability is found: its name in upper case.
pub open spec fn ability_key(a: AbilityView) -> Seq<char> {
    upper(a.name)
}

/// The first position of the ability with key `k`.
pub open spec fn find_key(s: Seq<AbilityView>, k: Seq<char>) -> Option<int>
    decreases s.len(),
{
    if s.len() == 0 {
        None
    } else {
        match find_key(s.drop_last(), k) {
            Some(i) => Some(i),
            None => if ability_key(s.last()) == k {
                Some(s.len() - 1)
            } else {
                None
            },
        }
    }
}

/// Whether no two abilities share a key.
pub open spec fn keys_unique(s: Seq<AbilityView>) -> bool {
    forall|i: int, j: int|
        0 <= i < j < s.len() ==> ability_key(#[trigger] s[i]) != ability_key(#[trigger] s[j])
}

/// `s` with `a` in place of the ability of the same key, or added at the end.
pub open spec fn put_ability(s: Seq<AbilityView>, a: AbilityView) -> Seq<AbilityView> {
    match find_key(s, ability_key(a)) {
        Some(i) => s.update(i, a),
        None => s.push(a),
    }
}

/// `a` with `name` among its references.
pub open spec fn with_reference(a: AbilityView, name: Seq<char>) -> AbilityView {
    AbilityView { references: set_insert(a.references, name), ..a }
}

/// `a` placed in category `kind`, and at tier `tier` where a tier has been
/// named (else its tier stays as it is).
pub open spec fn with_tier(a: AbilityView, kind: Seq<char>, tier: Option<Seq<char>>) -> AbilityView {
    AbilityView {
        category: a.category.push(kind),
        tier: match tier {
            Some(t) => Some(t),
            None => a.tier,
        },
        ..a
    }
}

/// The abilities of the lines (trimmed) of the abilities file: each non-empty
/// line that matches `ABILITIES_PATTERN` gives one, which replaces an earlier
/// one of the same key.
pub open spec fn abilities_of_lines(lines: Seq<Seq<char>>) -> Option<Seq<AbilityView>>
    decreases lines.len(),
{
    if lines.len() == 0 {
        Some(Seq::<AbilityView>::empty())
    } else {
        match abilities_of_lines(lines.drop_last()) {
            None => None,
            Some(prev) => {
                let l = lines.last();
                let ms = pattern_captures(ABILITIES_PATTERN@, l, ability_groups());
                if l.len() == 0 || ms.len() == 0 {
                    Some(prev)
                } else {
                    match ability_of(ms[0]) {
                        None => None,
                        Some(a) => Some(put_ability(prev, a)),
                    }
                }
            },
        }
    }
}

/// The state of a reading of the tiers file: the abilities, the current
/// category and the current tier (`None` before the first tier line).
#[verifier::ext_equal]
pub struct TierState {
    pub abilities: Seq<AbilityView>,
    pub kind: Seq<char>,
    pub tier: Option<Seq<char>>,
}

/// One line (trimmed) of the tiers file: lines of one byte or none are
/// skipped; `# Kind` opens a category; a line naming Low, Mid or High tier
/// sets the tier; any other line names an ability, which joins the category
/// and, once a tier line has been read, the tier. `None` where a `#` line does not start with `# ` or an ability
/// is not there.
pub open spec fn tier_step(st: TierState, line: Seq<char>) -> Option<TierState> {
    if byte_len(line) <= 1 {
        Some(st)
    } else if starts_with(line, "#"@) {
        match strip_prefix(trim(line), "# "@) {
            Some(k) => Some(TierState { kind: k, ..st }),
            None => None,
        }
    } else if contains(line, "Low Tier:"@) {
        Some(TierState { tier: Some("Low"@), ..st })
    } else if contains(line, "Mid Tier"@) {
        Some(TierState { tier: Some("Mid"@), ..st })
    } else if contains(line, "High Tier"@) {
        Some(TierState { tier: Some("High"@), ..st })
    } else {
        match find_key(st.abilities, upper(line)) {
            None => None,
            Some(i) => Some(
                TierState {
                    abilities: st.abilities.update(i, with_tier(st.abilities[i], st.kind, st.tier)),
                    ..st
                },
            ),
        }
    }
}

/// The tiers file read line by line from `st`.
pub open spec fn tiers_run(lines: Seq<Seq<char>>, st: TierState) -> Option<TierState>
    decreases lines.len(),
{
    if lines.len() == 0 {
        Some(st)
    } else {
        match tiers_run(lines.drop_last(), st) {
            None => None,
            Some(s) => tier_step(s, lines.last()),
        }
    }
}

/// The abilities of the abilities file (transliterated), placed in categories
/// and tiers by the tiers file (as it is).
pub open spec fn abilities_of(text: Seq<char>, tiers: Seq<char>) -> Option<Seq<AbilityView>> {
    if !pattern_compiles(ABILITIES_PATTERN@) {
        None
    } else {
        match abilities_of_lines(table_lines(transliterated(text))) {
            None => None,
            Some(m) => match tiers_run(
                table_lines(tiers),
                TierState {
                    abilities: m,
                    kind: Seq::<char>::empty(),
                    tier: None,
                },
            ) {
                None => None,
                Some(st) => Some(st.abilities),
            },
        }
    }
}

proof fn lemma_find_key_prefix(s: Seq<AbilityView>, j: int, k: Seq<char>)
    requires
        0 <= j <= s.len(),
        find_key(s.take(j), k) is Some,
    ensures
        find_key(s, k) == find_key(s.take(j), k),
    decreases s.len() - j,
{
    if j < s.len() {
        assert(s.take(j + 1).drop_last() =~= s.take(j));
        lemma_find_key_prefix(s, j + 1, k);
    } else {
        assert(s.take(j) =~= s);
    }
}

/// Where `find_key` finds a position, the ability there has the key; where it
/// finds none, no ability has it.
pub proof fn lemma_find_key_found(s: Seq<AbilityView>, k: Seq<char>)
    ensures
        find_key(s, k) matches Some(i) ==> 0 <= i < s.len() && ability_key(s[i]) == k,
        find_key(s, k) is None ==> forall|i: int|
            0 <= i < s.len() ==> ability_key(#[trigger] s[i]) != k,
    decreases s.len(),
{
    if s.len() > 0 {
        lemma_find_key_found(s.drop_last(), k);
        assert forall|i: int| 0 <= i < s.len() - 1 implies s[i] == s.drop_last()[i] by {}
    }
}

/// The abilities, found by key.
pub struct AbilityMap {
    pub entries: Vec<Ability>,
}

impl View for AbilityMap {
    type V = Seq<AbilityView>;

    open spec fn view(&self) -> Seq<AbilityView> {
        abilities_view(self.entries@)
    }
}

impl AbilityMap {
    pub fn new() -> (m: AbilityMap)
        ensures
            m@ == Seq::<AbilityView>::empty(),
    {
        let m = AbilityMap { entries: Vec::new() };
        assert(m@ =~= Seq::<AbilityView>::empty());
        m
    }

    /// The position of the ability whose key is `key`.
    pub fn find(&self, key: &[char]) -> (out: Option<usize>)
        ensures
            match out {
                Some(i) => find_key(self@, key@) == Some(i as int),
                None => find_key(self@, key@) is None,
            },
    {
        let mut i: usize = 0;
        while i < self.entries.len()
            invariant
                i <= self.entries.len(),
                find_key(self@.take(i as int), key@) is None,
            decreases self.entries.len() - i,
        {
            let name = chars_of(self.entries[i].name.as_str());
            let k = upper_chars(&name);
            assert(self@.take(i + 1).drop_last() =~= self@.take(i as int));
            assert(self@[i as int] == self.entries@[i as int]@);
            if chars_eq(&k, key) {
                proof {
                    lemma_find_key_prefix(self@, i + 1, key@);
                }
                return Some(i);
            }
            i += 1;
        }
        assert(self@.take(i as int) =~= self@);
        None
    }

    /// Adds `a`, in place of the ability of the same key if there is one.
    pub fn put(&mut self, a: Ability)
        ensures
            final(self)@ == put_ability(old(self)@, a@),
    {
        let name = chars_of(a.name.as_str());
        let key = upper_chars(&name);
        let ghost av = a@;
        match self.find(&key) {
            Some(i) => {
                proof {
                    lemma_find_key_found(self@, key@);
                }
                let _ = self.entries.remove(i);
                self.entries.insert(i, a);
                assert(self@ =~= old(self)@.update(i as int, av));
            },
            None => {
                self.entries.push(a);
                assert(self@ =~= old(self)@.push(av));
            },
        }
    }

    /// Adds `name` to the references of the ability whose key is `key`;
    /// `false`, and no change, where there is none.
    pub fn add_reference(&mut self, key: &[char], name: &String) -> (found: bool)
        ensures
            match find_key(old(self)@, key@) {
                Some(i) => found && final(self)@ == old(self)@.update(
                    i,
                    with_reference(old(self)@[i], name@),
                ),
                None => !found && final(self)@ == old(self)@,
            },
    {
        match self.find(key) {
            Some(i) => {
                proof {
                    lemma_find_key_found(self@, key@);
                }
                let mut a = self.entries.remove(i);
                let ghost before = a@;
                string_set_insert(&mut a.references, name.clone());
                let ghost after = a@;
                assert(after =~= with_reference(before, name@));
                self.entries.insert(i, a);
                assert(self@ =~= old(self)@.update(i as int, after));
                true
            },
            None => false,
        }
    }

    /// Places the ability at position `i` in category `kind` at tier `tier`.
    fn place(&mut self, i: usize, kind: &Vec<char>, tier: &Option<Vec<char>>)
        requires
            i < old(self).entries.len(),
        ensures
            final(self)@ == old(self)@.update(
                i as int,
                with_tier(old(self)@[i as int], kind@, tier.deep_view()),
            ),
    {
        let mut a = self.entries.remove(i);
        let ghost before = a@;
        a.category.push(string_of(kind));
        match tier {
            Some(t) => {
                a.tier = Some(string_of(t));
            },
            None => {},
        }
        let ghost after = a@;
        assert(after.category =~= before.category.push(kind@));
        assert(after =~= with_tier(before, kind@, tier.deep_view()));
        self.entries.insert(i, a);
        assert(self@ =~= old(self)@.update(i as int, after));
    }

    /// The abilities in order of name (the values of the map, sorted).
    pub fn into_sorted(self) -> (out: Vec<Ability>)
        ensures
            out@ == sort_by_key(self.entries@, name_of::<Ability>()),
    {
        sort_by_name(self.entries)
    }
}

/// The ability that one match of `ABILITIES_PATTERN` describes.
pub fn ability_from_match(m: &Vec<Option<String>>) -> (out: Option<Ability>)
    ensures
        match out {
            Some(a) => ability_of(m.deep_view()) == Some(a@),
            None => ability_of(m.deep_view()) is None,
        },
{
    let n = group_trimmed(m, 0);
    let d = group_trimmed(m, 6);
    let (name, description) = match (n, d) {
        (Some(n), Some(d)) => (n, d),
        _ => return None,
    };
    let cost = match group(m, 2) {
        None => None,
        Some(c) => match parse_usize_string(&c) {
            Some(v) => Some(v),
            None => return None,
        },
    };
    let mut pool: Vec<String> = Vec::new();
    match group(m, 4) {
        Some(p) => {
            if string_contains(&p, "Might") {
                pool.push(String::from_str("Might"));
            }
            if string_contains(&p, "Speed") {
                pool.push(String::from_str("Speed"));
            }
            if string_contains(&p, "Intellect") {
                pool.push(String::from_str("Intellect"));
            }
            assert(pool.deep_view() =~= pool_of(p@));
        },
        None => {
            assert(pool.deep_view() =~= Seq::<Seq<char>>::empty());
        },
    }
    let additional_cost = match group_trimmed(m, 5) {
        Some(a) => Some(a),
        None => group_trimmed(m, 3),
    };
    let cost_rendered = match group(m, 1) {
        Some(r) => {
            let rc = chars_of(r.as_str());
            let t = trim_chars(&rc);
            let e = strip_trailing_chars(&t, ')');
            let s = strip_leading_chars(&e, '(');
            string_of(&s)
        },
        None => String::new(),
    };
    let a = Ability {
        name,
        cost,
        pool,
        additional_cost,
        cost_rendered,
        tier: None,
        category: Vec::new(),
        description,
        references: Vec::new(),
    };
    assert(a@.category =~= Seq::<Seq<char>>::empty());
    assert(a@.references =~= Seq::<Seq<char>>::empty());
    Some(a)
}

/// The abilities of `Name: description` matches, each part trimmed; `None`
/// where a match lacks one of them.
pub open spec fn basics_of(ms: Seq<Seq<Option<Seq<char>>>>) -> Option<Seq<BasicAbilityView>>
    decreases ms.len(),
{
    if ms.len() == 0 {
        Some(Seq::<BasicAbilityView>::empty())
    } else {
        match (basics_of(ms.drop_last()), grp(ms.last(), 0), grp(ms.last(), 1)) {
            (Some(p), Some(n), Some(d)) => Some(
                p.push(BasicAbilityView { name: trim(n), description: trim(d) }),
            ),
            _ => None,
        }
    }
}

proof fn lemma_basics_none_extends(ms: Seq<Seq<Option<Seq<char>>>>, k: int)
    requires
        0 <= k <= ms.len(),
        basics_of(ms.take(k)) is None,
    ensures
        basics_of(ms) is None,
    decreases ms.len() - k,
{
    if k < ms.len() {
        assert(ms.take(k + 1).drop_last() =~= ms.take(k));
        lemma_basics_none_extends(ms, k + 1);
    } else {
        assert(ms.take(k) =~= ms);
    }
}

/// The abilities of `Name: description` matches (groups name, description).
pub fn basic_abilities(ms: &Vec<Vec<Option<String>>>) -> (out: Option<Vec<BasicAbility>>)
    ensures
        match out {
            Some(v) => basics_of(ms.deep_view()) == Some(basics_view(v@)),
            None => basics_of(ms.deep_view()) is None,
        },
{
    let ghost all = ms.deep_view();
    let mut out: Vec<BasicAbility> = Vec::new();
    let mut i: usize = 0;
    assert(all.take(0) =~= Seq::<Seq<Option<Seq<char>>>>::empty());
    assert(basics_view(out@) =~= Seq::<BasicAbilityView>::empty());
    while i < ms.len()
        invariant
            i <= ms.len() == all.len(),
            all == ms.deep_view(),
            basics_of(all.take(i as int)) == Some(basics_view(out@)),
        decreases ms.len() - i,
    {
        assert(all.take(i + 1).drop_last() =~= all.take(i as int));
        assert(all.take(i + 1).last() == ms@[i as int].deep_view());
        match (group_trimmed(&ms[i], 0), group_trimmed(&ms[i], 1)) {
            (Some(n), Some(d)) => {
                let ghost before = out@;
                out.push(BasicAbility { name: n, description: d });
                assert(basics_view(out@) =~= basics_view(before).push(out@.last()@));
            },
            _ => {
                proof {
                    lemma_basics_none_extends(all, i + 1);
                }
                return None;
            },
        }
        i += 1;
    }
    assert(all.take(all.len() as int) =~= all);
    Some(out)
}

proof fn lemma_abilities_none_extends(lines: Seq<Seq<char>>, k: int)
    requires
        0 <= k <= lines.len(),
        abilities_of_lines(lines.take(k)) is None,
    ensures
        abilities_of_lines(lines) is None,
    decreases lines.len() - k,
{
    if k < lines.len() {
        assert(lines.take(k + 1).drop_last() =~= lines.take(k));
        lemma_abilities_none_extends(lines, k + 1);
    } else {
        assert(lines.take(k) =~= lines);
    }
}

proof fn lemma_tiers_none_extends(lines: Seq<Seq<char>>, k: int, st: TierState)
    requires
        0 <= k <= lines.len(),
        tiers_run(lines.take(k), st) is None,
    ensures
        tiers_run(lines, st) is None,
    decreases lines.len() - k,
{
    if k < lines.len() {
        assert(lines.take(k + 1).drop_last() =~= lines.take(k));
        lemma_tiers_none_extends(lines, k + 1, st);
    } else {
        assert(lines.take(k) =~= lines);
    }
}

/// Reads the abilities file and then the tiers file: the abilities (from the
/// transliterated text) found by their upper-case names, each with its
/// categories and tier; each key is found once, the references of each
/// ability are an ordered set, and each tier is Low, Mid, High or none.
/// `None` where the file cannot be read through: a cost that is not a
/// number, a `#` line without `# `, a tier line naming no ability.
pub fn load_abilities(abilities_text: &str, tiers_text: &str) -> (out: Option<AbilityMap>)
    ensures
        out is Some <==> abilities_of(abilities_text@, tiers_text@) is Some,
        out matches Some(m) ==> abilities_of(abilities_text@, tiers_text@) == Some(m@),
        out matches Some(m) ==> keys_unique(m@) && references_ordered(m@) && tiers_named(m@),
{
    proof {
        lemma_abilities_keys_unique(abilities_text@, tiers_text@);
        lemma_ability_tiers(abilities_text@, tiers_text@);
    }
    let p = match Pattern::new(ABILITIES_PATTERN) {
        Some(p) => p,
        None => return None,
    };
    let groups: &[&str] = &["name", "rendered", "cost", "plus", "pool", "additional", "description"];
    assert(groups.deep_view() =~= ability_groups());
    let text = transliterate(abilities_text);
    let text_chars = chars_of(text.as_str());
    let lines = split_chars(&text_chars, '\n');
    let ghost all = table_lines(transliterated(abilities_text@));
    let mut map = AbilityMap::new();
    let mut i: usize = 0;
    assert(all.take(0) =~= Seq::<Seq<char>>::empty());
    while i < lines.len()
        invariant
            i <= lines.len() == all.len(),
            p.source() == ABILITIES_PATTERN@,
            groups.deep_view() == ability_groups(),
            all == table_lines(transliterated(abilities_text@)),
            views(lines@) == split_char(transliterated(abilities_text@), '\n'),
            abilities_of_lines(all.take(i as int)) == Some(map@),
        decreases lines.len() - i,
    {
        assert(all.take(i + 1).drop_last() =~= all.take(i as int));
        assert(views(lines@)[i as int] == lines@[i as int]@);
        let t = trim_chars(&lines[i]);
        assert(all.take(i + 1).last() == t@);
        if t.len() != 0 {
            let line = string_of(&t);
            let ms = p.captures(line.as_str(), groups);
            if ms.len() > 0 {
                match ability_from_match(&ms[0]) {
                    Some(a) => map.put(a),
                    None => {
                        proof {
                            lemma_abilities_none_extends(all, i + 1);
                        }
                        return None;
                    },
                }
            }
        }
        i += 1;
    }
    assert(all.take(all.len() as int) =~= all);
    let ghost m0 = map@;
    let tiers_chars = chars_of(tiers_text);
    let tier_lines = split_chars(&tiers_chars, '\n');
    let ghost tl = table_lines(tiers_text@);
    let ghost st0 = TierState {
        abilities: m0,
        kind: Seq::<char>::empty(),
        tier: None,
    };
    let mut kind: Vec<char> = Vec::new();
    let mut tier: Option<Vec<char>> = None;
    let hash = chars_of("#");
    let hash_space = chars_of("# ");
    let low = chars_of("Low Tier:");
    let mid = chars_of("Mid Tier");
    let high = chars_of("High Tier");
    let mut j: usize = 0;
    assert(tl.take(0) =~= Seq::<Seq<char>>::empty());
    while j < tier_lines.len()
        invariant
            j <= tier_lines.len() == tl.len(),
            tl == table_lines(tiers_text@),
            pattern_compiles(ABILITIES_PATTERN@),
            abilities_of_lines(table_lines(transliterated(abilities_text@))) == Some(m0),
            st0 == (TierState {
                abilities: m0,
                kind: Seq::<char>::empty(),
                tier: None,
            }),
            views(tier_lines@) == split_char(tiers_text@, '\n'),
            hash@ == "#"@,
            hash_space@ == "# "@,
            low@ == "Low Tier:"@,
            mid@ == "Mid Tier"@,
            high@ == "High Tier"@,
            tiers_run(tl.take(j as int), st0) == Some(
                TierState { abilities: map@, kind: kind@, tier: tier.deep_view() },
            ),
        decreases tier_lines.len() - j,
    {
        assert(tl.take(j + 1).drop_last() =~= tl.take(j as int));
        assert(views(tier_lines@)[j as int] == tier_lines@[j as int]@);
        let line = trim_chars(&tier_lines[j]);
        assert(tl.take(j + 1).last() == line@);
        if !more_than_one_byte(&line) {
        } else if starts_with_chars(&line, &hash) {
            let t = trim_chars(&line);
            match strip_prefix_chars(&t, &hash_space) {
                Some(k) => {
                    kind = k;
                },
                None => {
                    proof {
                        lemma_tiers_none_extends(tl, j + 1, st0);
                    }
                    return None;
                },
            }
        } else if contains_chars(&line, &low) {
            tier = Some(chars_of("Low"));
        } else if contains_chars(&line, &mid) {
            tier = Some(chars_of("Mid"));
        } else if contains_chars(&line, &high) {
            tier = Some(chars_of("High"));
        } else {
            let key = upper_chars(&line);
            match map.find(&key) {
                Some(idx) => {
                    proof {
                        lemma_find_key_found(map@, key@);
                    }
                    map.place(idx, &kind, &tier);
                },
                None => {
                    proof {
                        lemma_tiers_none_extends(tl, j + 1, st0);
                    }
                    return None;
                },
            }
        }
        j += 1;
    }
    assert(tl.take(tl.len() as int) =~= tl);
    Some(map)
}

/// Whether the references of every ability are in strictly increasing order.
pub open spec fn references_ordered(s: Seq<AbilityView>) -> bool {
    forall|i: int| 0 <= i < s.len() ==> strictly_sorted(#[trigger] s[i].references)
}

proof fn lemma_find_key_same_keys(s: Seq<AbilityView>, t: Seq<AbilityView>, k: Seq<char>)
    requires
        s.len() == t.len(),
        forall|i: int| 0 <= i < s.len() ==> ability_key(#[trigger] s[i]) == ability_key(t[i]),
    ensures
        find_key(s, k) == find_key(t, k),
    decreases s.len(),
{
    if s.len() > 0 {
        lemma_find_key_same_keys(s.drop_last(), t.drop_last(), k);
    }
}

/// The abilities behave as a map keyed by upper-case name: putting an
/// ability keeps the keys distinct, the ability is then found under its key,
/// and every other key finds what it found before.
pub proof fn lemma_put_ability(s: Seq<AbilityView>, a: AbilityView)
    requires
        keys_unique(s),
    ensures
        keys_unique(put_ability(s, a)),
        find_key(put_ability(s, a), ability_key(a)) is Some,
        put_ability(s, a)[find_key(put_ability(s, a), ability_key(a)).unwrap()] == a,
        forall|k: Seq<char>|
            k != ability_key(a) ==> #[trigger] find_key(put_ability(s, a), k) == find_key(s, k),
{
    lemma_find_key_found(s, ability_key(a));
    let r = put_ability(s, a);
    match find_key(s, ability_key(a)) {
        Some(i) => {
            assert(r == s.update(i, a));
            assert forall|k: Seq<char>| #[trigger] find_key(r, k) == find_key(s, k) by {
                lemma_find_key_same_keys(r, s, k);
            }
        },
        None => {
            assert(r == s.push(a));
            assert(r.drop_last() =~= s);
            assert forall|k: Seq<char>| k != ability_key(a) implies #[trigger] find_key(r, k)
                == find_key(s, k) by {}
        },
    }
}

/// References are kept as a set: adding a name keeps them in strictly
/// increasing order, they gain that name and nothing else, the key of the
/// ability stays, and adding the same name again changes nothing.
pub proof fn lemma_with_reference(a: AbilityView, name: Seq<char>)
    requires
        strictly_sorted(a.references),
    ensures
        strictly_sorted(with_reference(a, name).references),
        with_reference(a, name).references.to_set() == a.references.to_set().insert(name),
        ability_key(with_reference(a, name)) == ability_key(a),
        with_reference(with_reference(a, name), name) == with_reference(a, name),
{
    lemma_set_insert(a.references, name);
    lemma_set_insert_again(a.references, name);
}

/// Whether each ability that `refs` names (in upper case) is one of the map's.
pub open spec fn refs_found(refs: Seq<AbilityRefView>, map: Seq<AbilityView>) -> bool {
    forall|k: int| 0 <= k < refs.len() ==> find_key(map, upper(#[trigger] refs[k].name)) is Some
}

/// Whether `after` holds the abilities of `before`, in the same order, each
/// changed at most by references added to its own.
pub open spec fn only_references_added(before: Seq<AbilityView>, after: Seq<AbilityView>) -> bool {
    &&& after.len() == before.len()
    &&& forall|i: int|
        0 <= i < before.len() ==> (AbilityView { references: before[i].references, ..#[trigger] after[i] })
            == before[i] && before[i].references.to_set().subset_of(after[i].references.to_set())
}

/// Adding references is a preorder on maps: nothing added, or what one
/// reading and then another added.
pub proof fn lemma_references_added_preorder(a: Seq<AbilityView>, b: Seq<AbilityView>, c: Seq<AbilityView>)
    ensures
        only_references_added(a, a),
        only_references_added(a, b) && only_references_added(b, c) ==> only_references_added(a, c),
{
    if only_references_added(a, b) && only_references_added(b, c) {
        assert forall|i: int| 0 <= i < a.len() implies (AbilityView {
            references: a[i].references,
            ..#[trigger] c[i]
        }) == a[i] && a[i].references.to_set().subset_of(c[i].references.to_set()) by {
            assert((AbilityView { references: a[i].references, ..b[i] }) == a[i]);
            assert((AbilityView { references: b[i].references, ..c[i] }) == b[i]);
        }
    }
}

/// Adding a reference to one ability of an ordered map only adds a
/// reference, keeps the keys (so a key finds what it found before) and keeps
/// every list of references an ordered set.
pub proof fn lemma_reference_added(s: Seq<AbilityView>, i: int, name: Seq<char>)
    requires
        references_ordered(s),
        0 <= i < s.len(),
    ensures
        only_references_added(s, s.update(i, with_reference(s[i], name))),
        references_ordered(s.update(i, with_reference(s[i], name))),
        forall|k: Seq<char>| #[trigger] find_key(s.update(i, with_reference(s[i], name)), k) == find_key(s, k),
{
    lemma_with_reference(s[i], name);
    let r = s.update(i, with_reference(s[i], name));
    assert forall|j: int| 0 <= j < r.len() implies ability_key(#[trigger] r[j]) == ability_key(
        s[j],
    ) by {}
    assert forall|k: Seq<char>| #[trigger] find_key(r, k) == find_key(s, k) by {
        lemma_find_key_same_keys(r, s, k);
    }
    assert(references_ordered(r)) by {
        assert forall|x: int| 0 <= x < r.len() implies strictly_sorted(#[trigger] r[x].references) by {
            if x != i {
                assert(r[x] == s[x]);
            }
        }
    }
}

/// Maps that differ only by added references have the same keys, in the same
/// places.
pub proof fn lemma_references_added_keys(a: Seq<AbilityView>, b: Seq<AbilityView>)
    requires
        only_references_added(a, b),
    ensures
        keys_unique(a) ==> keys_unique(b),
        forall|k: Seq<char>| #[trigger] find_key(b, k) == find_key(a, k),
{
    assert forall|j: int| 0 <= j < a.len() implies ability_key(#[trigger] b[j]) == ability_key(
        a[j],
    ) by {
        assert((AbilityView { references: a[j].references, ..b[j] }) == a[j]);
    }
    assert forall|k: Seq<char>| #[trigger] find_key(b, k) == find_key(a, k) by {
        lemma_find_key_same_keys(b, a, k);
    }
    if keys_unique(a) {
        assert forall|x: int, y: int| 0 <= x < y < b.len() implies ability_key(#[trigger] b[x])
            != ability_key(#[trigger] b[y]) by {
            assert(ability_key(b[x]) == ability_key(a[x]));
            assert(ability_key(b[y]) == ability_key(a[y]));
        }
    }
}

proof fn lemma_lines_keys_unique(lines: Seq<Seq<char>>)
    ensures
        abilities_of_lines(lines) matches Some(s) ==> keys_unique(s) && references_ordered(s),
    decreases lines.len(),
{
    if lines.len() > 0 {
        lemma_lines_keys_unique(lines.drop_last());
        if let Some(prev) = abilities_of_lines(lines.drop_last()) {
            let l = lines.last();
            let ms = pattern_captures(ABILITIES_PATTERN@, l, ability_groups());
            if !(l.len() == 0 || ms.len() == 0) {
                if let Some(a) = ability_of(ms[0]) {
                    lemma_put_ability(prev, a);
                    lemma_find_key_found(prev, ability_key(a));
                    let r = put_ability(prev, a);
                    assert(a.references =~= Seq::<Seq<char>>::empty());
                    assert forall|i: int| 0 <= i < r.len() implies strictly_sorted(
                        #[trigger] r[i].references,
                    ) by {
                        if r[i] != a {
                            assert(r[i] == prev[i]);
                        }
                    }
                }
            }
        }
    }
}

proof fn lemma_tiers_keys_unique(lines: Seq<Seq<char>>, st: TierState)
    requires
        keys_unique(st.abilities),
        references_ordered(st.abilities),
    ensures
        tiers_run(lines, st) matches Some(r) ==> keys_unique(r.abilities) && references_ordered(
            r.abilities,
        ),
    decreases lines.len(),
{
    if lines.len() > 0 {
        lemma_tiers_keys_unique(lines.drop_last(), st);
        if let Some(s) = tiers_run(lines.drop_last(), st) {
            let line = lines.last();
            if !(byte_len(line) <= 1) && !starts_with(line, "#"@) && !contains(line, "Low Tier:"@)
                && !contains(line, "Mid Tier"@) && !contains(line, "High Tier"@) {
                lemma_find_key_found(s.abilities, upper(line));
                if let Some(i) = find_key(s.abilities, upper(line)) {
                    let r = s.abilities.update(i, with_tier(s.abilities[i], s.kind, s.tier));
                    assert forall|j: int| 0 <= j < r.len() implies ability_key(#[trigger] r[j])
                        == ability_key(s.abilities[j]) && r[j].references
                        == s.abilities[j].references by {}
                    assert(keys_unique(r)) by {
                        assert forall|x: int, y: int| 0 <= x < y < r.len() implies ability_key(
                            #[trigger] r[x],
                        ) != ability_key(#[trigger] r[y]) by {
                            assert(ability_key(r[x]) == ability_key(s.abilities[x]));
                            assert(ability_key(r[y]) == ability_key(s.abilities[y]));
                        }
                    }
                    assert(references_ordered(r)) by {
                        assert forall|x: int| 0 <= x < r.len() implies strictly_sorted(
                            #[trigger] r[x].references,
                        ) by {
                            assert(r[x].references == s.abilities[x].references);
                        }
                    }
                }
            }
        }
    }
}

/// The abilities read from the two files are found by key, each key once,
/// and the references of each are an ordered set.
pub proof fn lemma_abilities_keys_unique(text: Seq<char>, tiers: Seq<char>)
    ensures
        abilities_of(text, tiers) matches Some(s) ==> keys_unique(s) && references_ordered(s),
{
    let lines = table_lines(transliterated(text));
    lemma_lines_keys_unique(lines);
    if let Some(m) = abilities_of_lines(lines) {
        lemma_tiers_keys_unique(
            table_lines(tiers),
            TierState { abilities: m, kind: Seq::<char>::empty(), tier: None },
        );
    }
}

/// Whether a tier is none, or Low, Mid or High.
pub open spec fn tier_named(t: Option<Seq<char>>) -> bool {
    t is None || t == Some("Low"@) || t == Some("Mid"@) || t == Some("High"@)
}

/// Whether the tier of every ability is none, or Low, Mid or High.
pub open spec fn tiers_named(s: Seq<AbilityView>) -> bool {
    forall|i: int| 0 <= i < s.len() ==> tier_named(#[trigger] s[i].tier)
}

proof fn lemma_lines_tiers(lines: Seq<Seq<char>>)
    ensures
        abilities_of_lines(lines) matches Some(s) ==> tiers_named(s),
    decreases lines.len(),
{
    if lines.len() > 0 {
        lemma_lines_tiers(lines.drop_last());
        if let Some(prev) = abilities_of_lines(lines.drop_last()) {
            let l = lines.last();
            let ms = pattern_captures(ABILITIES_PATTERN@, l, ability_groups());
            if !(l.len() == 0 || ms.len() == 0) {
                if let Some(a) = ability_of(ms[0]) {
                    lemma_find_key_found(prev, ability_key(a));
                    let r = put_ability(prev, a);
                    assert forall|i: int| 0 <= i < r.len() implies tier_named(#[trigger] r[i].tier) by {
                        if r[i] != a {
                            assert(r[i] == prev[i]);
                        }
                    }
                }
            }
        }
    }
}

proof fn lemma_tiers_run_tiers(lines: Seq<Seq<char>>, st: TierState)
    requires
        tiers_named(st.abilities),
        tier_named(st.tier),
    ensures
        tiers_run(lines, st) matches Some(r) ==> tiers_named(r.abilities) && tier_named(r.tier),
    decreases lines.len(),
{
    if lines.len() > 0 {
        lemma_tiers_run_tiers(lines.drop_last(), st);
        if let Some(p) = tiers_run(lines.drop_last(), st) {
            let line = lines.last();
            if !(byte_len(line) <= 1) && !starts_with(line, "#"@) && !contains(line, "Low Tier:"@)
                && !contains(line, "Mid Tier"@) && !contains(line, "High Tier"@) {
                lemma_find_key_found(p.abilities, upper(line));
                if let Some(i) = find_key(p.abilities, upper(line)) {
                    let r = p.abilities.update(i, with_tier(p.abilities[i], p.kind, p.tier));
                    assert forall|j: int| 0 <= j < r.len() implies tier_named(#[trigger] r[j].tier) by {
                        if j != i {
                            assert(r[j] == p.abilities[j]);
                        } else {
                            assert(tier_named(p.abilities[i].tier));
                        }
                    }
                }
            }
        }
    }
}

/// The tier of every ability read from the two files is Low, Mid or High,
/// or none where the tiers file names the ability before any tier line (or
/// not at all).
pub proof fn lemma_ability_tiers(text: Seq<char>, tiers: Seq<char>)
    ensures
        abilities_of(text, tiers) matches Some(s) ==> tiers_named(s),
{
    let lines = table_lines(transliterated(text));
    lemma_lines_tiers(lines);
    if let Some(m) = abilities_of_lines(lines) {
        lemma_tiers_run_tiers(
            table_lines(tiers),
            TierState { abilities: m, kind: Seq::<char>::empty(), tier: None },
        );
    }
}

/// The `Name: description` abilities of some matches are one per match, in
/// order, each the match's two parts trimmed; there are none where a match
/// lacks a part.
pub proof fn lemma_basics_of(ms: Seq<Seq<Option<Seq<char>>>>)
    ensures
        basics_of(ms) is Some <==> forall|i: int|
            0 <= i < ms.len() ==> grp(#[trigger] ms[i], 0) is Some && grp(ms[i], 1) is Some,
        basics_of(ms) matches Some(b) ==> b.len() == ms.len() && forall|i: int|
            0 <= i < ms.len() ==> (#[trigger] b[i]).name == trim(grp(ms[i], 0)->0)
                && b[i].description == trim(grp(ms[i], 1)->0),
    decreases ms.len(),
{
    if ms.len() > 0 {
        let d = ms.drop_last();
        lemma_basics_of(d);
        assert forall|i: int| 0 <= i < d.len() implies d[i] == ms[i] by {}
        if basics_of(ms) is None {
            if basics_of(d) is None {
                let i = choose|i: int|
                    0 <= i < d.len() && !(grp(#[trigger] d[i], 0) is Some && grp(d[i], 1) is Some);
                assert(ms[i] == d[i]);
            } else {
                assert(ms[ms.len() - 1] == ms.last());
            }
        }
    }
}

/// The place of a pool among Might, Speed and Intellect.
pub open spec fn pool_rank(x: Seq<char>) -> int {
    if x == "Might"@ {
        0
    } else if x == "Speed"@ {
        1
    } else {
        2
    }
}

/// Whether `x` is one of the pools Might, Speed, Intellect and `p` names it.
pub open spec fn pool_named(p: Seq<char>, x: Seq<char>) -> bool {
    (x == "Might"@ || x == "Speed"@ || x == "Intellect"@) && contains(p, x)
}

/// The pools of a pool text are exactly the pools among Might, Speed and
/// Intellect that it names, each once, in that order.
pub proof fn lemma_pool_of(p: Seq<char>)
    ensures
        forall|x: Seq<char>| pool_of(p).contains(x) <==> pool_named(p, x),
        forall|i: int, j: int|
            0 <= i < j < pool_of(p).len() ==> pool_rank(#[trigger] pool_of(p)[i]) < pool_rank(
                #[trigger] pool_of(p)[j],
            ),
{
    reveal_strlit("Might");
    reveal_strlit("Speed");
    reveal_strlit("Intellect");
    assert("Might"@ != "Speed"@ && "Might"@ != "Intellect"@ && "Speed"@ != "Intellect"@) by {
        assert("Might"@[0] != "Speed"@[0]);
        assert("Might"@.len() != "Intellect"@.len());
        assert("Speed"@.len() != "Intellect"@.len());
    }
    let r = pool_of(p);
    assert forall|x: Seq<char>| r.contains(x) <==> pool_named(p, x) by {
        if pool_named(p, x) {
            if x == "Might"@ {
                assert(r[0] == x);
            } else if x == "Speed"@ {
                assert(r[r.len() - 1] == x || r[r.len() - 2] == x);
            } else {
                assert(r[r.len() - 1] == x);
            }
        }
    }
}

/// The pools of an ability read from a line are exactly the pools among
/// Might, Speed and Intellect that its pool text names, in that order; an
/// ability without a pool text has none.
pub proof fn lemma_ability_pool(m: Seq<Option<Seq<char>>>)
    ensures
        ability_of(m) matches Some(a) ==> (forall|x: Seq<char>|
            a.pool.contains(x) <==> (grp(m, 4) matches Some(p) && pool_named(p, x))),
        ability_of(m) matches Some(a) ==> forall|i: int, j: int|
            0 <= i < j < a.pool.len() ==> pool_rank(#[trigger] a.pool[i]) < pool_rank(#[trigger] a.pool[j]),
{
    if let Some(p) = grp(m, 4) {
        lemma_pool_of(p);
    }
}

} // verus!
