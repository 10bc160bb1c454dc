//! Descriptors: adjectives that give a character characteristics.

use vstd::prelude::*;
use crate::pattern::{Pattern, pattern_compiles, pattern_captures};
use crate::text::{trim, upper};
use crate::fields::{grp, group, group_trimmed, group_upper_trimmed, first_groups_trimmed,
    first_groups};
use crate::order::{Named, name_of, sort_by_name, sort_by_key, sorted_by_key, lemma_sort_map,
    lemma_sort_by_key};
use crate::translit::{transliterate, transliterated};
use crate::ability::{BasicAbility, BasicAbilityView, basics_view, basics_of, basic_abilities,
    lemma_basics_of};

verus! {

/// One descriptor: name, description, characteristics, optional links, up to
/// a blank line.
pub const DESCRIPTOR_PATTERN: &'static str = r"(?m)\s*(?P<name>[^\n]*)(?P<description>[[:ascii:]]*?)You gain the following characteristics:\s*(?P<abilities>[[:ascii:]]*?)(?:Initial Link to the Starting Adventure:[^\n]*\s*(?P<links>[[:ascii:]]*?))?(?:^\s*$)";

/// One `Name: description` characteristic.
pub const CHARACTERISTIC_PATTERN: &'static str = r"(?m)^(?P<name>[^\n]*?):\s*(?P<description>[^\n]*)$";

/// One numbered link.
pub const LINK_PATTERN: &'static str = r"(?m)^\s*\d+\.\s*(?P<link>[^\n]*)";

pub struct Descriptor {
    pub name: String,
    pub description: String,
    pub characteristics: Vec<BasicAbility>,
    pub links: Vec<String>,
}

#[verifier::ext_equal]
pub struct DescriptorView {
    pub name: Seq<char>,
    pub description: Seq<char>,
    pub characteristics: Seq<BasicAbilityView>,
    pub links: Seq<Seq<char>>,
}

impl View for Descriptor {
    type V = DescriptorView;

    open spec fn view(&self) -> DescriptorView {
        DescriptorView {
            name: self.name@,
            description: self.description@,
            characteristics: basics_view(self.characteristics@),
            links: self.links.deep_view(),
        }
    }
}

impl Named for Descriptor {
    open spec fn name_key(&self) -> Seq<char> {
        self.name@
    }

    fn name_text(&self) -> (r: &String) {
        &self.name
    }
}

pub open spec fn descriptor_view_fn() -> spec_fn(Descriptor) -> DescriptorView {
    |d: Descriptor| d@
}

pub open spec fn descriptor_key() -> spec_fn(DescriptorView) -> Seq<char> {
    |d: DescriptorView| d.name
}

pub open spec fn descriptors_view(v: Seq<Descriptor>) -> Seq<DescriptorView> {
    v.map_values(descriptor_view_fn())
}

pub open spec fn descriptor_groups() -> Seq<Seq<char>> {
    seq!["name"@, "description"@, "abilities"@, "links"@]
}

pub open spec fn characteristic_groups() -> Seq<Seq<char>> {
    seq!["name"@, "description"@]
}

pub open spec fn link_groups() -> Seq<Seq<char>> {
    seq!["link"@]
}

/// The descriptor that a match of `DESCRIPTOR_PATTERN` describes; `None`
/// where it has no characteristic (a descriptor is never built without one).
pub open spec fn descriptor_of(m: Seq<Option<Seq<char>>>) -> Option<DescriptorView> {
    let characteristics = match grp(m, 2) {
        Some(a) => basics_of(pattern_captures(CHARACTERISTIC_PATTERN@, a, characteristic_groups())),
        None => Some(Seq::<BasicAbilityView>::empty()),
    };
    let links = match grp(m, 3) {
        Some(l) => first_groups_trimmed(pattern_captures(LINK_PATTERN@, l, link_groups())),
        None => Some(Seq::<Seq<char>>::empty()),
    };
    match (grp(m, 0), grp(m, 1), characteristics, links) {
        (Some(n), Some(d), Some(c), Some(l)) => if c.len() > 0 {
            Some(
                DescriptorView { name: trim(upper(n)), description: trim(d), characteristics: c, links: l },
            )
        } else {
            None
        },
        _ => None,
    }
}

pub open spec fn descriptors_of_matches(ms: Seq<Seq<Option<Seq<char>>>>) -> Option<
    Seq<DescriptorView>,
>
    decreases ms.len(),
{
    if ms.len() == 0 {
        Some(Seq::<DescriptorView>::empty())
    } else {
        match (descriptors_of_matches(ms.drop_last()), descriptor_of(ms.last())) {
            (Some(p), Some(d)) => Some(p.push(d)),
            _ => None,
        }
    }
}

/// The descriptors of the descriptors file (transliterated), in order of name.
pub open spec fn descriptors_of(text: Seq<char>) -> Option<Seq<DescriptorView>> {
    if !(pattern_compiles(DESCRIPTOR_PATTERN@) && pattern_compiles(CHARACTERISTIC_PATTERN@)
        && pattern_compiles(LINK_PATTERN@)) {
        None
    } else {
        match descriptors_of_matches(
            pattern_captures(DESCRIPTOR_PATTERN@, transliterated(text), descriptor_groups()),
        ) {
            Some(d) => Some(sort_by_key(d, descriptor_key())),
            None => None,
        }
    }
}

proof fn lemma_descriptors_none_extends(ms: Seq<Seq<Option<Seq<char>>>>, k: int)
    requires
        0 <= k <= ms.len(),
        descriptors_of_matches(ms.take(k)) is None,
    ensures
        descriptors_of_matches(ms) is None,
    decreases ms.len() - k,
{
    if k < ms.len() {
        assert(ms.take(k + 1).drop_last() =~= ms.take(k));
        lemma_descriptors_none_extends(ms, k + 1);
    } else {
        assert(ms.take(k) =~= ms);
    }
}

/// The descriptor that one match of `DESCRIPTOR_PATTERN` describes; `None`
/// also where the patterns it reads the match with do not compile.
pub fn descriptor_from_match(m: &Vec<Option<String>>) -> (out: Option<Descriptor>)
    ensures
        pattern_compiles(CHARACTERISTIC_PATTERN@) && pattern_compiles(LINK_PATTERN@) ==> (
            match out {
                Some(x) => descriptor_of(m.deep_view()) == Some(x@),
                None => descriptor_of(m.deep_view()) is None,
            }),
        !(pattern_compiles(CHARACTERISTIC_PATTERN@) && pattern_compiles(LINK_PATTERN@)) ==> out is None,
{
    let characteristic = match Pattern::new(CHARACTERISTIC_PATTERN) {
        Some(p) => p,
        None => return None,
    };
    let link = match Pattern::new(LINK_PATTERN) {
        Some(p) => p,
        None => return None,
    };
    descriptor_with(m, &characteristic, &link)
}

/// The descriptor of a match, read with the given characteristic and link patterns.
fn descriptor_with(m: &Vec<Option<String>>, characteristic: &Pattern, link: &Pattern) -> (out:
    Option<Descriptor>)
    requires
        characteristic.source() == CHARACTERISTIC_PATTERN@,
        link.source() == LINK_PATTERN@,
    ensures
        match out {
            Some(d) => descriptor_of(m.deep_view()) == Some(d@),
            None => descriptor_of(m.deep_view()) is None,
        },
{
    let characteristics = match group(m, 2) {
        Some(a) => {
            let groups: &[&str] = &["name", "description"];
            assert(groups.deep_view() =~= characteristic_groups());
            let ms = characteristic.captures(a.as_str(), groups);
            basic_abilities(&ms)
        },
        None => {
            let v: Vec<BasicAbility> = Vec::new();
            assert(basics_view(v@) =~= Seq::<BasicAbilityView>::empty());
            Some(v)
        },
    };
    let links = match group(m, 3) {
        Some(l) => {
            let groups: &[&str] = &["link"];
            assert(groups.deep_view() =~= link_groups());
            let ms = link.captures(l.as_str(), groups);
            first_groups(&ms)
        },
        None => {
            let v: Vec<String> = Vec::new();
            assert(v.deep_view() =~= Seq::<Seq<char>>::empty());
            Some(v)
        },
    };
    match (group_upper_trimmed(m, 0), group_trimmed(m, 1), characteristics, links) {
        (Some(n), Some(d), Some(c), Some(l)) => if c.len() > 0 {
            Some(Descriptor { name: n, description: d, characteristics: c, links: l })
        } else {
            None
        },
        _ => None,
    }
}

/// Reads the descriptors file: one descriptor per match of
/// `DESCRIPTOR_PATTERN` in the transliterated text, in order of name.
pub fn load_descriptors(text: &str) -> (out: Option<Vec<Descriptor>>)
    ensures
        out is Some <==> descriptors_of(text@) is Some,
        out matches Some(v) ==> descriptors_of(text@) == Some(descriptors_view(v@)),
{
    let p = match Pattern::new(DESCRIPTOR_PATTERN) {
        Some(p) => p,
        None => return None,
    };
    let characteristic = match Pattern::new(CHARACTERISTIC_PATTERN) {
        Some(p) => p,
        None => return None,
    };
    let link = match Pattern::new(LINK_PATTERN) {
        Some(p) => p,
        None => return None,
    };
    let groups: &[&str] = &["name", "description", "abilities", "links"];
    assert(groups.deep_view() =~= descriptor_groups());
    let t = transliterate(text);
    let ms = p.captures(t.as_str(), groups);
    let ghost all = ms.deep_view();
    let mut out: Vec<Descriptor> = Vec::new();
    let mut i: usize = 0;
    assert(all.take(0) =~= Seq::<Seq<Option<Seq<char>>>>::empty());
    assert(descriptors_view(out@) =~= Seq::<DescriptorView>::empty());
    while i < ms.len()
        invariant
            i <= ms.len() == all.len(),
            all == ms.deep_view(),
            all == pattern_captures(DESCRIPTOR_PATTERN@, transliterated(text@), descriptor_groups()),
            pattern_compiles(DESCRIPTOR_PATTERN@),
            pattern_compiles(CHARACTERISTIC_PATTERN@),
            pattern_compiles(LINK_PATTERN@),
            characteristic.source() == CHARACTERISTIC_PATTERN@,
            link.source() == LINK_PATTERN@,
            descriptors_of_matches(all.take(i as int)) == Some(descriptors_view(out@)),
        decreases ms.len() - i,
    {
        assert(all.take(i + 1).drop_last() =~= all.take(i as int));
        assert(all.take(i + 1).last() == ms@[i as int].deep_view());
        match descriptor_with(&ms[i], &characteristic, &link) {
            Some(d) => {
                let ghost before = out@;
                out.push(d);
                assert(descriptors_view(out@) =~= descriptors_view(before).push(out@.last()@));
            },
            None => {
                proof {
                    lemma_descriptors_none_extends(all, i + 1);
                }
                return None;
            },
        }
        i += 1;
    }
    assert(all.take(all.len() as int) =~= all);
    let sorted = sort_by_name(out);
    proof {
        lemma_sort_map(out@, descriptor_view_fn(), name_of::<Descriptor>(), descriptor_key());
    }
    Some(sorted)
}

/// The descriptors read from a file come in order of name, and they are the
/// descriptors of the file's matches, none lost and none added.
pub proof fn lemma_descriptors_in_order(text: Seq<char>)
    ensures
        descriptors_of(text) is Some ==> sorted_by_key(
            descriptors_of(text).unwrap(),
            descriptor_key(),
        ),
        descriptors_of(text) is Some ==> {
            let parsed = descriptors_of_matches(
                pattern_captures(DESCRIPTOR_PATTERN@, transliterated(text), descriptor_groups()),
            );
            &&& parsed is Some
            &&& descriptors_of(text).unwrap().to_multiset() == parsed.unwrap().to_multiset()
        },
{
    let parsed = descriptors_of_matches(
        pattern_captures(DESCRIPTOR_PATTERN@, transliterated(text), descriptor_groups()),
    );
    if let Some(d) = parsed {
        lemma_sort_by_key(d, descriptor_key());
    }
}

/// The characteristics of a descriptor are all the `Name: description`
/// matches of its characteristics section, one per match, in order, each
/// with its two parts trimmed.
pub proof fn lemma_descriptor_characteristics(m: Seq<Option<Seq<char>>>)
    ensures
        descriptor_of(m) matches Some(d) ==> ({
            let ms = pattern_captures(CHARACTERISTIC_PATTERN@, grp(m, 2)->0, characteristic_groups());
            &&& grp(m, 2) is Some
            &&& d.characteristics.len() == ms.len()
            &&& forall|i: int|
                0 <= i < ms.len() ==> (#[trigger] d.characteristics[i]).name == trim(grp(ms[i], 0)->0)
                    && d.characteristics[i].description == trim(grp(ms[i], 1)->0)
        }),
{
    if let Some(a) = grp(m, 2) {
        lemma_basics_of(pattern_captures(CHARACTERISTIC_PATTERN@, a, characteristic_groups()));
    }
}

} // verus!
