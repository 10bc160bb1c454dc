//! Equipment: items by name, each with variants by genre.

use vstd::prelude::*;
use crate::pattern::{Pattern, pattern_compiles, pattern_captures, pattern_split};
use crate::text::{trim, upper, parse_usize, without_char, text_le, text_lt, chars_of, string_of,
    without_char_chars, parse_usize_string, trim_string, upper_string, string_le, string_is,
    lemma_text_le_total, lemma_text_le_antisym, lemma_text_le_trans};
use crate::fields::{grp, semicolon_list, group, group_trimmed, semicolon_pieces};
use crate::order::{set_of, set_insert, string_set_insert, string_set_contains, insert_by_key,
    insert_position, strictly_sorted, lemma_set_of, lemma_set_insert};
use crate::translit::{transliterate, transliterated};

verus! {

/// One category: its tags line, then its items up to `---`.
pub const EQUIPMENT_PATTERN: &'static str = r"(?m)(?:\s*)(?P<tags>(?:[^\n]+))(?P<text>[[:ascii:]]*?)---\s*";

/// One item: `name; level N...; value; description <<notes>>`.
pub const VARIANT_PATTERN: &'static str = r"(?m)(?P<name>.*?);\s*((?i)level\s(?P<level>\d*))[^\n]*?;(?P<value>.*?);(?P<description>[^\n]*?)(?P<notes>(?:<<[^\n]*>>)|$)";

/// What separates the values of an item.
pub const VALUE_SEPARATOR_PATTERN: &'static str = r"(?:\/)|(?: to )";

/// One note of an item.
pub const NOTE_PATTERN: &'static str = r"(?m)\s*<<(?P<note>[^\n]*?)>>\s*";

pub struct EquipmentVariant {
    pub description: String,
    /// In order, each once.
    pub notes: Vec<String>,
    /// In order, each once.
    pub tags: Vec<String>,
    pub value: Vec<String>,
    pub levels: Vec<usize>,
}

pub struct Equipment {
    pub name: String,
    pub variants: Vec<EquipmentVariant>,
}

#[verifier::ext_equal]
pub struct VariantView {
    pub description: Seq<char>,
    pub notes: Seq<Seq<char>>,
    pub tags: Seq<Seq<char>>,
    pub value: Seq<Seq<char>>,
    pub levels: Seq<usize>,
}

#[verifier::ext_equal]
pub struct EquipmentView {
    pub name: Seq<char>,
    pub variants: Seq<VariantView>,
}

impl View for EquipmentVariant {
    type V = VariantView;

    open spec fn view(&self) -> VariantView {
        VariantView {
            description: self.description@,
            notes: self.notes.deep_view(),
            tags: self.tags.deep_view(),
            value: self.value.deep_view(),
            levels: self.levels@,
        }
    }
}

pub open spec fn variants_view(v: Seq<EquipmentVariant>) -> Seq<VariantView> {
    v.map_values(|x: EquipmentVariant| x@)
}

impl View for Equipment {
    type V = EquipmentView;

    open spec fn view(&self) -> EquipmentView {
        EquipmentView { name: self.name@, variants: variants_view(self.variants@) }
    }
}

pub open spec fn equipment_view(v: Seq<Equipment>) -> Seq<EquipmentView> {
    v.map_values(|e: Equipment| e@)
}

pub open spec fn equipment_key() -> spec_fn(EquipmentView) -> Seq<char> {
    |e: EquipmentView| e.name
}

/// All equipment by name (the values of a map from names, in order of name).
pub struct EquipmentCodex {
    pub entries: Vec<Equipment>,
}

impl View for EquipmentCodex {
    type V = Seq<EquipmentView>;

    open spec fn view(&self) -> Seq<EquipmentView> {
        equipment_view(self.entries@)
    }
}

/// Whether the names are in strictly increasing order: one entry per name.
pub open spec fn codex_ordered(c: Seq<EquipmentView>) -> bool {
    forall|i: int, j: int| 0 <= i < j < c.len() ==> text_lt(#[trigger] c[i].name, #[trigger] c[j].name)
}

/// The position of the entry named `name`.
pub open spec fn find_equipment(c: Seq<EquipmentView>, name: Seq<char>) -> Option<int>
    decreases c.len(),
{
    if c.len() == 0 {
        None
    } else {
        match find_equipment(c.drop_last(), name) {
            Some(i) => Some(i),
            None => if c.last().name == name {
                Some(c.len() - 1)
            } else {
                None
            },
        }
    }
}

/// The variants without those tagged `tag`.
pub open spec fn without_tag(vs: Seq<VariantView>, tag: Seq<char>) -> Seq<VariantView>
    decreases vs.len(),
{
    if vs.len() == 0 {
        vs
    } else if vs.last().tags.contains(tag) {
        without_tag(vs.drop_last(), tag)
    } else {
        without_tag(vs.drop_last(), tag).push(vs.last())
    }
}

/// The variants a new variant with tags `tags` replaces are taken out: a
/// contemporary one replaces the modern ones, an advanced or fantastic one
/// the science fiction ones.
pub open spec fn pruned(vs: Seq<VariantView>, tags: Seq<Seq<char>>) -> Seq<VariantView> {
    if tags.contains("CONTEMPORARY"@) {
        without_tag(vs, "MODERN"@)
    } else if tags.contains("ADVANCED"@) || tags.contains("FANTASTIC"@) {
        without_tag(vs, "SCIENCE FICTION"@)
    } else {
        vs
    }
}

/// The codex with the variant `v` of item `name` added.
pub open spec fn codex_add(c: Seq<EquipmentView>, name: Seq<char>, v: VariantView) -> Seq<EquipmentView> {
    match find_equipment(c, name) {
        Some(i) => c.update(
            i,
            EquipmentView { name: c[i].name, variants: pruned(c[i].variants, v.tags).push(v) },
        ),
        None => insert_by_key(c, EquipmentView { name: name, variants: seq![v] }, equipment_key()),
    }
}

/// The tags of a variant: those of its category, with MODERN added to
/// contemporary ones and SCIENCE FICTION to advanced or fantastic ones.
pub open spec fn variant_tags(tags: Seq<Seq<char>>) -> Seq<Seq<char>> {
    if tags.contains("CONTEMPORARY"@) {
        set_insert(tags, "MODERN"@)
    } else if tags.contains("ADVANCED"@) || tags.contains("FANTASTIC"@) {
        set_insert(tags, "SCIENCE FICTION"@)
    } else {
        tags
    }
}

/// The notes of the note matches, trimmed, the empty ones left out.
pub open spec fn notes_of(ms: Seq<Seq<Option<Seq<char>>>>) -> Seq<Seq<char>>
    decreases ms.len(),
{
    if ms.len() == 0 {
        Seq::<Seq<char>>::empty()
    } else {
        let p = notes_of(ms.drop_last());
        match grp(ms.last(), 0) {
            Some(n) => if trim(n).len() > 0 {
                p.push(trim(n))
            } else {
                p
            },
            None => p,
        }
    }
}

pub open spec fn category_groups() -> Seq<Seq<char>> {
    seq!["tags"@, "text"@]
}

pub open spec fn variant_groups() -> Seq<Seq<char>> {
    seq!["name"@, "level"@, "value"@, "description"@, "notes"@]
}

pub open spec fn note_groups() -> Seq<Seq<char>> {
    seq!["note"@]
}

/// The values of an item: the pieces between separators, each trimmed and
/// upper-cased.
pub open spec fn values_of(v: Seq<char>) -> Seq<Seq<char>> {
    pattern_split(VALUE_SEPARATOR_PATTERN@, v).map_values(|s: Seq<char>| upper(trim(s)))
}

/// The name and variant that a match of `VARIANT_PATTERN` in a category with
/// tags `tags` describes; `None` where its level is not a number that fits.
pub open spec fn variant_of(m: Seq<Option<Seq<char>>>, tags: Seq<Seq<char>>) -> Option<
    (Seq<char>, VariantView),
> {
    match (grp(m, 0), grp(m, 1), grp(m, 2), grp(m, 3)) {
        (Some(n), Some(l), Some(v), Some(d)) => match parse_usize(l) {
            None => None,
            Some(level) => Some(
                (
                    trim(n),
                    VariantView {
                        description: trim(d),
                        notes: set_of(
                            notes_of(
                                pattern_captures(
                                    NOTE_PATTERN@,
                                    match grp(m, 4) {
                                        Some(x) => x,
                                        None => Seq::<char>::empty(),
                                    },
                                    note_groups(),
                                ),
                            ),
                        ),
                        tags: variant_tags(tags),
                        value: values_of(v),
                        levels: if level > 0 {
                            seq![level]
                        } else {
                            Seq::<usize>::empty()
                        },
                    },
                ),
            ),
        },
        _ => None,
    }
}

/// The codex, and whether the reading has stopped on an error.
#[verifier::ext_equal]
pub struct CodexState {
    pub codex: Seq<EquipmentView>,
    pub failed: bool,
}

/// Adds the items of one category, stopping at the first that cannot be read.
pub open spec fn items_run(
    ims: Seq<Seq<Option<Seq<char>>>>,
    tags: Seq<Seq<char>>,
    st: CodexState,
) -> CodexState
    decreases ims.len(),
{
    if ims.len() == 0 {
        st
    } else {
        let p = items_run(ims.drop_last(), tags, st);
        if p.failed {
            p
        } else {
            match variant_of(ims.last(), tags) {
                None => CodexState { failed: true, ..p },
                Some((name, v)) => CodexState { codex: codex_add(p.codex, name, v), failed: false },
            }
        }
    }
}

/// The tags of a category: its tag line cut at semicolons, trimmed, as a set.
pub open spec fn category_tags(t: Seq<char>) -> Seq<Seq<char>> {
    set_of(semicolon_list(t))
}

/// Adds the items of the category matches.
pub open spec fn categories_run(cms: Seq<Seq<Option<Seq<char>>>>, st: CodexState) -> CodexState
    decreases cms.len(),
{
    if cms.len() == 0 {
        st
    } else {
        let p = categories_run(cms.drop_last(), st);
        if p.failed {
            p
        } else {
            let m = cms.last();
            match (grp(m, 0), grp(m, 1)) {
                (Some(t), Some(text)) => items_run(
                    pattern_captures(VARIANT_PATTERN@, trim(text), variant_groups()),
                    category_tags(t),
                    p,
                ),
                _ => CodexState { failed: true, ..p },
            }
        }
    }
}

/// The text of an equipment file as the patterns read it.
pub open spec fn equipment_text(text: Seq<char>) -> Seq<char> {
    without_char(transliterated(text), '\r')
}

/// The codex after reading an equipment file into it, and whether the reading
/// went through.
pub open spec fn equipment_result(codex: Seq<EquipmentView>, text: Seq<char>) -> (
    Seq<EquipmentView>,
    bool,
) {
    if !(pattern_compiles(EQUIPMENT_PATTERN@) && pattern_compiles(VARIANT_PATTERN@)
        && pattern_compiles(VALUE_SEPARATOR_PATTERN@) && pattern_compiles(NOTE_PATTERN@)) {
        (codex, false)
    } else {
        let cms = pattern_captures(EQUIPMENT_PATTERN@, equipment_text(text), category_groups());
        if cms.len() == 0 {
            (codex, false)
        } else {
            let st = categories_run(cms, CodexState { codex: codex, failed: false });
            (st.codex, !st.failed)
        }
    }
}

// ----------------------------------------------------------------------------
// Laws of the codex
// ----------------------------------------------------------------------------

proof fn lemma_find_equipment(c: Seq<EquipmentView>, name: Seq<char>)
    ensures
        find_equipment(c, name) matches Some(i) ==> 0 <= i < c.len() && c[i].name == name,
        find_equipment(c, name) is None ==> forall|i: int|
            0 <= i < c.len() ==> (#[trigger] c[i]).name != name,
    decreases c.len(),
{
    if c.len() > 0 {
        lemma_find_equipment(c.drop_last(), name);
        assert forall|i: int| 0 <= i < c.len() - 1 implies c[i] == c.drop_last()[i] by {}
    }
}

proof fn lemma_find_equipment_unique(c: Seq<EquipmentView>, name: Seq<char>, i: int)
    requires
        codex_ordered(c),
        0 <= i < c.len(),
        c[i].name == name,
    ensures
        find_equipment(c, name) == Some(i),
{
    lemma_find_equipment(c, name);
    if let Some(j) = find_equipment(c, name) {
        if j < i {
            assert(text_lt(c[j].name, c[i].name));
        } else if i < j {
            assert(text_lt(c[i].name, c[j].name));
        }
    }
}

proof fn lemma_insert_names(
    c: Seq<EquipmentView>,
    e: EquipmentView,
)
    requires
        codex_ordered(c),
        forall|i: int| 0 <= i < c.len() ==> (#[trigger] c[i]).name != e.name,
    ensures
        codex_ordered(insert_by_key(c, e, equipment_key())),
    decreases c.len(),
{
    let r = insert_by_key(c, e, equipment_key());
    if c.len() == 0 {
    } else if text_le(c.last().name, e.name) {
        assert forall|i: int, j: int| 0 <= i < j < r.len() implies text_lt(
            #[trigger] r[i].name,
            #[trigger] r[j].name,
        ) by {
            if j == c.len() {
                if i < c.len() - 1 {
                    lemma_text_le_trans(c[i].name, c.last().name, e.name);
                }
            }
        }
    } else {
        let d = c.drop_last();
        lemma_insert_names(d, e);
        let q = insert_by_key(d, e, equipment_key());
        lemma_text_le_total(c.last().name, e.name);
        lemma_insert_members(d, e);
        assert forall|i: int, j: int| 0 <= i < j < r.len() implies text_lt(
            #[trigger] r[i].name,
            #[trigger] r[j].name,
        ) by {
            if j == r.len() - 1 {
                assert(r[j] == c.last());
                assert(r[i] == q[i]);
                if q[i] == e {
                } else {
                    let k = choose|k: int| 0 <= k < d.len() && d[k] == q[i];
                    assert(d[k] == c[k]);
                }
            } else {
                assert(r[i] == q[i] && r[j] == q[j]);
            }
        }
    }
}

proof fn lemma_insert_members(c: Seq<EquipmentView>, e: EquipmentView)
    ensures
        forall|i: int|
            0 <= i < insert_by_key(c, e, equipment_key()).len() ==> (#[trigger] insert_by_key(
                c,
                e,
                equipment_key(),
            )[i] == e || exists|k: int| 0 <= k < c.len() && c[k] == insert_by_key(
                c,
                e,
                equipment_key(),
            )[i]),
        insert_by_key(c, e, equipment_key()).len() == c.len() + 1,
    decreases c.len(),
{
    let r = insert_by_key(c, e, equipment_key());
    if c.len() == 0 {
    } else if text_le(c.last().name, e.name) {
        assert forall|i: int| 0 <= i < r.len() implies (#[trigger] r[i] == e || exists|k: int|
            0 <= k < c.len() && c[k] == r[i]) by {
            if i < c.len() {
                assert(c[i] == r[i]);
            }
        }
    } else {
        let d = c.drop_last();
        lemma_insert_members(d, e);
        let q = insert_by_key(d, e, equipment_key());
        assert forall|i: int| 0 <= i < r.len() implies (#[trigger] r[i] == e || exists|k: int|
            0 <= k < c.len() && c[k] == r[i]) by {
            if i == r.len() - 1 {
                assert(c[c.len() - 1] == r[i]);
            } else {
                assert(r[i] == q[i]);
                if q[i] != e {
                    let k = choose|k: int| 0 <= k < d.len() && d[k] == q[i];
                    assert(c[k] == r[i]);
                }
            }
        }
    }
}

/// Adding a variant keeps one entry per name, in order of name.
pub proof fn lemma_codex_add_ordered(c: Seq<EquipmentView>, name: Seq<char>, v: VariantView)
    requires
        codex_ordered(c),
    ensures
        codex_ordered(codex_add(c, name, v)),
{
    lemma_find_equipment(c, name);
    match find_equipment(c, name) {
        Some(i) => {
            let r = codex_add(c, name, v);
            assert forall|a: int, b: int| 0 <= a < b < r.len() implies text_lt(
                #[trigger] r[a].name,
                #[trigger] r[b].name,
            ) by {
                assert(r[a].name == c[a].name && r[b].name == c[b].name);
            }
        },
        None => {
            lemma_insert_names(c, EquipmentView { name: name, variants: seq![v] });
        },
    }
}

/// After adding, the entry of the name holds the variant last.
pub proof fn lemma_codex_add_finds(c: Seq<EquipmentView>, name: Seq<char>, v: VariantView)
    requires
        codex_ordered(c),
    ensures
        ({
            let r = codex_add(c, name, v);
            exists|i: int| 0 <= i < r.len() && r[i].name == name && r[i].variants.len() > 0
                && r[i].variants.last() == v
        }),
{
    lemma_find_equipment(c, name);
    let r = codex_add(c, name, v);
    match find_equipment(c, name) {
        Some(i) => {
            assert(r[i].name == name && r[i].variants.last() == v);
        },
        None => {
            let e = EquipmentView { name: name, variants: seq![v] };
            assert forall|i: int, j: int| 0 <= i < j < c.len() implies text_le(
                (equipment_key())(#[trigger] c[i]),
                (equipment_key())(#[trigger] c[j]),
            ) by {}
            crate::order::lemma_insert_by_key(c, e, equipment_key());
            assert(r.to_multiset().count(e) > 0) by {
                broadcast use vstd::multiset::group_multiset_axioms;
            }
            assert(r.contains(e)) by {
                broadcast use vstd::seq_lib::group_to_multiset_ensures;
            }
            let k = choose|k: int| 0 <= k < r.len() && r[k] == e;
            assert(r[k].variants.last() == v);
        },
    }
}

proof fn lemma_items_ordered(ims: Seq<Seq<Option<Seq<char>>>>, tags: Seq<Seq<char>>, st: CodexState)
    requires
        codex_ordered(st.codex),
    ensures
        codex_ordered(items_run(ims, tags, st).codex),
    decreases ims.len(),
{
    if ims.len() > 0 {
        lemma_items_ordered(ims.drop_last(), tags, st);
        let p = items_run(ims.drop_last(), tags, st);
        if !p.failed {
            match variant_of(ims.last(), tags) {
                Some((name, v)) => lemma_codex_add_ordered(p.codex, name, v),
                None => {},
            }
        }
    }
}

proof fn lemma_categories_ordered(cms: Seq<Seq<Option<Seq<char>>>>, st: CodexState)
    requires
        codex_ordered(st.codex),
    ensures
        codex_ordered(categories_run(cms, st).codex),
    decreases cms.len(),
{
    if cms.len() > 0 {
        lemma_categories_ordered(cms.drop_last(), st);
        let p = categories_run(cms.drop_last(), st);
        if !p.failed {
            let m = cms.last();
            match (grp(m, 0), grp(m, 1)) {
                (Some(t), Some(text)) => lemma_items_ordered(
                    pattern_captures(VARIANT_PATTERN@, trim(text), variant_groups()),
                    category_tags(t),
                    p,
                ),
                _ => {},
            }
        }
    }
}

/// Reading an equipment file keeps one entry per name, in order of name.
pub proof fn lemma_equipment_ordered(codex: Seq<EquipmentView>, text: Seq<char>)
    requires
        codex_ordered(codex),
    ensures
        codex_ordered(equipment_result(codex, text).0),
{
    if pattern_compiles(EQUIPMENT_PATTERN@) && pattern_compiles(VARIANT_PATTERN@)
        && pattern_compiles(VALUE_SEPARATOR_PATTERN@) && pattern_compiles(NOTE_PATTERN@) {
        let cms = pattern_captures(EQUIPMENT_PATTERN@, equipment_text(text), category_groups());
        lemma_categories_ordered(cms, CodexState { codex: codex, failed: false });
    }
}

/// The tags of a variant are those of its category, as an ordered set, with
/// MODERN added where the category is contemporary and, where it is not,
/// SCIENCE FICTION where it is advanced or fantastic.
pub proof fn lemma_variant_tags(t: Seq<char>)
    ensures
        strictly_sorted(variant_tags(category_tags(t))),
        category_tags(t).to_set().subset_of(variant_tags(category_tags(t)).to_set()),
        category_tags(t).contains("CONTEMPORARY"@) ==> variant_tags(category_tags(t)).contains(
            "MODERN"@,
        ),
        !category_tags(t).contains("CONTEMPORARY"@) && (category_tags(t).contains("ADVANCED"@)
            || category_tags(t).contains("FANTASTIC"@)) ==> variant_tags(category_tags(t)).contains(
            "SCIENCE FICTION"@,
        ),
{
    let c = category_tags(t);
    lemma_set_of(semicolon_list(t));
    if c.contains("CONTEMPORARY"@) {
        lemma_set_insert(c, "MODERN"@);
        assert(variant_tags(c).to_set().contains("MODERN"@));
    } else if c.contains("ADVANCED"@) || c.contains("FANTASTIC"@) {
        lemma_set_insert(c, "SCIENCE FICTION"@);
        assert(variant_tags(c).to_set().contains("SCIENCE FICTION"@));
    }
}

proof fn lemma_without_tag(vs: Seq<VariantView>, tag: Seq<char>)
    ensures
        forall|j: int|
            0 <= j < without_tag(vs, tag).len() ==> !(#[trigger] without_tag(vs, tag)[j]).tags.contains(
                tag,
            ),
    decreases vs.len(),
{
    if vs.len() > 0 {
        lemma_without_tag(vs.drop_last(), tag);
        let p = without_tag(vs.drop_last(), tag);
        if !vs.last().tags.contains(tag) {
            assert forall|j: int| 0 <= j < p.len() + 1 implies !(#[trigger] p.push(
                vs.last(),
            )[j]).tags.contains(tag) by {
                if j < p.len() {
                    assert(p.push(vs.last())[j] == p[j]);
                }
            }
        }
    }
}

/// Adding a contemporary variant takes out the modern variants held before
/// it, and adding an advanced or fantastic one the science fiction ones; the
/// added variant comes last.
pub proof fn lemma_codex_add_prunes(c: Seq<EquipmentView>, name: Seq<char>, v: VariantView)
    requires
        codex_ordered(c),
    ensures
        find_equipment(codex_add(c, name, v), name) is Some,
        ({
            let e = codex_add(c, name, v)[find_equipment(codex_add(c, name, v), name).unwrap()];
            &&& e.name == name
            &&& e.variants.len() > 0
            &&& e.variants.last() == v
            &&& v.tags.contains("CONTEMPORARY"@) ==> forall|j: int|
                0 <= j < e.variants.len() - 1 ==> !(#[trigger] e.variants[j]).tags.contains(
                    "MODERN"@,
                )
            &&& !v.tags.contains("CONTEMPORARY"@) && (v.tags.contains("ADVANCED"@)
                || v.tags.contains("FANTASTIC"@)) ==> forall|j: int|
                0 <= j < e.variants.len() - 1 ==> !(#[trigger] e.variants[j]).tags.contains(
                    "SCIENCE FICTION"@,
                )
        }),
{
    lemma_find_equipment(c, name);
    lemma_codex_add_ordered(c, name, v);
    let r = codex_add(c, name, v);
    match find_equipment(c, name) {
        Some(i) => {
            lemma_find_equipment(r, name);
            lemma_find_equipment_unique(r, name, i);
            let old_vs = c[i].variants;
            lemma_without_tag(old_vs, "MODERN"@);
            lemma_without_tag(old_vs, "SCIENCE FICTION"@);
            let e = r[i];
            assert(e.variants.drop_last() == pruned(old_vs, v.tags));
            assert forall|j: int| 0 <= j < e.variants.len() - 1 implies e.variants[j]
                == pruned(old_vs, v.tags)[j] by {}
        },
        None => {
            lemma_codex_add_finds(c, name, v);
            let k = choose|k: int|
                0 <= k < r.len() && r[k].name == name && r[k].variants.len() > 0
                    && r[k].variants.last() == v;
            lemma_find_equipment(r, name);
            lemma_find_equipment_unique(r, name, k);
            let e = EquipmentView { name: name, variants: seq![v] };
            assert forall|i: int, j: int| 0 <= i < j < c.len() implies text_le(
                (equipment_key())(#[trigger] c[i]),
                (equipment_key())(#[trigger] c[j]),
            ) by {}
            crate::order::lemma_insert_by_key(c, e, equipment_key());
            assert(r[k] == e) by {
                if r[k] != e {
                    assert(r.to_multiset().count(r[k]) > 0) by {
                        broadcast use vstd::seq_lib::group_to_multiset_ensures;

                        assert(r.contains(r[k]));
                    }
                    assert(c.to_multiset().count(r[k]) > 0) by {
                        broadcast use vstd::multiset::group_multiset_axioms;
                    }
                    assert(c.contains(r[k])) by {
                        broadcast use vstd::seq_lib::group_to_multiset_ensures;
                    }
                }
            }
        },
    }
}

// ----------------------------------------------------------------------------
// Executable code
// ----------------------------------------------------------------------------

proof fn lemma_items_failed_stays(
    ims: Seq<Seq<Option<Seq<char>>>>,
    k: int,
    tags: Seq<Seq<char>>,
    st: CodexState,
)
    requires
        0 <= k <= ims.len(),
        items_run(ims.take(k), tags, st).failed,
    ensures
        items_run(ims, tags, st) == items_run(ims.take(k), tags, st),
    decreases ims.len() - k,
{
    if k < ims.len() {
        assert(ims.take(k + 1).drop_last() =~= ims.take(k));
        lemma_items_failed_stays(ims, k + 1, tags, st);
    } else {
        assert(ims.take(k) =~= ims);
    }
}

proof fn lemma_categories_failed_stays(cms: Seq<Seq<Option<Seq<char>>>>, k: int, st: CodexState)
    requires
        0 <= k <= cms.len(),
        categories_run(cms.take(k), st).failed,
    ensures
        categories_run(cms, st) == categories_run(cms.take(k), st),
    decreases cms.len() - k,
{
    if k < cms.len() {
        assert(cms.take(k + 1).drop_last() =~= cms.take(k));
        lemma_categories_failed_stays(cms, k + 1, st);
    } else {
        assert(cms.take(k) =~= cms);
    }
}

/// The ordered set of a list of strings.
pub fn string_set_of(v: Vec<String>) -> (out: Vec<String>)
    ensures
        out.deep_view() == set_of(v.deep_view()),
{
    let ghost all = v.deep_view();
    let mut out: Vec<String> = Vec::new();
    let mut i: usize = 0;
    assert(all.take(0) =~= Seq::<Seq<char>>::empty());
    assert(out.deep_view() =~= Seq::<Seq<char>>::empty());
    while i < v.len()
        invariant
            i <= v.len(),
            all == v.deep_view(),
            out.deep_view() == set_of(all.take(i as int)),
        decreases v.len() - i,
    {
        assert(all.take(i + 1).drop_last() =~= all.take(i as int));
        assert(all.take(i + 1).last() == v@[i as int]@);
        string_set_insert(&mut out, crate::text::copy_string(&v[i]));
        i += 1;
    }
    assert(all.take(all.len() as int) =~= all);
    out
}

fn copy_set(v: &Vec<String>) -> (out: Vec<String>)
    ensures
        out.deep_view() == v.deep_view(),
{
    let mut out: Vec<String> = Vec::new();
    let mut i: usize = 0;
    while i < v.len()
        invariant
            i <= v.len(),
            out.deep_view() =~= v.deep_view().take(i as int),
        decreases v.len() - i,
    {
        let ghost before = out.deep_view();
        out.push(crate::text::copy_string(&v[i]));
        assert(out.deep_view() =~= before.push(v[i as int]@));
        i += 1;
    }
    out
}

/// The tags of a variant made from the category tags.
fn variant_tags_exec(tags: &Vec<String>) -> (out: Vec<String>)
    ensures
        out.deep_view() == variant_tags(tags.deep_view()),
{
    let mut t = copy_set(tags);
    if string_set_contains(&t, "CONTEMPORARY") {
        string_set_insert(&mut t, String::from_str("MODERN"));
    } else if string_set_contains(&t, "ADVANCED") || string_set_contains(&t, "FANTASTIC") {
        string_set_insert(&mut t, String::from_str("SCIENCE FICTION"));
    }
    t
}

/// The notes of the note matches.
fn notes_exec(ms: &Vec<Vec<Option<String>>>) -> (out: Vec<String>)
    ensures
        out.deep_view() == notes_of(ms.deep_view()),
{
    let ghost all = ms.deep_view();
    let mut out: Vec<String> = Vec::new();
    let mut i: usize = 0;
    assert(all.take(0) =~= Seq::<Seq<Option<Seq<char>>>>::empty());
    assert(out.deep_view() =~= Seq::<Seq<char>>::empty());
    while i < ms.len()
        invariant
            i <= ms.len() == all.len(),
            all == ms.deep_view(),
            out.deep_view() == notes_of(all.take(i as int)),
        decreases ms.len() - i,
    {
        assert(all.take(i + 1).drop_last() =~= all.take(i as int));
        assert(all.take(i + 1).last() == ms@[i as int].deep_view());
        match group_trimmed(&ms[i], 0) {
            Some(n) => {
                if n.as_str().unicode_len() > 0 {
                    let ghost before = out.deep_view();
                    out.push(n);
                    assert(out.deep_view() =~= before.push(out@.last()@));
                }
            },
            None => {},
        }
        i += 1;
    }
    assert(all.take(all.len() as int) =~= all);
    out
}

/// The values of an item.
fn values_exec(v: &String, separator: &Pattern) -> (out: Vec<String>)
    requires
        separator.source() == VALUE_SEPARATOR_PATTERN@,
    ensures
        out.deep_view() == values_of(v@),
{
    let pieces = separator.split(v.as_str());
    let mut out: Vec<String> = Vec::new();
    let mut i: usize = 0;
    while i < pieces.len()
        invariant
            i <= pieces.len(),
            pieces.deep_view() == pattern_split(VALUE_SEPARATOR_PATTERN@, v@),
            out.deep_view() =~= pieces.deep_view().take(i as int).map_values(
                |s: Seq<char>| upper(trim(s)),
            ),
        decreases pieces.len() - i,
    {
        let t = trim_string(&pieces[i]);
        let u = upper_string(&t);
        let ghost before = out.deep_view();
        out.push(u);
        assert(out.deep_view() =~= before.push(upper(trim(pieces[i as int]@))));
        i += 1;
    }
    out
}

/// The name and variant that one match of `VARIANT_PATTERN` in a category
/// with tags `tags` describes; `None` also where the patterns it reads the
/// match with do not compile.
pub fn variant_from_match(m: &Vec<Option<String>>, tags: &Vec<String>) -> (out: Option<
    (String, EquipmentVariant),
>)
    ensures
        pattern_compiles(VALUE_SEPARATOR_PATTERN@) && pattern_compiles(NOTE_PATTERN@) ==> (
            match out {
                Some((n, v)) => variant_of(m.deep_view(), tags.deep_view()) == Some((n@, v@)),
                None => variant_of(m.deep_view(), tags.deep_view()) is None,
            }),
        !(pattern_compiles(VALUE_SEPARATOR_PATTERN@) && pattern_compiles(NOTE_PATTERN@)) ==> out is None,
{
    let separator = match Pattern::new(VALUE_SEPARATOR_PATTERN) {
        Some(p) => p,
        None => return None,
    };
    let note = match Pattern::new(NOTE_PATTERN) {
        Some(p) => p,
        None => return None,
    };
    variant_with(m, tags, &separator, &note)
}

/// The name and variant of a match, read with the given separator and note patterns.
fn variant_with(
    m: &Vec<Option<String>>,
    tags: &Vec<String>,
    separator: &Pattern,
    note: &Pattern,
) -> (out: Option<(String, EquipmentVariant)>)
    requires
        separator.source() == VALUE_SEPARATOR_PATTERN@,
        note.source() == NOTE_PATTERN@,
    ensures
        match out {
            Some((n, v)) => variant_of(m.deep_view(), tags.deep_view()) == Some((n@, v@)),
            None => variant_of(m.deep_view(), tags.deep_view()) is None,
        },
{
    let (n, l, v, d) = match (group_trimmed(m, 0), group(m, 1), group(m, 2), group_trimmed(m, 3)) {
        (Some(n), Some(l), Some(v), Some(d)) => (n, l, v, d),
        _ => return None,
    };
    let level = match parse_usize_string(&l) {
        Some(level) => level,
        None => return None,
    };
    let notes_text = match group(m, 4) {
        Some(x) => x,
        None => String::new(),
    };
    let groups: &[&str] = &["note"];
    assert(groups.deep_view() =~= note_groups());
    let nms = note.captures(notes_text.as_str(), groups);
    let notes = string_set_of(notes_exec(&nms));
    let value = values_exec(&v, separator);
    let mut levels: Vec<usize> = Vec::new();
    if level > 0 {
        levels.push(level);
    }
    assert(levels@ =~= (if level > 0 {
        seq![level]
    } else {
        Seq::<usize>::empty()
    }));
    let variant = EquipmentVariant {
        description: d,
        notes,
        tags: variant_tags_exec(tags),
        value,
        levels,
    };
    Some((n, variant))
}

/// The variants without those tagged `tag`.
fn without_tag_exec(vs: Vec<EquipmentVariant>, tag: &str) -> (out: Vec<EquipmentVariant>)
    ensures
        variants_view(out@) == without_tag(variants_view(vs@), tag@),
{
    let ghost all = variants_view(vs@);
    let mut rest = vs;
    let mut out: Vec<EquipmentVariant> = Vec::new();
    let mut k: usize = 0;
    assert(all.take(0) =~= Seq::<VariantView>::empty());
    assert(variants_view(out@) =~= Seq::<VariantView>::empty());
    assert(variants_view(rest@) =~= all.skip(0));
    assert(all.len() == rest.len());
    while rest.len() > 0
        invariant
            k + rest@.len() == all.len(),
            all.len() <= usize::MAX,
            variants_view(rest@) == all.skip(k as int),
            variants_view(out@) == without_tag(all.take(k as int), tag@),
        decreases rest.len(),
    {
        let ghost r0 = rest@;
        let x = rest.remove(0);
        assert(rest@ =~= r0.drop_first());
        assert(variants_view(rest@) =~= variants_view(r0).drop_first());
        assert(all.take(k + 1).drop_last() =~= all.take(k as int));
        assert(all.skip(k as int)[0] == x@);
        assert(all.take(k + 1).last() == x@);
        assert(all.skip(k as int).drop_first() =~= all.skip(k + 1));
        if !string_set_contains(&x.tags, tag) {
            let ghost before = variants_view(out@);
            let ghost xv = x@;
            out.push(x);
            assert(variants_view(out@) =~= before.push(xv));
        }
        k += 1;
    }
    assert(all.take(k as int) =~= all);
    out
}

impl EquipmentCodex {
    pub fn new() -> (c: EquipmentCodex)
        ensures
            c@ == Seq::<EquipmentView>::empty(),
            codex_ordered(c@),
    {
        let c = EquipmentCodex { entries: Vec::new() };
        assert(c@ =~= Seq::<EquipmentView>::empty());
        c
    }

    /// The position of the entry named `name`.
    fn find(&self, name: &String) -> (out: Option<usize>)
        ensures
            match out {
                Some(i) => find_equipment(self@, name@) == Some(i as int) && i < self.entries.len(),
                None => find_equipment(self@, name@) is None,
            },
    {
        let mut i: usize = 0;
        assert(self@.take(0) =~= Seq::<EquipmentView>::empty());
        while i < self.entries.len()
            invariant
                i <= self.entries.len(),
                find_equipment(self@.take(i as int), name@) is None,
            decreases self.entries.len() - i,
        {
            assert(self@.take(i + 1).drop_last() =~= self@.take(i as int));
            assert(self@.take(i + 1).last() == self.entries@[i as int]@);
            if string_is(&self.entries[i].name, name.as_str()) {
                proof {
                    lemma_find_prefix(self@, i + 1, name@);
                }
                return Some(i);
            }
            i += 1;
        }
        assert(self@.take(i as int) =~= self@);
        None
    }

    /// Adds the variant `v` of the item `name`.
    pub fn add(&mut self, name: String, v: EquipmentVariant)
        ensures
            final(self)@ == codex_add(old(self)@, name@, v@),
            codex_ordered(old(self)@) ==> codex_ordered(final(self)@),
    {
        proof {
            if codex_ordered(self@) {
                lemma_codex_add_ordered(self@, name@, v@);
            }
        }
        let ghost vv = v@;
        match self.find(&name) {
            Some(i) => {
                let e = self.entries.remove(i);
                let ghost ev = e@;
                let tags = copy_set(&v.tags);
                let mut variants = if string_set_contains(&tags, "CONTEMPORARY") {
                    without_tag_exec(e.variants, "MODERN")
                } else if string_set_contains(&tags, "ADVANCED") || string_set_contains(
                    &tags,
                    "FANTASTIC",
                ) {
                    without_tag_exec(e.variants, "SCIENCE FICTION")
                } else {
                    e.variants
                };
                assert(variants_view(variants@) == pruned(ev.variants, vv.tags));
                let ghost before = variants_view(variants@);
                variants.push(v);
                assert(variants_view(variants@) =~= before.push(vv));
                let ne = Equipment { name: e.name, variants };
                let ghost nev = ne@;
                self.entries.insert(i, ne);
                assert(self@ =~= old(self)@.update(i as int, nev));
            },
            None => {
                let ghost e = EquipmentView { name: name@, variants: seq![vv] };
                let mut j: usize = self.entries.len();
                assert(self@.take(j as int) =~= self@);
                while j > 0 && !string_le(&self.entries[j - 1].name, &name)
                    invariant
                        j <= self.entries.len(),
                        e == (EquipmentView { name: name@, variants: seq![vv] }),
                        insert_position(self@, e, equipment_key()) == insert_position(
                            self@.take(j as int),
                            e,
                            equipment_key(),
                        ),
                    decreases j,
                {
                    assert(self@.take(j as int).drop_last() =~= self@.take(j - 1));
                    assert(self@.take(j as int).last() == self.entries@[j - 1]@);
                    j -= 1;
                }
                proof {
                    if j > 0 {
                        assert(self@.take(j as int).last() == self.entries@[j - 1]@);
                    }
                    crate::order::lemma_insert_shape(self@, e, equipment_key());
                }
                let mut variants: Vec<EquipmentVariant> = Vec::new();
                variants.push(v);
                assert(variants_view(variants@) =~= seq![vv]);
                let ne = Equipment { name, variants };
                let ghost before = self@;
                self.entries.insert(j, ne);
                assert(self@ =~= before.take(j as int).push(e) + before.skip(j as int));
            },
        }
    }

    /// The equipment in order of name.
    pub fn into_values(self) -> (out: Vec<Equipment>)
        ensures
            equipment_view(out@) == self@,
    {
        self.entries
    }
}

proof fn lemma_find_prefix(s: Seq<EquipmentView>, j: int, k: Seq<char>)
    requires
        0 <= j <= s.len(),
        find_equipment(s.take(j), k) is Some,
    ensures
        find_equipment(s, k) == find_equipment(s.take(j), k),
    decreases s.len() - j,
{
    if j < s.len() {
        assert(s.take(j + 1).drop_last() =~= s.take(j));
        lemma_find_prefix(s, j + 1, k);
    } else {
        assert(s.take(j) =~= s);
    }
}

/// Reads an equipment file into `codex`: for each category (a match of
/// `EQUIPMENT_PATTERN` in the transliterated text without carriage returns),
/// each of its items is added as a variant. `false` where the file cannot be read through
/// (no category, an unreadable level), and then `codex` holds what was added
/// before that item.
#[verifier::loop_isolation(false)]
pub fn load_equipment(text: &str, codex: &mut EquipmentCodex) -> (done: bool)
    ensures
        final(codex)@ == equipment_result(old(codex)@, text@).0,
        done == equipment_result(old(codex)@, text@).1,
        codex_ordered(old(codex)@) ==> codex_ordered(final(codex)@),
{
    proof {
        if codex_ordered(codex@) {
            lemma_equipment_ordered(codex@, text@);
        }
    }
    let category = match Pattern::new(EQUIPMENT_PATTERN) {
        Some(p) => p,
        None => return false,
    };
    let variant = match Pattern::new(VARIANT_PATTERN) {
        Some(p) => p,
        None => return false,
    };
    let separator = match Pattern::new(VALUE_SEPARATOR_PATTERN) {
        Some(p) => p,
        None => return false,
    };
    let note = match Pattern::new(NOTE_PATTERN) {
        Some(p) => p,
        None => return false,
    };
    let cgroups: &[&str] = &["tags", "text"];
    assert(cgroups.deep_view() =~= category_groups());
    let vgroups: &[&str] = &["name", "level", "value", "description", "notes"];
    assert(vgroups.deep_view() =~= variant_groups());
    let raw = transliterate(text);
    let clean = string_of(&without_char_chars(&chars_of(raw.as_str()), '\r'));
    let cms = category.captures(clean.as_str(), cgroups);
    if cms.len() == 0 {
        return false;
    }
    let ghost all = cms.deep_view();
    let ghost st0 = CodexState { codex: old(codex)@, failed: false };
    let mut i: usize = 0;
    assert(all.take(0) =~= Seq::<Seq<Option<Seq<char>>>>::empty());
    while i < cms.len()
        invariant
            i <= cms.len() == all.len(),
            categories_run(all.take(i as int), st0) == (CodexState { codex: codex@, failed: false }),
        decreases cms.len() - i,
    {
        assert(all.take(i + 1).drop_last() =~= all.take(i as int));
        assert(all.take(i + 1).last() == cms@[i as int].deep_view());
        let ghost cm = cms@[i as int].deep_view();
        let (t, body) = match (group(&cms[i], 0), group_trimmed(&cms[i], 1)) {
            (Some(t), Some(b)) => (t, b),
            _ => {
                proof {
                    lemma_categories_failed_stays(all, i + 1, st0);
                }
                return false;
            },
        };
        let tags = string_set_of(semicolon_pieces(&t));
        let ims = variant.captures(body.as_str(), vgroups);
        let ghost iall = ims.deep_view();
        let ghost sti = CodexState { codex: codex@, failed: false };
        let mut j: usize = 0;
        assert(iall.take(0) =~= Seq::<Seq<Option<Seq<char>>>>::empty());
        while j < ims.len()
            invariant
                j <= ims.len() == iall.len(),
                items_run(iall.take(j as int), tags.deep_view(), sti) == (CodexState {
                    codex: codex@,
                    failed: false,
                }),
            decreases ims.len() - j,
        {
            assert(iall.take(j + 1).drop_last() =~= iall.take(j as int));
            assert(iall.take(j + 1).last() == ims@[j as int].deep_view());
            match variant_with(&ims[j], &tags, &separator, &note) {
                Some((n, v)) => {
                    codex.add(n, v);
                },
                None => {
                    proof {
                        lemma_items_failed_stays(iall, j + 1, tags.deep_view(), sti);
                        assert(iall.take(iall.len() as int) =~= iall);
                        lemma_categories_failed_stays(all, i + 1, st0);
                    }
                    return false;
                },
            }
            j += 1;
        }
        assert(iall.take(iall.len() as int) =~= iall);
        i += 1;
    }
    assert(all.take(all.len() as int) =~= all);
    true
}

} // verus!
