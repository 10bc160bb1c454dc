//! Artifacts, grouped in the file by setting.

use vstd::prelude::*;
use crate::pattern::{Pattern, pattern_compiles, pattern_captures};
use crate::text::{trim, upper, string_of, trim_string};
use crate::fields::{grp, trimmed, number_or_zero, flattened, group, group_trimmed,
    group_upper_trimmed, group_number_or_zero, flatten_string};
use crate::order::{Named, name_of, sort_by_name, sort_by_key, sorted_by_key, lemma_sort_map,
    lemma_sort_by_key};
use crate::translit::{transliterate, transliterated};
use crate::tables::{RollTable, RollTableView, tables_view, option_tables_of, option_tables};

verus! {

/// The artifacts of one setting: its name, then the artifacts up to `---`.
pub const SETTINGS_PATTERN: &'static str = r"(?m)(?P<name>.*)\s*ARTIFACTS\s*(?P<text>[\s\w\W]*?)\s*---";

/// One artifact: name, level, form, effect, optional option table, depletion.
pub const ARTIFACT_PATTERN: &'static str = r#"(?m)(?P<name>.*)\s*Level:\s*(?P<dice>\d*d\d*)?[\s\+]*(?P<mod>\d*)\s*Form:\s*(?P<form>.*)\s*Effect:\s*(?P<effect>[\s\w\W]*?)(?P<option_table>((?P<named>NAMED\s*)?OPTION TABLE[^\S\r\n]*(?P<option_name>.*)?(\n\s*(?P<option_description>[^\d].*)\s*\n)?(?P<options>[\W\w]*?)))?Depletion:\s*(?P<depletion>.*)"#;

pub struct Artifact {
    pub name: String,
    /// The settings of the artifact, in order, each once.
    pub tags: Vec<String>,
    pub level_dice: Option<String>,
    pub level_mod: usize,
    pub form: String,
    pub depletion: String,
    pub effect: String,
    pub options: Vec<RollTable>,
}

#[verifier::ext_equal]
pub struct ArtifactView {
    pub name: Seq<char>,
    pub tags: Seq<Seq<char>>,
    pub level_dice: Option<Seq<char>>,
    pub level_mod: usize,
    pub form: Seq<char>,
    pub depletion: Seq<char>,
    pub effect: Seq<char>,
    pub options: Seq<RollTableView>,
}

impl View for Artifact {
    type V = ArtifactView;

    open spec fn view(&self) -> ArtifactView {
        ArtifactView {
            name: self.name@,
            tags: self.tags.deep_view(),
            level_dice: self.level_dice.deep_view(),
            level_mod: self.level_mod,
            form: self.form@,
            depletion: self.depletion@,
            effect: self.effect@,
            options: tables_view(self.options@),
        }
    }
}

impl Named for Artifact {
    open spec fn name_key(&self) -> Seq<char> {
        self.name@
    }

    fn name_text(&self) -> (r: &String) {
        &self.name
    }
}

pub open spec fn artifact_view_fn() -> spec_fn(Artifact) -> ArtifactView {
    |a: Artifact| a@
}

pub open spec fn artifact_key() -> spec_fn(ArtifactView) -> Seq<char> {
    |a: ArtifactView| a.name
}

pub open spec fn artifacts_view(v: Seq<Artifact>) -> Seq<ArtifactView> {
    v.map_values(artifact_view_fn())
}

pub open spec fn settings_groups() -> Seq<Seq<char>> {
    seq!["name"@, "text"@]
}

pub open spec fn artifact_groups() -> Seq<Seq<char>> {
    seq![
        "name"@,
        "dice"@,
        "mod"@,
        "form"@,
        "effect"@,
        "option_table"@,
        "option_name"@,
        "option_description"@,
        "options"@,
        "depletion"@,
    ]
}

/// The artifact that a match of `ARTIFACT_PATTERN` describes, with the
/// settings `tags`.
pub open spec fn artifact_of(m: Seq<Option<Seq<char>>>, tags: Seq<Seq<char>>) -> Option<ArtifactView> {
    match (
        grp(m, 0),
        grp(m, 3),
        grp(m, 4),
        option_tables_of(grp(m, 5), grp(m, 6), grp(m, 7), grp(m, 8)),
        grp(m, 9),
    ) {
        (Some(n), Some(f), Some(e), Some(options), Some(d)) => Some(
            ArtifactView {
                name: trim(upper(n)),
                tags: tags,
                level_dice: trimmed(grp(m, 1)),
                level_mod: number_or_zero(grp(m, 2)),
                form: trim(f),
                depletion: trim(d),
                effect: flattened(e),
                options: options,
            },
        ),
        _ => None,
    }
}

/// The artifacts of the matches within one setting.
pub open spec fn artifacts_of_matches(ms: Seq<Seq<Option<Seq<char>>>>, tags: Seq<Seq<char>>) -> Option<
    Seq<ArtifactView>,
>
    decreases ms.len(),
{
    if ms.len() == 0 {
        Some(Seq::<ArtifactView>::empty())
    } else {
        match (artifacts_of_matches(ms.drop_last(), tags), artifact_of(ms.last(), tags)) {
            (Some(p), Some(a)) => Some(p.push(a)),
            _ => None,
        }
    }
}

/// The settings of a setting match: its name, trimmed, where there is one.
pub open spec fn setting_tags(m: Seq<Option<Seq<char>>>) -> Seq<Seq<char>> {
    match grp(m, 0) {
        Some(n) => seq![trim(n)],
        None => Seq::<Seq<char>>::empty(),
    }
}

/// The artifacts of the setting matches, setting after setting.
pub open spec fn artifacts_of_settings(sms: Seq<Seq<Option<Seq<char>>>>) -> Option<Seq<ArtifactView>>
    decreases sms.len(),
{
    if sms.len() == 0 {
        Some(Seq::<ArtifactView>::empty())
    } else {
        match (artifacts_of_settings(sms.drop_last()), grp(sms.last(), 1)) {
            (Some(p), Some(t)) => match artifacts_of_matches(
                pattern_captures(ARTIFACT_PATTERN@, trim(t), artifact_groups()),
                setting_tags(sms.last()),
            ) {
                Some(a) => Some(p + a),
                None => None,
            },
            _ => None,
        }
    }
}

/// The artifacts of the artifacts file (transliterated), in order of name.
pub open spec fn artifacts_of(text: Seq<char>) -> Option<Seq<ArtifactView>> {
    if !(pattern_compiles(SETTINGS_PATTERN@) && pattern_compiles(ARTIFACT_PATTERN@)) {
        None
    } else {
        match artifacts_of_settings(
            pattern_captures(SETTINGS_PATTERN@, transliterated(text), settings_groups()),
        ) {
            Some(a) => Some(sort_by_key(a, artifact_key())),
            None => None,
        }
    }
}

proof fn lemma_matches_none_extends(ms: Seq<Seq<Option<Seq<char>>>>, k: int, tags: Seq<Seq<char>>)
    requires
        0 <= k <= ms.len(),
        artifacts_of_matches(ms.take(k), tags) is None,
    ensures
        artifacts_of_matches(ms, tags) is None,
    decreases ms.len() - k,
{
    if k < ms.len() {
        assert(ms.take(k + 1).drop_last() =~= ms.take(k));
        lemma_matches_none_extends(ms, k + 1, tags);
    } else {
        assert(ms.take(k) =~= ms);
    }
}

proof fn lemma_settings_none_extends(sms: Seq<Seq<Option<Seq<char>>>>, k: int)
    requires
        0 <= k <= sms.len(),
        artifacts_of_settings(sms.take(k)) is None,
    ensures
        artifacts_of_settings(sms) is None,
    decreases sms.len() - k,
{
    if k < sms.len() {
        assert(sms.take(k + 1).drop_last() =~= sms.take(k));
        lemma_settings_none_extends(sms, k + 1);
    } else {
        assert(sms.take(k) =~= sms);
    }
}

fn copy_tags(tags: &Vec<String>) -> (out: Vec<String>)
    ensures
        out.deep_view() == tags.deep_view(),
{
    let mut out: Vec<String> = Vec::new();
    let mut i: usize = 0;
    while i < tags.len()
        invariant
            i <= tags.len(),
            out.deep_view() =~= tags.deep_view().take(i as int),
        decreases tags.len() - i,
    {
        let ghost before = out.deep_view();
        out.push(crate::text::copy_string(&tags[i]));
        assert(out.deep_view() =~= before.push(tags[i as int]@));
        i += 1;
    }
    out
}

/// The artifact that one match of `ARTIFACT_PATTERN` describes, with the settings `tags`.
pub fn artifact_from_match(m: &Vec<Option<String>>, tags: &Vec<String>) -> (out: Option<Artifact>)
    ensures
        match out {
            Some(a) => artifact_of(m.deep_view(), tags.deep_view()) == Some(a@),
            None => artifact_of(m.deep_view(), tags.deep_view()) is None,
        },
{
    let name = match group_upper_trimmed(m, 0) {
        Some(n) => n,
        None => return None,
    };
    let form = match group_trimmed(m, 3) {
        Some(f) => f,
        None => return None,
    };
    let effect = match group(m, 4) {
        Some(e) => flatten_string(&e),
        None => return None,
    };
    let options = match option_tables(m, 5, 6, 7, 8) {
        Some(o) => o,
        None => return None,
    };
    let depletion = match group_trimmed(m, 9) {
        Some(d) => d,
        None => return None,
    };
    Some(
        Artifact {
            name,
            tags: copy_tags(tags),
            level_dice: group_trimmed(m, 1),
            level_mod: group_number_or_zero(m, 2),
            form,
            depletion,
            effect,
            options,
        },
    )
}

/// Reads the artifacts file: for each setting (a match of `SETTINGS_PATTERN`
/// in the transliterated text), the artifacts of its text, tagged with the
/// setting's name; all in order of name.
#[verifier::loop_isolation(false)]
pub fn load_artifacts(text: &str) -> (out: Option<Vec<Artifact>>)
    ensures
        out is Some <==> artifacts_of(text@) is Some,
        out matches Some(v) ==> artifacts_of(text@) == Some(artifacts_view(v@)),
{
    let settings = match Pattern::new(SETTINGS_PATTERN) {
        Some(p) => p,
        None => return None,
    };
    let artifact = match Pattern::new(ARTIFACT_PATTERN) {
        Some(p) => p,
        None => return None,
    };
    let sgroups: &[&str] = &["name", "text"];
    assert(sgroups.deep_view() =~= settings_groups());
    let agroups: &[&str] = &[
        "name",
        "dice",
        "mod",
        "form",
        "effect",
        "option_table",
        "option_name",
        "option_description",
        "options",
        "depletion",
    ];
    assert(agroups.deep_view() =~= artifact_groups());
    let t = transliterate(text);
    let sms = settings.captures(t.as_str(), sgroups);
    let ghost all = sms.deep_view();
    let mut out: Vec<Artifact> = Vec::new();
    let mut i: usize = 0;
    assert(all.take(0) =~= Seq::<Seq<Option<Seq<char>>>>::empty());
    assert(artifacts_view(out@) =~= Seq::<ArtifactView>::empty());
    while i < sms.len()
        invariant
            i <= sms.len() == all.len(),
            all == sms.deep_view(),
            artifacts_of_settings(all.take(i as int)) == Some(artifacts_view(out@)),
        decreases sms.len() - i,
    {
        assert(all.take(i + 1).drop_last() =~= all.take(i as int));
        assert(all.take(i + 1).last() == sms@[i as int].deep_view());
        let ghost sm = sms@[i as int].deep_view();
        let tags: Vec<String> = match group_trimmed(&sms[i], 0) {
            Some(n) => {
                let v = vec![n];
                assert(v.deep_view() =~= seq![v@[0]@]);
                v
            },
            None => {
                let v: Vec<String> = Vec::new();
                assert(v.deep_view() =~= Seq::<Seq<char>>::empty());
                v
            },
        };
        assert(tags.deep_view() == setting_tags(sm));
        let body = match group_trimmed(&sms[i], 1) {
            Some(b) => b,
            None => {
                proof {
                    lemma_settings_none_extends(all, i + 1);
                }
                return None;
            },
        };
        let ams = artifact.captures(body.as_str(), agroups);
        let ghost aall = ams.deep_view();
        let ghost out0 = artifacts_view(out@);
        let mut j: usize = 0;
        assert(aall.take(0) =~= Seq::<Seq<Option<Seq<char>>>>::empty());
        assert(out0 =~= out0 + Seq::<ArtifactView>::empty());
        while j < ams.len()
            invariant
                j <= ams.len() == aall.len(),
                aall == ams.deep_view(),
                artifacts_of_matches(aall.take(j as int), setting_tags(sm)) matches Some(a) && artifacts_view(out@) == out0 + a,
            decreases ams.len() - j,
        {
            assert(aall.take(j + 1).drop_last() =~= aall.take(j as int));
            assert(aall.take(j + 1).last() == ams@[j as int].deep_view());
            let ghost prev = artifacts_of_matches(aall.take(j as int), setting_tags(sm))->0;
            match artifact_from_match(&ams[j], &tags) {
                Some(a) => {
                    let ghost before = out@;
                    out.push(a);
                    assert(artifacts_view(out@) =~= artifacts_view(before).push(out@.last()@));
                    assert(out0 + prev.push(out@.last()@) =~= (out0 + prev).push(out@.last()@));
                },
                None => {
                    proof {
                        lemma_matches_none_extends(aall, j + 1, setting_tags(sm));
                        lemma_settings_none_extends(all, i + 1);
                    }
                    return None;
                },
            }
            j += 1;
        }
        assert(aall.take(aall.len() as int) =~= aall);
        i += 1;
    }
    assert(all.take(all.len() as int) =~= all);
    let sorted = sort_by_name(out);
    proof {
        lemma_sort_map(out@, artifact_view_fn(), name_of::<Artifact>(), artifact_key());
    }
    Some(sorted)
}

/// The artifacts read from a file come in order of name, and they are the
/// artifacts of the file's settings, none lost and none added.
pub proof fn lemma_artifacts_in_order(text: Seq<char>)
    ensures
        artifacts_of(text) is Some ==> sorted_by_key(artifacts_of(text).unwrap(), artifact_key()),
        artifacts_of(text) is Some ==> {
            let parsed = artifacts_of_settings(
                pattern_captures(SETTINGS_PATTERN@, transliterated(text), settings_groups()),
            );
            &&& parsed is Some
            &&& artifacts_of(text).unwrap().to_multiset() == parsed.unwrap().to_multiset()
        },
{
    let parsed = artifacts_of_settings(
        pattern_captures(SETTINGS_PATTERN@, transliterated(text), settings_groups()),
    );
    if let Some(a) = parsed {
        lemma_sort_by_key(a, artifact_key());
    }
}

} // verus!
