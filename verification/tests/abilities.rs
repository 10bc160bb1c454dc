use csrd::ability::{ability_from_match, load_abilities, AbilityMap};
use csrd::flavor::load_flavors;
use csrd::focus::load_foci;
use csrd::text::chars_of;
use csrd::types::load_types;

const ABILITIES: &str = "Bash (1 Might point): You hit hard.\n\
Quick Step (2+ Speed points): Move fast.\n\
Mind Blast (3 Intellect points + 1 XP): Zap.\n\
Plain: No cost here.\n\
\n\
Not an ability line\n";

const TIERS: &str = "# Combat\nLow Tier:\nBash\nMid Tier:\nQuick Step\n# Mind\nHigh Tier:\nMind Blast\n";

fn abilities() -> AbilityMap {
    load_abilities(ABILITIES, TIERS).unwrap()
}

fn find<'a>(map: &'a AbilityMap, key: &str) -> &'a csrd::ability::Ability {
    let i = map.find(&chars_of(key)).unwrap();
    &map.entries[i]
}

#[test]
fn abilities_read_costs_pools_and_tiers() {
    let map = abilities();
    assert_eq!(map.entries.len(), 4);
    let bash = find(&map, "BASH");
    assert_eq!(bash.name, "Bash");
    assert_eq!(bash.cost, Some(1));
    assert_eq!(bash.pool, vec!["Might"]);
    assert_eq!(bash.cost_rendered, "1 Might point");
    assert_eq!(bash.description, "You hit hard.");
    assert_eq!(bash.tier.as_deref(), Some("Low"));
    assert_eq!(bash.category, vec!["Combat"]);
    let quick = find(&map, "QUICK STEP");
    assert_eq!(quick.cost, Some(2));
    assert_eq!(quick.additional_cost.as_deref(), Some("+"));
    assert_eq!(quick.pool, vec!["Speed"]);
    assert_eq!(quick.tier.as_deref(), Some("Mid"));
    let blast = find(&map, "MIND BLAST");
    assert_eq!(blast.additional_cost.as_deref(), Some("1 XP"));
    assert_eq!(blast.cost_rendered, "3 Intellect points + 1 XP");
    assert_eq!(blast.category, vec!["Mind"]);
    assert_eq!(blast.tier.as_deref(), Some("High"));
    let plain = find(&map, "PLAIN");
    assert_eq!(plain.cost, None);
    assert!(plain.pool.is_empty());
    assert_eq!(plain.cost_rendered, "");
    assert_eq!(plain.tier, None);
}

#[test]
fn a_later_ability_of_the_same_name_replaces_the_earlier() {
    let map = load_abilities("Bash: first\nBASH: second\n", "").unwrap();
    assert_eq!(map.entries.len(), 1);
    assert_eq!(map.entries[0].description, "second");
    assert_eq!(map.entries[0].name, "BASH");
}

#[test]
fn tiers_file_errors() {
    assert!(load_abilities(ABILITIES, "#Combat\nBash\n").is_none());
    assert!(load_abilities(ABILITIES, "# Combat\nLow Tier:\nUnknown Power\n").is_none());
    assert!(load_abilities("Bash ( Might point): x\n", "").is_none());
}

#[test]
fn tier_lines_of_one_byte_are_skipped() {
    let map = load_abilities(ABILITIES, "# Combat\nx\nLow Tier:\nBash\n").unwrap();
    assert_eq!(find(&map, "BASH").tier.as_deref(), Some("Low"));
}

#[test]
fn ability_from_groups() {
    let m = vec![
        Some(" Leap ".to_string()),
        Some("(2 Might, Speed points)".to_string()),
        Some("2".to_string()),
        None,
        Some("Might, Speed".to_string()),
        None,
        Some(" Jump far. ".to_string()),
    ];
    let a = ability_from_match(&m).unwrap();
    assert_eq!(a.name, "Leap");
    assert_eq!(a.pool, vec!["Might", "Speed"]);
    assert_eq!(a.cost_rendered, "2 Might, Speed points");
    assert_eq!(a.description, "Jump far.");
    assert!(a.references.is_empty());
}

#[test]
fn ability_references_are_a_set() {
    let mut map = abilities();
    let key = chars_of("BASH");
    assert!(map.add_reference(&key, &"WARRIOR".to_string()));
    assert!(map.add_reference(&key, &"ADEPT".to_string()));
    assert!(map.add_reference(&key, &"WARRIOR".to_string()));
    assert!(!map.add_reference(&chars_of("NOPE"), &"X".to_string()));
    assert_eq!(find(&map, "BASH").references, vec!["ADEPT", "WARRIOR"]);
}

#[test]
fn sorted_abilities() {
    let sorted = abilities().into_sorted();
    let names: Vec<&str> = sorted.iter().map(|a| a.name.as_str()).collect();
    assert_eq!(names, vec!["Bash", "Mind Blast", "Plain", "Quick Step"]);
}

const FLAVORS: &str = "COMBAT FLAVOR Fighting well.\n1-TIER COMBAT ABILITIES\nBash\n\nSTEALTH FLAVOR Sneaky.\n2-TIER STEALTH ABILITIES\nQuick Step\n";

#[test]
fn flavors_collect_abilities_by_tier() {
    let mut map = abilities();
    let flavors = load_flavors(&mut map, FLAVORS).unwrap();
    assert_eq!(flavors.len(), 2);
    assert_eq!(flavors[0].name, "COMBAT FLAVOR");
    assert_eq!(flavors[0].description, "Fighting well.");
    assert_eq!(flavors[0].abilities.len(), 1);
    assert_eq!(flavors[0].abilities[0].name, "Bash");
    assert_eq!(flavors[0].abilities[0].tier, 1);
    assert!(!flavors[0].abilities[0].preselected);
    assert_eq!(flavors[1].name, "STEALTH FLAVOR");
    assert_eq!(flavors[1].abilities[0].tier, 2);
    assert_eq!(find(&map, "BASH").references, vec!["COMBAT FLAVOR"]);
    assert_eq!(find(&map, "QUICK STEP").references, vec!["STEALTH FLAVOR"]);
}

#[test]
fn flavors_sorted_by_name() {
    let mut map = abilities();
    let text = "STEALTH FLAVOR Sneaky.\n1-TIER STEALTH ABILITIES\nBash\nCOMBAT FLAVOR Brave.\n";
    let flavors = load_flavors(&mut map, text).unwrap();
    let names: Vec<&str> = flavors.iter().map(|f| f.name.as_str()).collect();
    assert_eq!(names, vec!["COMBAT FLAVOR", "STEALTH FLAVOR"]);
    assert!(flavors[0].abilities.is_empty());
}

#[test]
fn flavor_errors() {
    let mut map = abilities();
    assert!(load_flavors(&mut map, "").is_none());
    let mut map = abilities();
    assert!(load_flavors(&mut map, "COMBAT FLAVOR x\n1-TIER COMBAT ABILITIES\nUnknown\n").is_none());
    let mut map = abilities();
    assert!(load_flavors(&mut map, "1-TIER COMBAT ABILITIES\nBash\n").is_none());
}

const FOCI: &str = "Bears A Halo Of Fire\nYou burn.\nMinor Effect Suggestion: Target catches fire.\nTier 1: Bash\nTier 2: Quick Step or Mind Blast\nGM Intrusions: Fire spreads.\n\n";

#[test]
fn foci_read_tiers_effects_and_intrusions() {
    let mut map = abilities();
    let foci = load_foci(&mut map, FOCI).unwrap();
    assert_eq!(foci.len(), 1);
    let f = &foci[0];
    assert_eq!(f.name, "BEARS A HALO OF FIRE");
    assert_eq!(f.description, "You burn.");
    assert_eq!(f.minor_effect.as_deref(), Some("Target catches fire."));
    assert_eq!(f.major_effect, None);
    assert_eq!(f.intrusions.as_deref(), Some("Fire spreads."));
    let got: Vec<(&str, usize, bool)> =
        f.abilities.iter().map(|a| (a.name.as_str(), a.tier, a.preselected)).collect();
    assert_eq!(got, vec![("Bash", 1, true), ("Quick Step", 2, false), ("Mind Blast", 2, false)]);
    assert_eq!(find(&map, "MIND BLAST").references, vec!["BEARS A HALO OF FIRE"]);
}

#[test]
fn foci_need_a_focus() {
    let mut map = abilities();
    assert!(load_foci(&mut map, "nothing\n").is_none());
}

const TYPES: &str = "Warrior\nPLAYER INTRUSIONS\nPerfect Shot: You hit.\nSTAT POOLS\nMight 10\nSpeed 9\nIntellect 8\nBACKGROUND\n1-2 Soldier\n3 Brawler\nABILITIES\nEffort: You have effort.\n1-TIER Choose 1 of the abilities below.\nBash\nQuick Step\n\n---\n";

#[test]
fn types_read_pools_background_and_specials() {
    let mut map = abilities();
    let types = load_types(&mut map, TYPES).unwrap();
    assert_eq!(types.len(), 1);
    let t = &types[0];
    assert_eq!(t.name, "WARRIOR");
    assert_eq!((t.stat_pool.might, t.stat_pool.speed, t.stat_pool.intellect), (10, 9, 8));
    assert_eq!(t.intrusions.len(), 1);
    assert_eq!(t.intrusions[0].name, "Perfect Shot");
    assert_eq!(t.intrusions[0].description, "You hit.");
    assert_eq!(t.background.name.as_deref(), Some("BACKGROUND"));
    assert_eq!(t.background.table.len(), 2);
    assert_eq!(t.abilities.len(), 1);
    assert_eq!(t.abilities[0].name, "Effort");
    assert_eq!(t.special_abilities_per_tier.len(), 1);
    assert_eq!(t.special_abilities_per_tier[0].tier, 1);
    assert_eq!(t.special_abilities_per_tier[0].special_abilities, 1);
    let specials: Vec<&str> = t.special_abilities.iter().map(|a| a.name.as_str()).collect();
    assert_eq!(specials, vec!["Bash", "Quick Step"]);
    assert_eq!(find(&map, "QUICK STEP").references, vec!["WARRIOR"]);
}

#[test]
fn types_without_intrusions_cannot_be_built() {
    let mut map = abilities();
    let text = TYPES.replace("Perfect Shot: You hit.\n", "");
    assert!(load_types(&mut map, &text).is_none());
    assert_eq!(find(&map, "BASH").references, vec!["WARRIOR"]);
}

#[test]
fn flavors_foci_and_types_only_add_references() {
    let mut map = abilities();
    let before: Vec<String> = map.entries.iter().map(|a| a.name.clone()).collect();
    assert!(load_flavors(&mut map, FLAVORS).is_some());
    assert!(load_foci(&mut map, FOCI).is_some());
    assert!(load_types(&mut map, TYPES).is_some());
    let after: Vec<String> = map.entries.iter().map(|a| a.name.clone()).collect();
    assert_eq!(before, after);
    assert_eq!(find(&map, "BASH").references, vec!["BEARS A HALO OF FIRE", "COMBAT FLAVOR", "WARRIOR"]);
    assert_eq!(find(&map, "BASH").category, vec!["Combat"]);
    assert_eq!(find(&map, "PLAIN").references, Vec::<String>::new());
}

#[test]
fn abilities_listed_before_any_tier_line_get_no_tier() {
    let map = load_abilities(ABILITIES, "# Combat\nBash\nLow Tier:\nQuick Step\n").unwrap();
    assert_eq!(find(&map, "BASH").tier, None);
    assert_eq!(find(&map, "BASH").category, vec!["Combat"]);
    assert_eq!(find(&map, "QUICK STEP").tier.as_deref(), Some("Low"));
}
