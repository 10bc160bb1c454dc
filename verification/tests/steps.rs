use csrd::ability::load_abilities;
use csrd::descriptor::descriptor_from_match;
use csrd::equipment::variant_from_match;
use csrd::focus::{add_ability_to_focus, focus_from_match};
use csrd::text::chars_of;
use csrd::types::type_from_match;

fn some(s: &str) -> Option<String> {
    Some(s.to_string())
}

#[test]
fn focus_from_given_groups() {
    let m = vec![
        some(" Fights Dirty "),
        some(" You cheat. "),
        None,
        some("Connection: Pick one.\n1. A friend.\n2. A rival."),
        some("Minor Effect Suggestion: Trip.\nAdditional Equipment: A knife."),
        None,
        some("Tier 1: Bash"),
        some(" Foe cheats back. "),
    ];
    let f = focus_from_match(&m).unwrap();
    assert_eq!(f.name, "FIGHTS DIRTY");
    assert_eq!(f.description, "You cheat.");
    assert_eq!(f.connections, vec!["A friend.", "A rival."]);
    assert_eq!(f.minor_effect.as_deref(), Some("Trip."));
    assert_eq!(f.major_effect, None);
    assert_eq!(f.additional_equipment.as_deref(), Some("A knife."));
    assert_eq!(f.intrusions.as_deref(), Some("Foe cheats back."));
    assert!(f.abilities.is_empty());
    let mut missing = m.clone();
    missing[6] = None;
    assert!(focus_from_match(&missing).is_none());
}

#[test]
fn adding_an_ability_to_a_focus() {
    let mut map = load_abilities("Bash (1 Might point): Hit.\n", "").unwrap();
    let mut f = focus_from_match(&vec![some("Brawls"), some("x"), None, None, None, None, some("Tier 1: Bash"), None]).unwrap();
    assert!(add_ability_to_focus(&mut map, &mut f, &chars_of("Bash"), &some("2"), true));
    assert_eq!(f.abilities.len(), 1);
    assert_eq!((f.abilities[0].name.as_str(), f.abilities[0].tier, f.abilities[0].preselected), ("Bash", 2, true));
    assert_eq!(map.entries[0].references, vec!["BRAWLS"]);
    assert!(!add_ability_to_focus(&mut map, &mut f, &chars_of("Nope"), &some("1"), false));
    assert!(!add_ability_to_focus(&mut map, &mut f, &chars_of("Bash"), &None, false));
}

#[test]
fn type_from_given_groups() {
    let m = vec![
        some(" Warrior "),
        some("Shot: You hit."),
        some("10"),
        some("9"),
        some("8"),
        some("1-2 Soldier\n3 Brawler"),
        some("Effort: You try."),
        some("1-TIER Choose 1\nBash\n"),
    ];
    let t = type_from_match(&m).unwrap();
    assert_eq!(t.name, "WARRIOR");
    assert_eq!((t.stat_pool.might, t.stat_pool.speed, t.stat_pool.intellect), (10, 9, 8));
    assert_eq!(t.intrusions[0].name, "Shot");
    assert_eq!(t.background.table.len(), 2);
    assert_eq!(t.abilities[0].description, "You try.");
    assert!(t.special_abilities.is_empty());
    let mut bad = m.clone();
    bad[2] = some("x");
    assert!(type_from_match(&bad).is_none());
}

#[test]
fn descriptor_from_given_groups() {
    let m = vec![
        some(" Brave "),
        some(" You are brave. "),
        some("Courage: You resist fear."),
        some("1. You saved someone.\n2. You fought."),
    ];
    let d = descriptor_from_match(&m).unwrap();
    assert_eq!(d.name, "BRAVE");
    assert_eq!(d.characteristics.len(), 1);
    assert_eq!(d.characteristics[0].name, "Courage");
    assert_eq!(d.links, vec!["You saved someone.", "You fought."]);
}

#[test]
fn variant_from_given_groups() {
    let m = vec![some(" Knife "), some("2"), some(" 5 to 10 gp "), some(" A blade. "), some("<<Sharp>>")];
    let (name, v) = variant_from_match(&m, &vec!["CONTEMPORARY".to_string()]).unwrap();
    assert_eq!(name, "Knife");
    assert_eq!(v.value, vec!["5", "10 GP"]);
    assert_eq!(v.levels, vec![2]);
    assert_eq!(v.notes, vec!["Sharp"]);
    assert_eq!(v.tags, vec!["CONTEMPORARY", "MODERN"]);
    let mut bad = m.clone();
    bad[1] = some("x");
    assert!(variant_from_match(&bad, &vec![]).is_none());
}
