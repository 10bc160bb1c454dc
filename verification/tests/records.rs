use csrd::artifact::load_artifacts;
use csrd::creature::{gather_creatures, load_creatures};
use csrd::cyphers::{load_cypher_tables, load_cyphers};
use csrd::descriptor::load_descriptors;

const GOBLIN: &str = "Goblin 2 (6)\r\nA small creature.\r\nMotive: Greed\r\nEnvironment: Caves\r\nHealth: 6\r\nDamage Inflicted: 2 points\r\nArmor: 1\r\nMovement: Short\r\nModifications: Stealth as level 4; Perception as level 3\r\nCombat: Goblins swarm.\r\nInteraction: They bargain.\r\nUse: As thieves.\r\nLoot: Coins.\r\nGM Intrusion: Goblin steals.\r\n";

#[test]
fn creature_fields() {
    let cs = load_creatures(GOBLIN, "Creature").unwrap();
    assert_eq!(cs.len(), 1);
    let c = &cs[0];
    assert_eq!(c.name, "GOBLIN");
    assert_eq!(c.kind, "Creature");
    assert_eq!(c.level, Some(2));
    assert_eq!(c.description, "A small creature.");
    assert_eq!(c.motive.as_deref(), Some("Greed"));
    assert_eq!(c.environment.as_deref(), Some("Caves"));
    assert_eq!(c.health, Some(6));
    assert_eq!(c.damage.as_deref(), Some("2 points"));
    assert_eq!(c.armor, 1);
    assert_eq!(c.movement.as_deref(), Some("Short"));
    assert_eq!(c.modifications, vec!["Stealth as level 4", "Perception as level 3"]);
    assert_eq!(c.combat.as_deref(), Some("Goblins swarm."));
    assert!(c.options.is_empty());
    assert_eq!(c.interactions.as_deref(), Some("They bargain."));
    assert_eq!(c.uses.as_deref(), Some("As thieves."));
    assert_eq!(c.loot.as_deref(), Some("Coins."));
    assert_eq!(c.intrusions.as_deref(), Some("Goblin steals."));
}

#[test]
fn creature_missing_parts() {
    let text = "Rat 1 (3)\nVermin.\nMotive: Food\nHealth: 0\nDamage Inflicted: 1 point\nMovement: Short\n";
    let cs = load_creatures(text, "NPC").unwrap();
    let c = &cs[0];
    assert_eq!(c.name, "RAT");
    assert_eq!(c.level, Some(1));
    assert_eq!(c.health, None);
    assert_eq!(c.armor, 0);
    assert_eq!(c.environment, None);
    assert!(c.modifications.is_empty());
    assert_eq!(c.combat, None);
    assert_eq!(c.intrusions, None);
}

#[test]
fn creature_levels_outside_one_to_ten_are_refused() {
    let base = "Rat LEVEL (3)\nVermin.\nMotive: Food\nHealth: 3\nDamage Inflicted: 1 point\nMovement: Short\n";
    assert!(load_creatures(&base.replace("LEVEL", "0"), "NPC").is_none());
    assert!(load_creatures(&base.replace("LEVEL", "11"), "NPC").is_none());
    assert_eq!(load_creatures(&base.replace("LEVEL", "10"), "NPC").unwrap()[0].level, Some(10));
}

#[test]
fn creatures_need_a_match() {
    assert!(load_creatures("no creature here", "Creature").is_none());
}

#[test]
fn creatures_gathered_in_order_of_name() {
    let a = load_creatures(GOBLIN, "Creature").unwrap();
    let b = load_creatures(&GOBLIN.replace("Goblin 2", "Apeman 3"), "Super Villain").unwrap();
    let c = load_creatures(&GOBLIN.replace("Goblin 2", "Goblin 4"), "NPC").unwrap();
    let all = gather_creatures(a, b, c);
    let got: Vec<(&str, &str)> = all.iter().map(|c| (c.name.as_str(), c.kind.as_str())).collect();
    assert_eq!(got, vec![("APEMAN", "Super Villain"), ("GOBLIN", "Creature"), ("GOBLIN", "NPC")]);
}

const CYPHERS: &str = "Blinking Nodule\nLevel: 1d6\nEffect: Teleports you.\n\nAdhesion Clamp\nLevel: 1d6 + 2\nForm: Bracelet\nEffect: Sticks things together.\nLasts an hour.\n\n";

#[test]
fn cyphers_in_order_of_name() {
    let cs = load_cyphers(CYPHERS).unwrap();
    assert_eq!(cs.len(), 2);
    assert_eq!(cs[0].name, "ADHESION CLAMP");
    assert_eq!(cs[0].level_dice.as_deref(), Some("1d6"));
    assert_eq!(cs[0].level_mod, 2);
    assert_eq!(cs[0].form.as_deref(), Some("BRACELET"));
    assert_eq!(cs[0].effect, "Sticks things together.Lasts an hour.");
    assert!(cs[0].tags.is_empty());
    assert_eq!(cs[1].name, "BLINKING NODULE");
    assert_eq!(cs[1].level_mod, 0);
    assert_eq!(cs[1].form, None);
    assert_eq!(cs[1].effect, "Teleports you.");
}

#[test]
fn cypher_tables_tag_their_cyphers() {
    let mut cs = load_cyphers(CYPHERS).unwrap();
    let tables = load_cypher_tables(&mut cs, "Anoetic Cyphers\n01-50 Adhesion Clamp\n51-00 Blinking Nodule\n\n").unwrap();
    assert_eq!(tables.len(), 1);
    assert_eq!(tables[0].name.as_deref(), Some("Anoetic Cyphers"));
    assert_eq!(tables[0].description, None);
    let entries: Vec<(usize, usize, &str)> =
        tables[0].table.iter().map(|e| (e.start, e.end, e.entry.as_str())).collect();
    assert_eq!(entries, vec![(1, 50, "Adhesion Clamp"), (51, 100, "Blinking Nodule")]);
    assert_eq!(cs[0].tags, vec!["Anoetic Cyphers"]);
    assert_eq!(cs[1].tags, vec!["Anoetic Cyphers"]);
}

#[test]
fn cypher_table_naming_an_unknown_cypher() {
    let mut cs = load_cyphers(CYPHERS).unwrap();
    let r = load_cypher_tables(&mut cs, "Kind\n1-50 Adhesion Clamp\n51-100 Nothing\n\n");
    assert!(r.is_none());
    assert_eq!(cs[0].tags, vec!["Kind"]);
}

#[test]
fn cypher_table_without_entries() {
    let mut cs = load_cyphers(CYPHERS).unwrap();
    assert!(load_cypher_tables(&mut cs, "Kind\n\n").is_none());
}

const DESCRIPTORS: &str = "Brave\nYou are brave.\nYou gain the following characteristics:\nCourage: You resist fear.\nInitial Link to the Starting Adventure: From the following list.\n1. You saved someone.\n2. You fought.\n\n";

#[test]
fn descriptors_read_characteristics_and_links() {
    let ds = load_descriptors(DESCRIPTORS).unwrap();
    assert_eq!(ds.len(), 1);
    let d = &ds[0];
    assert_eq!(d.name, "BRAVE");
    assert_eq!(d.description, "You are brave.");
    assert_eq!(d.characteristics.len(), 1);
    assert_eq!(d.characteristics[0].name, "Courage");
    assert_eq!(d.characteristics[0].description, "You resist fear.");
    assert_eq!(d.links, vec!["You saved someone.", "You fought."]);
}

#[test]
fn descriptor_without_characteristics_cannot_be_built() {
    let text = "Odd\nStrange.\nYou gain the following characteristics:\n\n";
    assert!(load_descriptors(text).is_none());
}

const ARTIFACTS: &str = "FANTASY ARTIFACTS\nAmulet of Safety\nLevel: 1d6 + 3\nForm: A pendant\nEffect: Protects the wearer.\nDepletion: 1 in 1d10\n---\n";

#[test]
fn artifacts_tagged_with_their_setting() {
    let arts = load_artifacts(ARTIFACTS).unwrap();
    assert_eq!(arts.len(), 1);
    let a = &arts[0];
    assert_eq!(a.name, "AMULET OF SAFETY");
    assert_eq!(a.tags, vec!["FANTASY"]);
    assert_eq!(a.level_dice.as_deref(), Some("1d6"));
    assert_eq!(a.level_mod, 3);
    assert_eq!(a.form, "A pendant");
    assert_eq!(a.effect, "Protects the wearer.");
    assert_eq!(a.depletion, "1 in 1d10");
    assert!(a.options.is_empty());
}

#[test]
fn artifacts_with_an_option_table() {
    let text = "SCIENCE FICTION ARTIFACTS\nRandom Box\nLevel: 5\nForm: A box\nEffect: Does one of:\nOPTION TABLE Box Results\n1-50 Light\n51-00 Sound\nDepletion: 1 in 1d6\n---\n";
    let arts = load_artifacts(text).unwrap();
    let a = &arts[0];
    assert_eq!(a.tags, vec!["SCIENCE FICTION"]);
    assert_eq!(a.level_dice, None);
    assert_eq!(a.level_mod, 5);
    assert_eq!(a.effect, "Does one of:");
    assert_eq!(a.options.len(), 1);
    assert_eq!(a.options[0].name.as_deref(), Some("BOX RESULTS"));
    let entries: Vec<(usize, usize)> = a.options[0].table.iter().map(|e| (e.start, e.end)).collect();
    assert_eq!(entries, vec![(1, 50), (51, 100)]);
}

#[test]
fn cypher_table_double_zero_bound_is_hundred() {
    let mut cs = load_cyphers(CYPHERS).unwrap();
    let tables = load_cypher_tables(&mut cs, "Kind\n01-95 Adhesion Clamp\n96-00 Blinking Nodule\n\n").unwrap();
    let entries: Vec<(usize, usize)> = tables[0].table.iter().map(|e| (e.start, e.end)).collect();
    assert_eq!(entries, vec![(1, 95), (96, 100)]);
}
