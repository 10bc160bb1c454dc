use csrd::equipment::{load_equipment, EquipmentCodex};

const EQUIPMENT: &str = "MODERN; WEAPONS\nKnife; Level 1; 5 to 10 gp; A blade. <<Sharp>>\nRope; Level 0; 1/2 gp; Long rope.\n---\nCONTEMPORARY\nKnife; Level 2; 20 gp; A modern blade.\n---\n";

#[test]
fn equipment_variants_by_name() {
    let mut codex = EquipmentCodex::new();
    assert!(load_equipment(EQUIPMENT, &mut codex));
    let all = codex.into_values();
    let names: Vec<&str> = all.iter().map(|e| e.name.as_str()).collect();
    assert_eq!(names, vec!["Knife", "Rope"]);
    let knife = &all[0];
    assert_eq!(knife.variants.len(), 1);
    assert_eq!(knife.variants[0].description, "A modern blade.");
    assert_eq!(knife.variants[0].tags, vec!["CONTEMPORARY", "MODERN"]);
    assert_eq!(knife.variants[0].levels, vec![2]);
    let rope = &all[1];
    assert_eq!(rope.variants[0].value, vec!["1", "2 GP"]);
    assert!(rope.variants[0].levels.is_empty());
    assert!(rope.variants[0].notes.is_empty());
    assert_eq!(rope.variants[0].tags, vec!["MODERN", "WEAPONS"]);
}

#[test]
fn equipment_values_and_notes() {
    let mut codex = EquipmentCodex::new();
    assert!(load_equipment("ANCIENT\nKnife; Level 1; 5 to 10 gp; A blade. <<Sharp>>\n---\n", &mut codex));
    let all = codex.into_values();
    let v = &all[0].variants[0];
    assert_eq!(v.value, vec!["5", "10 GP"]);
    assert_eq!(v.notes, vec!["Sharp"]);
    assert_eq!(v.description, "A blade.");
    assert_eq!(v.tags, vec!["ANCIENT"]);
}

#[test]
fn equipment_keeps_other_variants() {
    let mut codex = EquipmentCodex::new();
    let text = "ANCIENT\nSword; Level 2; 10 gp; Old.\n---\nFANTASTIC\nSword; Level 3; 50 gp; Magic.\n---\n";
    assert!(load_equipment(text, &mut codex));
    let all = codex.into_values();
    assert_eq!(all.len(), 1);
    assert_eq!(all[0].variants.len(), 2);
    assert_eq!(all[0].variants[1].tags, vec!["FANTASTIC", "SCIENCE FICTION"]);
}

#[test]
fn equipment_needs_a_category() {
    let mut codex = EquipmentCodex::new();
    assert!(!load_equipment("", &mut codex));
    assert!(codex.into_values().is_empty());
}

#[test]
fn equipment_stops_at_a_level_that_is_not_a_number() {
    let mut codex = EquipmentCodex::new();
    let text = "ANCIENT\nAxe; Level 1; 1 gp; Sharp.\nBow; Level x; 2 gp; Ranged.\n---\n";
    assert!(!load_equipment(text, &mut codex));
    let all = codex.into_values();
    assert_eq!(all.len(), 1);
    assert_eq!(all[0].name, "Axe");
}

#[test]
fn advanced_variant_replaces_science_fiction_ones() {
    let mut codex = EquipmentCodex::new();
    let text = "SCIENCE FICTION\nBlaster; Level 3; 30 gp; Old blaster.\n---\nADVANCED\nBlaster; Level 4; 40 gp; New blaster.\n---\n";
    assert!(load_equipment(text, &mut codex));
    let all = codex.into_values();
    assert_eq!(all.len(), 1);
    assert_eq!(all[0].variants.len(), 1);
    assert_eq!(all[0].variants[0].description, "New blaster.");
    assert_eq!(all[0].variants[0].tags, vec!["ADVANCED", "SCIENCE FICTION"]);
}
