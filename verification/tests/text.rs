use csrd::order::{sort_by_name, string_set_contains, string_set_insert};
use csrd::text::{chars_of, join_chars, parse_usize_chars, replace_all_chars, split_chars,
    string_le, trim_chars, upper_chars};
use csrd::cyphers::load_cyphers;
use csrd::equipment::{load_equipment, EquipmentCodex};
use csrd::ability::Ability;

fn s(v: &[char]) -> String {
    v.iter().collect()
}

#[test]
fn trim_removes_unicode_white_space() {
    assert_eq!(s(&trim_chars(&chars_of("\u{3000} \t a b \r\n"))), "a b");
    assert_eq!(s(&trim_chars(&chars_of("   "))), "");
}

#[test]
fn upper_only_touches_ascii_letters() {
    assert_eq!(s(&upper_chars(&chars_of("abc-Zé1"))), "ABC-Zé1");
}

#[test]
fn parse_follows_usize_from_str() {
    assert_eq!(parse_usize_chars(&chars_of("042")), Some(42));
    assert_eq!(parse_usize_chars(&chars_of("+7")), Some(7));
    assert_eq!(parse_usize_chars(&chars_of("+")), None);
    assert_eq!(parse_usize_chars(&chars_of("")), None);
    assert_eq!(parse_usize_chars(&chars_of("-1")), None);
    assert_eq!(parse_usize_chars(&chars_of("1 ")), None);
    assert_eq!(parse_usize_chars(&chars_of("18446744073709551615")), "18446744073709551615".parse::<usize>().ok());
    assert_eq!(parse_usize_chars(&chars_of("184467440737095516150")), None);
}

#[test]
fn split_keeps_empty_pieces() {
    let p = split_chars(&chars_of("a;;b;"), ';');
    let p: Vec<String> = p.iter().map(|x| s(x)).collect();
    assert_eq!(p, vec!["a", "", "b", ""]);
    assert_eq!(split_chars(&chars_of(""), ';').len(), 1);
}

#[test]
fn join_and_replace() {
    let list = vec![chars_of("A OR B"), chars_of("C OR D")];
    assert_eq!(s(&join_chars(&list, &chars_of("|"))), "A OR B|C OR D");
    assert_eq!(s(&join_chars(&vec![], &chars_of("|"))), "");
    let r = replace_all_chars(&chars_of("x#end#endy#en"), &chars_of("#end"), &chars_of("$"));
    assert_eq!(s(&r), "x$$y#en");
}

#[test]
fn string_order_is_by_code_point() {
    assert!(string_le(&"ABC".to_string(), &"ABD".to_string()));
    assert!(string_le(&"AB".to_string(), &"ABC".to_string()));
    assert!(!string_le(&"b".to_string(), &"B".to_string()));
    assert!(string_le(&"same".to_string(), &"same".to_string()));
}

#[test]
fn text_is_read_transliterated() {
    let cs = load_cyphers("Café Æther\nLevel: 1d6\nEffect: Brûle tout.\n\n").unwrap();
    assert_eq!(cs.len(), 1);
    assert_eq!(cs[0].name, "CAFE AETHER");
    assert_eq!(cs[0].effect, "Brule tout.");
    let cs = load_cyphers("Plain\nLevel: 2\nEffect: Nothing odd.\n\n").unwrap();
    assert_eq!(cs[0].name, "PLAIN");
    assert_eq!(cs[0].effect, "Nothing odd.");
}

#[test]
fn string_sets_stay_ordered_without_duplicates() {
    let mut set: Vec<String> = Vec::new();
    for x in ["MODERN", "ANCIENT", "MODERN", "FUTURE", "ANCIENT"] {
        string_set_insert(&mut set, x.to_string());
    }
    assert_eq!(set, vec!["ANCIENT", "FUTURE", "MODERN"]);
    assert!(string_set_contains(&set, "FUTURE"));
    assert!(!string_set_contains(&set, "PAST"));
}

fn ability(name: &str, description: &str) -> Ability {
    Ability {
        name: name.to_string(),
        cost: None,
        pool: vec![],
        additional_cost: None,
        cost_rendered: String::new(),
        tier: None,
        category: vec![],
        description: description.to_string(),
        references: vec![],
    }
}

#[test]
fn sorting_by_name_is_stable() {
    let v = vec![ability("b", "1"), ability("a", "2"), ability("b", "3"), ability("A", "4")];
    let sorted = sort_by_name(v);
    let got: Vec<(&str, &str)> =
        sorted.iter().map(|a| (a.name.as_str(), a.description.as_str())).collect();
    assert_eq!(got, vec![("A", "4"), ("a", "2"), ("b", "1"), ("b", "3")]);
}

#[test]
fn patterns_capture_named_groups_and_split_values() {
    let mut codex = EquipmentCodex::new();
    let text = "ANCIENT\nLamp; Level 1; 1/2 to 3 gp; A lamp. <<Bright>>\nOil; Level 2; 4 gp; Fuel.\n---\n";
    assert!(load_equipment(text, &mut codex));
    let all = codex.into_values();
    let got: Vec<(&str, Vec<String>)> = all.iter().map(|e| (e.name.as_str(), e.variants[0].value.clone())).collect();
    assert_eq!(
        got,
        vec![("Lamp", vec!["1".to_string(), "2".to_string(), "3 GP".to_string()]), ("Oil", vec!["4 GP".to_string()])],
    );
    assert_eq!(all[0].variants[0].notes, vec!["Bright"]);
    assert_eq!(all[1].variants[0].levels, vec![2]);
}
