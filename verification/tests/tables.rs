use csrd::tables::{load_intrusion_other_tables, load_option_table, load_roll_table, roll_entry,
    roll_table_from_match, RollEntry};

fn entry(e: &RollEntry) -> (usize, usize, &str) {
    (e.start, e.end, e.entry.as_str())
}

#[test]
fn option_table_reads_ranges_and_single_rolls() {
    let t = load_option_table("01-20 A storm breaks\n  21-00 All is calm  \n5 Single").unwrap();
    assert_eq!(t.len(), 3);
    assert_eq!(entry(&t[0]), (1, 20, "A storm breaks"));
    assert_eq!(entry(&t[1]), (21, 100, "All is calm"));
    assert_eq!(entry(&t[2]), (5, 5, "Single"));
}

#[test]
fn option_table_skips_lines_without_a_roll() {
    let t = load_option_table("OPTION TABLE\nno numbers here\n\n3-4 Found").unwrap();
    assert_eq!(t.len(), 1);
    assert_eq!(entry(&t[0]), (3, 4, "Found"));
}

#[test]
fn option_table_of_empty_text_is_empty() {
    assert_eq!(load_option_table("").unwrap().len(), 0);
}

#[test]
fn option_table_double_zero_start_is_hundred() {
    let t = load_option_table("00 Last").unwrap();
    assert_eq!(entry(&t[0]), (100, 100, "Last"));
}

#[test]
fn option_table_refuses_a_bound_that_does_not_fit() {
    assert!(load_option_table("1 ok\n99999999999999999999999999 too big").is_none());
}

#[test]
fn roll_entry_from_groups() {
    let m = vec![Some("7".to_string()), None, Some(" seven ".to_string())];
    let e = roll_entry(&m).unwrap();
    assert_eq!(entry(&e), (7, 7, "seven"));
    let m = vec![Some("1".to_string()), Some("00".to_string()), Some("x".to_string())];
    assert_eq!(entry(&roll_entry(&m).unwrap()), (1, 100, "x"));
    let m = vec![Some("x".to_string()), None, Some("x".to_string())];
    assert!(roll_entry(&m).is_none());
    let m = vec![Some("1".to_string()), None, None];
    assert!(roll_entry(&m).is_none());
}

#[test]
fn roll_table_names_are_upper_case_and_trimmed() {
    let t = load_roll_table(
        &Some(" wild magic ".to_string()),
        &Some("  Roll when casting ".to_string()),
        &"\n1-2 Sparks\n3 Smoke\n".to_string(),
    )
    .unwrap();
    assert_eq!(t.name.as_deref(), Some("WILD MAGIC"));
    assert_eq!(t.description.as_deref(), Some("Roll when casting"));
    assert_eq!(t.table.len(), 2);
    assert_eq!(entry(&t.table[1]), (3, 3, "Smoke"));
}

#[test]
fn roll_table_from_match_needs_options() {
    let m = vec![Some("x".to_string()), None, None];
    assert!(roll_table_from_match(&m).is_none());
    let m = vec![None, None, Some("1 a".to_string())];
    let t = roll_table_from_match(&m).unwrap();
    assert!(t.name.is_none());
    assert_eq!(t.table.len(), 1);
}

#[test]
fn intrusion_tables_are_set_apart() {
    let text = "OPTION TABLE GM Intrusions\n1-2 Trip\n3 Fall\n\nOPTION TABLE Loot\n1 Gold\n\n";
    let (intrusions, other) = load_intrusion_other_tables(text).unwrap();
    assert_eq!(intrusions.len(), 1);
    assert_eq!(other.len(), 1);
    assert_eq!(intrusions[0].name.as_deref(), Some("GM INTRUSIONS"));
    assert_eq!(intrusions[0].table.len(), 2);
    assert_eq!(entry(&intrusions[0].table[0]), (1, 2, "Trip"));
    assert_eq!(other[0].name.as_deref(), Some("LOOT"));
    assert_eq!(entry(&other[0].table[0]), (1, 1, "Gold"));
}

#[test]
fn intrusion_tables_of_text_without_tables() {
    let (a, b) = load_intrusion_other_tables("nothing here").unwrap();
    assert!(a.is_empty() && b.is_empty());
}

#[test]
fn option_table_ignores_padding_and_carriage_returns() {
    let plain = load_option_table("01-20 A storm\n21-00 Calm\nno roll\n").unwrap();
    let padded = load_option_table("  01-20 A storm \t\r\n\t21-00 Calm\r\n  no roll \r\n").unwrap();
    let a: Vec<(usize, usize, &str)> = plain.iter().map(entry).collect();
    let b: Vec<(usize, usize, &str)> = padded.iter().map(entry).collect();
    assert_eq!(a, vec![(1, 20, "A storm"), (21, 100, "Calm")]);
    assert_eq!(a, b);
}

#[test]
fn option_tables_of_joined_texts_are_joined() {
    let a = "01-50 Rain\nnot a roll";
    let b = "51-00 Sun";
    let joined = load_option_table(&format!("{a}\n{b}")).unwrap();
    let mut parts = load_option_table(a).unwrap();
    parts.extend(load_option_table(b).unwrap());
    let x: Vec<(usize, usize, &str)> = joined.iter().map(entry).collect();
    let y: Vec<(usize, usize, &str)> = parts.iter().map(entry).collect();
    assert_eq!(x, vec![(1, 50, "Rain"), (51, 100, "Sun")]);
    assert_eq!(x, y);
    assert!(load_option_table(&format!("{a}\n99999999999999999999999 x")).is_none());
}

#[test]
fn option_table_of_crlf_text_is_that_of_lf_text() {
    let crlf = "01-50 Rain\r\n51-00 Sun\r\n";
    let lf = crlf.replace("\r\n", "\n");
    let x: Vec<(usize, usize, String)> =
        load_option_table(crlf).unwrap().iter().map(|e| (e.start, e.end, e.entry.clone())).collect();
    let y: Vec<(usize, usize, String)> =
        load_option_table(&lf).unwrap().iter().map(|e| (e.start, e.end, e.entry.clone())).collect();
    assert_eq!(x, y);
}
