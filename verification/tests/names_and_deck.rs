use detr::Deck;
use detr::names::{simplified_name, str_eq, trim_str};

fn deck(name: &str, main: &[(&str, u8)], side: &[(&str, u8)]) -> Deck {
    Deck::new(
        name,
        None,
        main.iter().map(|e| e.1).collect(),
        main.iter().map(|e| e.0.to_owned()).collect(),
        side.iter().map(|e| e.1).collect(),
        side.iter().map(|e| e.0.to_owned()).collect(),
    )
    .unwrap()
}

#[test]
fn simplified_name_strips_prefix_and_split_suffix() {
    assert_eq!(simplified_name("A-Ragavan, Nimble Pilferer"), "Ragavan, Nimble Pilferer");
    assert_eq!(
        simplified_name("Hengegate Pathway // Mistgate Pathway"),
        "Hengegate Pathway"
    );
    assert_eq!(simplified_name("A-Valki, God of Lies // A-Tibalt"), "Valki, God of Lies");
    assert_eq!(simplified_name("A-A-Teferi"), "Teferi");
    assert_eq!(simplified_name("Llanowar Elves"), "Llanowar Elves");
}

#[test]
fn trim_str_strips_surrounding_whitespace() {
    assert_eq!(trim_str("  Opt \t\n"), "Opt");
    assert_eq!(trim_str("Opt"), "Opt");
    assert_eq!(trim_str(" \t "), "");
}

#[test]
fn str_eq_compares_by_characters() {
    assert!(str_eq("abc", "abc"));
    assert!(!str_eq("abc", "abd"));
    assert!(!str_eq("abc", "ab"));
}

#[test]
fn new_rejects_mismatched_boards() {
    assert!(Deck::new("bad", None, vec![1, 2], vec!["X".to_owned()], vec![], vec![]).is_none());
}

#[test]
fn cards_coalesces_repeated_names() {
    let d = deck("d", &[("X", 2), ("Y", 1), ("X", 1)], &[]);
    let cards = d.cards(false);
    assert_eq!(cards, vec![("X".to_owned(), 3), ("Y".to_owned(), 1)]);
}

#[test]
fn cards_includes_sideboard_unless_ignored() {
    let d = deck("d", &[("X", 4)], &[("S", 2), ("X", 1)]);
    assert_eq!(
        d.cards(false),
        vec![("X".to_owned(), 5), ("S".to_owned(), 2)]
    );
    assert_eq!(d.cards(true), vec![("X".to_owned(), 4)]);
}

#[test]
fn wishboard_mainboard_pulls_in_seven_sideboard_entries() {
    let side: Vec<(&str, u8)> = vec![
        ("S1", 1),
        ("S2", 1),
        ("S3", 1),
        ("S4", 1),
        ("S5", 1),
        ("S6", 1),
        ("S7", 1),
        ("S8", 1),
    ];
    let d = deck("wish", &[("Karn, the Great Creator", 4)], &side);
    let cards = d.cards(true);
    let names: Vec<&str> = cards.iter().map(|c| c.0.as_str()).collect();
    assert!(names.contains(&"S1"));
    assert!(names.contains(&"S7"));
    assert!(!names.contains(&"S8"));
    assert_eq!(cards.len(), 8);
}

#[test]
fn plain_deck_ignoring_sideboard_drops_it_entirely() {
    let d = deck("plain", &[("X", 4)], &[("S1", 1), ("S2", 1)]);
    assert_eq!(d.cards(true), vec![("X".to_owned(), 4)]);
}

#[test]
fn contains_respects_the_sideboard_flag() {
    let d = deck("d", &[("Main", 1)], &[("Side", 2)]);
    assert!(d.contains("Main", true));
    assert!(d.contains("Main", false));
    assert!(d.contains("Side", false));
    assert!(!d.contains("Side", true));
    assert!(!d.contains("Absent", false));
}

#[test]
fn name_builder_renames_the_deck() {
    let d = deck("first", &[("X", 1)], &[]).name("second");
    assert_eq!(d.name, "second");
}

#[test]
fn new_rejects_oversized_boards() {
    let n = 10001;
    let amounts = vec![1u8; n];
    let names: Vec<String> = (0..n).map(|i| format!("card {i}")).collect();
    assert!(Deck::new("big", None, amounts, names, vec![], vec![]).is_none());
}
