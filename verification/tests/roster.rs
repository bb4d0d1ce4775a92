use detr::{Deck, Roster, TrackerError};

fn deck(name: &str, main: &[(&str, u8)]) -> Deck {
    Deck::new(
        name,
        None,
        main.iter().map(|e| e.1).collect(),
        main.iter().map(|e| e.0.to_owned()).collect(),
        vec![],
        vec![],
    )
    .unwrap()
}

#[test]
fn add_find_and_len() {
    let mut r = Roster::new();
    assert!(r.is_empty());
    r.add_deck(deck("a", &[("X", 1)]));
    r.add_deck(deck("b", &[("Y", 2)]));
    assert_eq!(r.len(), 2);
    assert!(!r.is_empty());
    assert_eq!(r.find("b").unwrap().name, "b");
    assert!(matches!(r.find("c"), Err(TrackerError::DeckNotFound(n)) if n == "c"));
    assert_eq!(r.get(0).unwrap().name, "a");
    assert!(r.get(2).is_none());
}

#[test]
fn deck_names_in_roster_order() {
    let mut r = Roster::new();
    r.add_deck(deck("first", &[]));
    r.add_deck(deck("second", &[]));
    assert_eq!(r.deck_names(), vec!["first".to_owned(), "second".to_owned()]);
}

#[test]
fn remove_deck_swaps_the_last_deck_into_place() {
    let mut r = Roster::new();
    r.add_deck(deck("a", &[]));
    r.add_deck(deck("b", &[]));
    r.add_deck(deck("c", &[]));
    r.remove_deck("a").unwrap();
    assert_eq!(r.deck_names(), vec!["c".to_owned(), "b".to_owned()]);
    assert!(r.remove_deck("missing").is_err());
}

#[test]
fn replace_and_find_mut_update_a_deck() {
    let mut r = Roster::new();
    r.add_deck(deck("a", &[("X", 1)]));
    r.replace("a", deck("a", &[("Y", 3)])).unwrap();
    assert_eq!(r.find("a").unwrap().cards(false), vec![("Y".to_owned(), 3)]);
    r.find_mut("a").unwrap().name = "renamed".to_owned();
    assert!(r.find("a").is_err());
    assert_eq!(r.find("renamed").unwrap().name, "renamed");
    assert!(r.replace("ghost", deck("g", &[])).is_err());
}

#[test]
fn roster_cards_concatenates_deck_requirements() {
    let mut r = Roster::new();
    r.add_deck(deck("a", &[("X", 2), ("X", 1)]));
    r.add_deck(deck("b", &[("X", 1), ("Y", 4)]));
    assert_eq!(
        r.cards(false),
        vec![("X".to_owned(), 3), ("X".to_owned(), 1), ("Y".to_owned(), 4)]
    );
}
