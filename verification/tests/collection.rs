use detr::collection::Collection;
use detr::{CardData, Deck, Rarity, TrackerError};

fn card(amount: u8, name: &str, rarity: Rarity, set: &str) -> CardData {
    CardData { amount, name: name.to_owned(), rarity, set: set.to_owned() }
}

fn deck(name: &str, main: &[(&str, u8)]) -> Deck {
    Deck::new(
        name,
        None,
        main.iter().map(|e| e.1).collect(),
        main.iter().map(|e| e.0.to_owned()).collect(),
        vec![],
        vec![],
    )
    .unwrap()
}

#[test]
fn get_normalizes_the_queried_name() {
    let mut c = Collection::default();
    c.insert(card(2, "Valki, God of Lies // Tibalt", Rarity::Mythic, "khm"));
    // stored under both the simplified and the literal name
    assert!(c.get("Valki, God of Lies").is_ok());
    assert!(c.get("Valki, God of Lies // Tibalt").is_ok());
    assert!(c.get("A-Valki, God of Lies").is_ok());
    assert!(c.get("Absent").is_err());
}

#[test]
fn basic_lands_are_reclassified() {
    let mut c = Collection::default();
    c.insert(card(9, "Plains", Rarity::Common, "one"));
    let group = c.get("Plains").unwrap();
    assert_eq!(group, &vec![(9, Rarity::Land, "one".to_owned())]);
}

#[test]
fn insert_overwrites_per_set_and_appends_new_sets() {
    let mut c = Collection::default();
    c.insert(card(1, "Opt", Rarity::Common, "xln"));
    c.insert(card(3, "Opt", Rarity::Common, "eld"));
    c.insert(card(4, "Opt", Rarity::Uncommon, "xln"));
    let group = c.get("Opt").unwrap();
    assert_eq!(
        group,
        &vec![(4, Rarity::Uncommon, "xln".to_owned()), (3, Rarity::Common, "eld".to_owned())]
    );
}

#[test]
fn names_lists_every_key() {
    let mut c = Collection::default();
    c.insert(card(1, "Opt", Rarity::Common, "xln"));
    c.insert(card(1, "Shock", Rarity::Common, "xln"));
    let names = c.names();
    assert!(names.contains(&"Opt".to_owned()));
    assert!(names.contains(&"Shock".to_owned()));
    assert_eq!(names.len(), 2);
}

#[test]
fn missing_is_required_minus_owned_floored_at_zero() {
    let mut c = Collection::default();
    c.insert(card(1, "X", Rarity::Rare, "s1"));
    c.insert(card(2, "X", Rarity::Rare, "s2"));
    c.insert(card(5, "Y", Rarity::Common, "s1"));
    let d = deck("d", &[("X", 4), ("Y", 2)]);
    let missing = c.missing(&d, false).unwrap();
    assert_eq!(missing.len(), 2);
    assert_eq!(missing[0], ("X".to_owned(), 1, Rarity::Rare, "s1".to_owned()));
    assert_eq!(missing[1], ("Y".to_owned(), 0, Rarity::Common, "s1".to_owned()));
}

#[test]
fn missing_reports_the_lowest_rarity_printing_first_encountered() {
    let mut c = Collection::default();
    c.insert(card(0, "X", Rarity::Mythic, "m1"));
    c.insert(card(0, "X", Rarity::Rare, "r1"));
    c.insert(card(0, "X", Rarity::Rare, "r2"));
    let d = deck("d", &[("X", 1)]);
    let missing = c.missing(&d, false).unwrap();
    assert_eq!(missing[0], ("X".to_owned(), 1, Rarity::Rare, "r1".to_owned()));
}

#[test]
fn missing_fails_on_unknown_cards() {
    let c = Collection::default();
    let d = deck("d", &[("Ghost Card", 1)]);
    match c.missing(&d, false) {
        Err(TrackerError::UnknownCard(n)) => assert_eq!(n, "Ghost Card"),
        other => panic!("expected UnknownCard, got {other:?}"),
    }
}

#[test]
fn count_missing_of_rarity_sums_one_tier() {
    let mut c = Collection::default();
    c.insert(card(1, "X", Rarity::Rare, "s"));
    c.insert(card(0, "Y", Rarity::Rare, "s"));
    c.insert(card(0, "Z", Rarity::Mythic, "s"));
    let d = deck("d", &[("X", 4), ("Y", 1), ("Z", 2)]);
    assert_eq!(c.count_missing_of_rarity(&d, false, Rarity::Rare).unwrap(), 4);
    assert_eq!(c.count_missing_of_rarity(&d, false, Rarity::Mythic).unwrap(), 2);
    assert_eq!(c.count_missing_of_rarity(&d, false, Rarity::Common).unwrap(), 0);
}

#[test]
fn merging_a_collection_into_itself_changes_nothing() {
    let mut c = Collection::default();
    c.insert(card(2, "Opt", Rarity::Common, "xln"));
    c.insert(card(1, "Valki, God of Lies // Tibalt", Rarity::Mythic, "khm"));
    c.insert(card(4, "Plains", Rarity::Common, "one"));
    let copy = c.clone();
    c.merge(copy.clone());
    assert_eq!(c, copy);
}

#[test]
fn merge_overwrites_with_incoming_data() {
    let mut a = Collection::default();
    a.insert(card(1, "Opt", Rarity::Common, "xln"));
    let mut b = Collection::default();
    b.insert(card(4, "Opt", Rarity::Common, "xln"));
    b.insert(card(2, "Shock", Rarity::Common, "xln"));
    a.merge(b);
    assert_eq!(a.get("Opt").unwrap(), &vec![(4, Rarity::Common, "xln".to_owned())]);
    assert!(a.get("Shock").is_ok());
}

#[test]
fn error_messages_name_the_missing_item() {
    let e = TrackerError::UnknownCard("Opt".to_owned());
    assert_eq!(e.message(), "unknown card: Opt");
    let e = TrackerError::DeckNotFound("boros turns".to_owned());
    assert_eq!(e.message(), "no deck is named: boros turns");
}
