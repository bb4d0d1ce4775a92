use detr::collection::Collection;
use detr::craft_suggester::CraftRecommender;
use detr::{CardData, Deck, Rarity, Roster, TrackerError};

fn card(amount: u8, name: &str, rarity: Rarity, set: &str) -> CardData {
    CardData { amount, name: name.to_owned(), rarity, set: set.to_owned() }
}

fn deck(name: &str, main: &[(&str, u8)]) -> Deck {
    Deck::new(
        name,
        None,
        main.iter().map(|e| e.1).collect(),
        main.iter().map(|e| e.0.to_owned()).collect(),
        vec![],
        vec![],
    )
    .unwrap()
}

#[test]
fn shared_missing_rare_consumes_one_row() {
    // Both decks miss the same single rare copy: one rare of budget covers both.
    let mut c = Collection::default();
    c.insert(card(0, "X", Rarity::Rare, "s"));
    let mut r = Roster::new();
    r.add_deck(deck("a", &[("X", 1)]));
    r.add_deck(deck("b", &[("X", 1)]));
    let rec = CraftRecommender::new(1, 0, false, None, &r, &c);
    let result = rec.recommend().unwrap();
    assert_eq!(result, vec![vec!["a".to_owned(), "b".to_owned()]]);
}

#[test]
fn shared_mythic_rows_count_once_per_copy() {
    // Two decks each need 2 copies of the same missing mythic: the shared
    // rows are 2, not 4, so a budget of 2 admits both decks.
    let mut c = Collection::default();
    c.insert(card(0, "Y", Rarity::Mythic, "s"));
    let mut r = Roster::new();
    r.add_deck(deck("a", &[("Y", 2)]));
    r.add_deck(deck("b", &[("Y", 2)]));
    let rec = CraftRecommender::new(0, 2, false, None, &r, &c);
    assert_eq!(
        rec.recommend().unwrap(),
        vec![vec!["a".to_owned(), "b".to_owned()]]
    );
    // With a budget of 1 neither deck individually fits: no deck is relevant.
    let rec = CraftRecommender::new(0, 1, false, None, &r, &c);
    assert_eq!(rec.recommend().unwrap(), vec![Vec::<String>::new()]);
}

#[test]
fn raising_the_budget_never_loses_decks() {
    let mut c = Collection::default();
    c.insert(card(0, "X", Rarity::Rare, "s"));
    c.insert(card(0, "Z", Rarity::Rare, "s"));
    let mut r = Roster::new();
    r.add_deck(deck("a", &[("X", 1)]));
    r.add_deck(deck("b", &[("Z", 1)]));
    let small = CraftRecommender::new(1, 0, false, None, &r, &c).recommend().unwrap();
    // only one of the two distinct rares fits the budget
    assert_eq!(small, vec![vec!["a".to_owned()], vec!["b".to_owned()]]);
    let large = CraftRecommender::new(2, 0, false, None, &r, &c).recommend().unwrap();
    assert_eq!(large, vec![vec!["a".to_owned(), "b".to_owned()]]);
    let max_small = small.iter().map(|s| s.len()).max().unwrap();
    let max_large = large.iter().map(|s| s.len()).max().unwrap();
    assert!(max_small <= max_large);
}

#[test]
fn infeasible_starting_selection_terminates_and_is_excluded() {
    let mut c = Collection::default();
    c.insert(card(0, "X", Rarity::Rare, "s"));
    c.insert(card(0, "B1", Rarity::Rare, "s"));
    c.insert(card(0, "B2", Rarity::Rare, "s"));
    c.insert(card(0, "B3", Rarity::Rare, "s"));
    let mut r = Roster::new();
    r.add_deck(deck("big", &[("B1", 4), ("B2", 4), ("B3", 4)]));
    r.add_deck(deck("small", &[("X", 1)]));
    let rec = CraftRecommender::new(
        2,
        0,
        false,
        Some(vec!["big".to_owned()]),
        &r,
        &c,
    );
    let result = rec.recommend().unwrap();
    assert_eq!(result, vec![vec!["small".to_owned()]]);
    for set in &result {
        assert!(!set.contains(&"big".to_owned()));
    }
}

#[test]
fn decks_missing_nothing_relevant_are_filtered_out() {
    let mut c = Collection::default();
    c.insert(card(4, "Owned", Rarity::Rare, "s"));
    c.insert(card(0, "X", Rarity::Rare, "s"));
    let mut r = Roster::new();
    r.add_deck(deck("complete", &[("Owned", 4)]));
    r.add_deck(deck("needy", &[("X", 1)]));
    let rec = CraftRecommender::new(5, 5, false, None, &r, &c);
    assert_eq!(rec.recommend().unwrap(), vec![vec!["needy".to_owned()]]);
}

#[test]
fn recommend_propagates_unknown_cards() {
    let c = Collection::default();
    let mut r = Roster::new();
    r.add_deck(deck("a", &[("Ghost", 1)]));
    match CraftRecommender::new(1, 1, false, None, &r, &c).recommend() {
        Err(TrackerError::UnknownCard(n)) => assert_eq!(n, "Ghost"),
        other => panic!("expected UnknownCard, got {other:?}"),
    }
}

#[test]
fn relevant_decks_checks_both_budgets() {
    let mut c = Collection::default();
    c.insert(card(0, "X", Rarity::Rare, "s"));
    c.insert(card(0, "Y", Rarity::Mythic, "s"));
    let mut r = Roster::new();
    r.add_deck(deck("two_rares", &[("X", 2)]));
    r.add_deck(deck("one_mythic", &[("Y", 1)]));
    let rec = CraftRecommender::new(1, 1, false, None, &r, &c);
    let rel = rec.relevant_decks().unwrap();
    let names: Vec<&str> = rel.iter().map(|d| d.name.as_str()).collect();
    assert_eq!(names, vec!["one_mythic"]);
}

#[test]
fn a_deck_alone_is_selected_when_budgets_allow_it() {
    let mut c = Collection::default();
    c.insert(card(0, "X", Rarity::Rare, "s"));
    let mut r = Roster::new();
    r.add_deck(deck("solo", &[("X", 3)]));
    let rec = CraftRecommender::new(3, 0, false, None, &r, &c);
    assert_eq!(rec.recommend().unwrap(), vec![vec!["solo".to_owned()]]);
}

#[test]
fn an_empty_roster_yields_the_empty_selection() {
    let c = Collection::default();
    let r = Roster::new();
    let rec = CraftRecommender::new(5, 5, false, None, &r, &c);
    assert_eq!(rec.recommend().unwrap(), vec![Vec::<String>::new()]);
}
