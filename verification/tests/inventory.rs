use detr::collection::Collection;
use detr::inventory::{Inventory, Score};
use detr::{CardData, Deck, Rarity, Ratio, TrackerError, Wildcards};

fn card(amount: u8, name: &str, rarity: Rarity, set: &str) -> CardData {
    CardData { amount, name: name.to_owned(), rarity, set: set.to_owned() }
}

fn deck(name: &str, main: &[(&str, u8)]) -> Deck {
    Deck::new(
        name,
        None,
        main.iter().map(|e| e.1).collect(),
        main.iter().map(|e| e.0.to_owned()).collect(),
        vec![],
        vec![],
    )
    .unwrap()
}

fn wallet(c: u16, u: u16, r: u16, m: u16) -> Wildcards {
    Wildcards { common: c, uncommon: u, rare: r, mythic: m }
}

#[test]
fn card_amount_sums_printings_and_clamps_at_four() {
    let mut c = Collection::default();
    c.insert(card(2, "X", Rarity::Rare, "s1"));
    c.insert(card(3, "X", Rarity::Rare, "s2"));
    c.insert(card(1, "Y", Rarity::Common, "s1"));
    let inv = Inventory::new(c, &wallet(0, 0, 0, 0));
    assert_eq!(inv.card_amount("X").unwrap(), 4);
    assert_eq!(inv.card_amount("Y").unwrap(), 1);
    assert!(inv.card_amount("Ghost").is_err());
}

#[test]
fn cheapest_rarity_follows_the_coefficient_order() {
    let mut c = Collection::default();
    c.insert(card(1, "Dual", Rarity::Rare, "s1"));
    c.insert(card(1, "Dual", Rarity::Common, "s2"));
    // a common-rich wallet makes commons cheap
    let inv = Inventory::new(c.clone(), &wallet(9, 0, 0, 0));
    assert_eq!(inv.cheapest_rarity("Dual").unwrap(), Rarity::Common);
    // a rare-rich wallet makes the rare printing cheaper
    let inv = Inventory::new(c, &wallet(0, 0, 9, 0));
    assert_eq!(inv.cheapest_rarity("Dual").unwrap(), Rarity::Rare);
}

#[test]
fn lands_cost_nothing_and_commons_cost_the_coefficient() {
    // wallet {common: 0, uncommon: 0, rare: 5, mythic: 1}
    let mut c = Collection::default();
    c.insert(card(4, "Plains", Rarity::Common, "s"));
    c.insert(card(1, "Opt", Rarity::Common, "s"));
    let inv = Inventory::new(c, &wallet(0, 0, 5, 1));
    let land_cost = inv.card_cost("Plains").unwrap();
    assert_eq!(land_cost.num, 0);
    let common_cost = inv.card_cost("Opt").unwrap();
    assert_eq!(common_cost, Ratio { num: 6, den: 1 });
}

#[test]
fn cheapest_rarity_fails_without_a_craftable_or_land_printing() {
    let mut c = Collection::default();
    c.insert(card(1, "Odd", Rarity::Unknown, "s"));
    let inv = Inventory::new(c, &wallet(1, 1, 1, 1));
    assert!(matches!(
        inv.cheapest_rarity("Odd"),
        Err(TrackerError::UnknownCard(n)) if n == "Odd"
    ));
}

#[test]
fn card_cost_considering_deck_rewards_near_completion() {
    let mut c = Collection::default();
    c.insert(card(1, "Opt", Rarity::Common, "s"));
    let mut inv = Inventory::new(c, &wallet(0, 0, 5, 1));
    // missing 3 of 4: cost*3 + 4/3 = 18 + 4/3 = 58/3
    assert_eq!(
        inv.card_cost_considering_deck("Opt", 4).unwrap(),
        Ratio { num: 58, den: 3 }
    );
    // requirement already met
    assert_eq!(
        inv.card_cost_considering_deck("Opt", 1).unwrap(),
        Ratio { num: 0, den: 1 }
    );
}

#[test]
fn deck_cost_is_exact_and_floored_at_one() {
    // wallet {common: 1}: total 1; rare coefficient 1/1, denominator product 2
    let mut c = Collection::default();
    c.insert(card(0, "R", Rarity::Rare, "s"));
    let mut inv = Inventory::new(c.clone(), &wallet(1, 0, 0, 0));
    // 10 missing rares: total 10, closeness bound 4*1 + 1 = 5, score 5 = 10/2
    let d = deck("d", &[("R", 10)]);
    assert_eq!(inv.deck_cost(&d, false).unwrap(), Score { num: 10, den: 2 });
    // 5 missing rares: 5 - 5 = 0 <= 1, floored at 1
    let d = deck("d", &[("R", 5)]);
    assert_eq!(inv.deck_cost(&d, false).unwrap(), Score { num: 2, den: 2 });
}

#[test]
fn deck_cost_is_zero_for_a_complete_deck() {
    let mut c = Collection::default();
    c.insert(card(4, "R", Rarity::Rare, "s"));
    let mut inv = Inventory::new(c, &wallet(1, 2, 3, 4));
    let d = deck("d", &[("R", 4)]);
    assert_eq!(inv.deck_cost(&d, false).unwrap(), Score { num: 0, den: 1 });
}

#[test]
fn cheapest_version_returns_the_first_printing_at_that_rarity() {
    let mut c = Collection::default();
    c.insert(card(1, "Dual", Rarity::Rare, "r1"));
    c.insert(card(2, "Dual", Rarity::Common, "c1"));
    c.insert(card(3, "Dual", Rarity::Common, "c2"));
    let inv = Inventory::new(c, &wallet(9, 0, 0, 0));
    let version = inv.cheapest_version("Dual").unwrap();
    assert_eq!(version, &(2, Rarity::Common, "c1".to_owned()));
}

#[test]
fn update_collection_merges_fetched_data() {
    let mut c = Collection::default();
    c.insert(card(1, "Opt", Rarity::Common, "xln"));
    let mut inv = Inventory::new(c, &wallet(0, 0, 0, 0));
    let mut fetched = Collection::default();
    fetched.insert(card(4, "Opt", Rarity::Common, "xln"));
    inv.update_collection(fetched);
    assert_eq!(inv.card_amount("Opt").unwrap(), 4);
}

#[test]
fn coefficient_getters_expose_the_wallet_economy() {
    let c = Collection::default();
    let inv = Inventory::new(c, &wallet(0, 0, 5, 1));
    assert_eq!(inv.common_coeff(), Ratio { num: 6, den: 1 });
    assert_eq!(inv.uncommon_coeff(), Ratio { num: 6, den: 1 });
    assert_eq!(inv.rare_coeff(), Ratio { num: 6, den: 6 });
    assert_eq!(inv.mythic_coeff(), Ratio { num: 6, den: 2 });
    assert_eq!(*inv.wildcard_coeffs(), wallet(0, 0, 5, 1).coefficients());
}

#[test]
fn missing_cards_reports_through_the_inventory() {
    let mut c = Collection::default();
    c.insert(card(1, "X", Rarity::Rare, "s"));
    let inv = Inventory::new(c, &wallet(0, 0, 0, 0));
    let d = deck("d", &[("X", 3)]);
    let ms = inv.missing_cards(&d, false).unwrap();
    assert_eq!(ms, vec![("X".to_owned(), 2, Rarity::Rare, "s".to_owned())]);
}

#[test]
fn deck_cost_prices_at_the_coefficient_cheapest_rarity() {
    // rare-rich wallet: the rare printing (9/10) is cheaper than the common (9/1)
    let mut c = Collection::default();
    c.insert(card(0, "Dual", Rarity::Common, "c1"));
    c.insert(card(0, "Dual", Rarity::Rare, "r1"));
    let mut inv = Inventory::new(c, &wallet(0, 0, 9, 0));
    // 400 missing copies priced at 9/10 each: 360 - closeness 63/5 = 347.4
    let d = deck("d", &[("Dual", 200), ("Dual", 200)]);
    assert_eq!(inv.deck_cost(&d, false).unwrap(), Score { num: 3474, den: 10 });
}

#[test]
fn deck_cost_fails_on_a_card_with_no_usable_rarity() {
    let mut c = Collection::default();
    c.insert(card(1, "Odd", Rarity::Unknown, "s"));
    let mut inv = Inventory::new(c, &wallet(1, 1, 1, 1));
    let d = deck("d", &[("Odd", 1)]);
    assert!(matches!(
        inv.deck_cost(&d, false),
        Err(TrackerError::UnknownCard(n)) if n == "Odd"
    ));
}

#[test]
fn card_cost_fails_exactly_like_cheapest_rarity() {
    let mut c = Collection::default();
    c.insert(card(1, "Odd", Rarity::Unknown, "s"));
    let mut inv = Inventory::new(c, &wallet(1, 1, 1, 1));
    assert!(matches!(
        inv.card_cost("Odd"),
        Err(TrackerError::UnknownCard(n)) if n == "Odd"
    ));
    assert!(inv.card_cost("Absent").is_err());
    assert!(inv.card_cost_considering_deck("Odd", 4).is_err());
    assert!(inv.cheapest_version("Odd").is_err());
}
