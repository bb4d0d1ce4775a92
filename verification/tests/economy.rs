use detr::{Rarity, Ratio, Wildcards};

fn wallet(c: u16, u: u16, r: u16, m: u16) -> Wildcards {
    Wildcards { common: c, uncommon: u, rare: r, mythic: m }
}

#[test]
fn coefficients_follow_the_scarcity_formula() {
    let w = wallet(0, 0, 5, 1);
    let c = w.coefficients();
    assert_eq!(c.common, Ratio { num: 6, den: 1 });
    assert_eq!(c.uncommon, Ratio { num: 6, den: 1 });
    assert_eq!(c.rare, Ratio { num: 6, den: 6 });
    assert_eq!(c.mythic, Ratio { num: 6, den: 2 });
}

#[test]
fn zero_owned_rarity_costs_the_whole_total() {
    let w = wallet(0, 3, 2, 1);
    let c = w.coefficients();
    assert_eq!(c.common, Ratio { num: 6, den: 1 });
    assert_eq!(w.total(), 6);
}

#[test]
fn coefficients_are_positive_for_nonempty_wallets() {
    let w = wallet(1, 2, 3, 4);
    let c = w.coefficients();
    for r in [c.common, c.uncommon, c.rare, c.mythic] {
        assert!(r.num > 0);
        assert!(r.den > 0);
    }
}

#[test]
fn select_reads_the_wallet_and_lands_are_free() {
    let w = wallet(7, 8, 9, 10);
    assert_eq!(w.select(&Rarity::Common), 7);
    assert_eq!(w.select(&Rarity::Uncommon), 8);
    assert_eq!(w.select(&Rarity::Rare), 9);
    assert_eq!(w.select(&Rarity::Mythic), 10);
    assert_eq!(w.select(&Rarity::Land), 0);
    assert_eq!(w.select(&Rarity::Unknown), 0);
    let c = w.coefficients();
    assert_eq!(c.select(&Rarity::Land), Ratio { num: 0, den: 1 });
    assert_eq!(c.select(&Rarity::Unknown), Ratio { num: 0, den: 1 });
}

#[test]
fn order_sorts_cheapest_first_with_land_last() {
    let w = wallet(0, 0, 5, 1);
    let c = w.coefficients();
    // rare = 1, mythic = 3, common = uncommon = 6; ties in enumeration order
    let order = c.order();
    assert_eq!(
        order,
        [Rarity::Rare, Rarity::Mythic, Rarity::Common, Rarity::Uncommon, Rarity::Land]
    );
}

#[test]
fn order_breaks_full_ties_in_enumeration_order() {
    let w = Wildcards::default();
    let order = w.coefficients().order();
    assert_eq!(
        order,
        [Rarity::Common, Rarity::Uncommon, Rarity::Rare, Rarity::Mythic, Rarity::Land]
    );
}
