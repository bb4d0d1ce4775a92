use vstd::prelude::*;
use crate::Rarity;
use crate::TrackerError;
use crate::collection::{
    Collection, MapV, RowV, first_key_idx, lookup_simplified, sum_amounts, missing_spec,
    first_unknown, lemma_first_unknown, unknown_err, view_rows, view_missing, merge_spec,
};
use crate::deck::{Deck, lemma_coalesce_len, MAX_BOARD};
use crate::economy::{Ratio, Wildcards, WildcardCoefficients, ratio_eqv};
use crate::names::simplified_spec;

verus! {

/// `x * y` stays within the product of the bounds.
proof fn lemma_mul_le(x: int, y: int, mx: int, my: int)
    by (nonlinear_arith)
    requires
        0 <= x <= mx,
        0 <= y <= my,
    ensures
        0 <= x * y <= mx * my,
{
}

/// Some printing of the group has this rarity.
pub open spec fn present(g: Seq<RowV>, r: Rarity) -> bool {
    exists|i: int| 0 <= i < g.len() && (#[trigger] g[i]).1 == r
}

/// What `cheapest_rarity` returns for a card group: the cheapest craftable
/// rarity present (by coefficient, ties in enumeration order), or `Land`
/// when no craftable printing is owned but a land printing is.
pub open spec fn cheapest_ok(c: WildcardCoefficients, g: Seq<RowV>, r: Rarity) -> bool {
    if exists|x: Rarity| x.craftable() && present(g, x) {
        r.craftable() && present(g, r) && forall|x: Rarity|
            x.craftable() && present(g, x) ==> c.key_le(r, x)
    } else {
        r == Rarity::Land && present(g, Rarity::Land)
    }
}

/// The group owns some printing the economy can price: a craftable rarity
/// or a land.
pub open spec fn has_usable(g: Seq<RowV>) -> bool {
    exists|x: Rarity| (x.craftable() || x == Rarity::Land) && present(g, x)
}

/// The rarity `cheapest_rarity` picks for a group, as a function of the
/// group: the witness of `cheapest_ok`, which is unique.
pub open spec fn cheapest_of(c: WildcardCoefficients, g: Seq<RowV>) -> Rarity {
    choose|r: Rarity| cheapest_ok(c, g, r)
}

/// At most one rarity satisfies `cheapest_ok`: the coefficient key with its
/// enumeration-order tie-break is antisymmetric.
pub proof fn lemma_cheapest_unique(c: WildcardCoefficients, g: Seq<RowV>, r1: Rarity, r2: Rarity)
    requires
        cheapest_ok(c, g, r1),
        cheapest_ok(c, g, r2),
    ensures
        r1 == r2,
{
    if exists|x: Rarity| x.craftable() && present(g, x) {
        assert(c.key_le(r1, r2));
        assert(c.key_le(r2, r1));
        assert(r1.ordinal_spec() == r2.ordinal_spec());
    }
}

/// First required card whose group offers no usable rarity, or `-1` when
/// every required card can be priced.
pub open spec fn first_unusable(m: MapV, cards: Seq<(Seq<char>, int)>) -> int
    decreases cards.len(),
{
    if cards.len() == 0 {
        -1
    } else if !has_usable(lookup_simplified(m, cards[0].0)) {
        0
    } else {
        let r = first_unusable(m, cards.drop_first());
        if r < 0 {
            -1
        } else {
            1 + r
        }
    }
}

pub proof fn lemma_first_unusable(m: MapV, cards: Seq<(Seq<char>, int)>)
    ensures
        first_unusable(m, cards) == -1 ==> forall|j: int|
            0 <= j < cards.len() ==> has_usable(lookup_simplified(m, (#[trigger] cards[j]).0)),
        first_unusable(m, cards) != -1 ==> {
            let i = first_unusable(m, cards);
            &&& 0 <= i < cards.len()
            &&& !has_usable(lookup_simplified(m, cards[i].0))
            &&& forall|j: int|
                0 <= j < i ==> has_usable(lookup_simplified(m, (#[trigger] cards[j]).0))
        },
    decreases cards.len(),
{
    if cards.len() == 0 {
    } else if !has_usable(lookup_simplified(m, cards[0].0)) {
    } else {
        let t = cards.drop_first();
        lemma_first_unusable(m, t);
        let r = first_unusable(m, t);
        assert(forall|j: int| 0 <= j < t.len() ==> t[j] == cards[j + 1]);
        if r < 0 {
            assert forall|j: int|
                0 <= j < cards.len() implies has_usable(
                lookup_simplified(m, (#[trigger] cards[j]).0),
            ) by {
                if j > 0 {
                    assert(t[j - 1] == cards[j]);
                }
            }
        } else {
            assert(t[r] == cards[1 + r]);
            assert forall|j: int|
                0 <= j < 1 + r implies has_usable(
                lookup_simplified(m, (#[trigger] cards[j]).0),
            ) by {
                if j > 0 {
                    assert(t[j - 1] == cards[j]);
                }
            }
        }
    }
}

/// The exact value of a deck's cost score, over the common denominator of
/// the four coefficients.
pub open spec fn den_prod(c: WildcardCoefficients) -> int {
    c.common.den * c.uncommon.den * c.rare.den * c.mythic.den
}

/// `den_prod(c) / den(rarity)`, written as the product of the other three
/// denominators; for the free tiers the full product (their numerator is 0).
pub open spec fn mult_of(c: WildcardCoefficients, r: Rarity) -> int {
    match r {
        Rarity::Common => c.uncommon.den * c.rare.den * c.mythic.den,
        Rarity::Uncommon => c.common.den * c.rare.den * c.mythic.den,
        Rarity::Rare => c.common.den * c.uncommon.den * c.mythic.den,
        Rarity::Mythic => c.common.den * c.uncommon.den * c.rare.den,
        Rarity::Land => den_prod(c),
        Rarity::Unknown => den_prod(c),
    }
}

/// Numerator of `sum(missing_i * card_cost(name_i))` over `den_prod(c)`:
/// each card is priced at its coefficient-cheapest owned rarity.
pub open spec fn sum_terms(
    c: WildcardCoefficients,
    m: MapV,
    ms: Seq<(Seq<char>, int, Rarity, Seq<char>)>,
) -> int
    decreases ms.len(),
{
    if ms.len() == 0 {
        0
    } else {
        let rr = cheapest_of(c, lookup_simplified(m, ms.last().0));
        sum_terms(c, m, ms.drop_last()) + ms.last().1 * c.select_spec(rr).num * mult_of(c, rr)
    }
}

/// The deck's cost score as an exact fraction: the summed missing-copy cost,
/// less the closeness bound `4*rare + mythic`, floored at 1; exactly 0 for a
/// deck whose missing cost is 0.
pub open spec fn deck_cost_spec(m: MapV, c: WildcardCoefficients, deck: Deck, isb: bool) -> (
    int,
    int,
) {
    let ms = missing_spec(m, deck.cards_spec(isb));
    let total = sum_terms(c, m, ms);
    let d = den_prod(c);
    let cb = 4 * c.rare.num * mult_of(c, Rarity::Rare) + c.mythic.num * mult_of(c, Rarity::Mythic);
    if total == 0 {
        (0, 1)
    } else if total - cb <= d {
        (d, d)
    } else {
        (total - cb, d)
    }
}

/// A deck cost score: an exact non-negative fraction in 128 bits.
#[derive(Debug, Clone, Copy, PartialEq, Eq, Structural)]
pub struct Score {
    pub num: u128,
    pub den: u128,
}

/// How many copies the wallet economy counts as owned: the total across
/// printings, clamped to the four copies a deck can play.
pub open spec fn card_amount_spec(m: MapV, name: Seq<char>) -> int {
    let owned = sum_amounts(lookup_simplified(m, name));
    if owned > 4 {
        4
    } else {
        owned
    }
}

/// The collection joined with the wildcard economy: everything needed to
/// price missing cards and rank decks by closeness to completion.
#[derive(Debug)]
pub struct Inventory {
    pub collection: Collection,
    pub coeffs: WildcardCoefficients,
}

impl Inventory {
    pub open spec fn wf(self) -> bool {
        self.collection.wf() && self.coeffs.bounded()
    }

    /// Build an inventory from a loaded collection and the wallet.
    pub fn new(collection: Collection, wildcards: &Wildcards) -> (r: Inventory)
        requires
            collection.wf(),
        ensures
            r.wf(),
            r.collection == collection,
            r.coeffs == wildcards.coefficients_spec(),
    {
        let coeffs = wildcards.coefficients();
        Inventory { collection, coeffs }
    }

    /// Owned copies of the card, summed over printings and clamped to 4.
    #[verifier::loop_isolation(false)]
    pub fn card_amount(&self, card_name: &str) -> (r: Result<u8, TrackerError>)
        requires
            self.wf(),
        ensures
            ({
                let m = self.collection.view_spec();
                match r {
                    Ok(a) => first_key_idx(m, simplified_spec(card_name@)) >= 0 && a as int
                        == card_amount_spec(m, card_name@),
                    Err(e) => first_key_idx(m, simplified_spec(card_name@)) < 0 && (
                    e matches TrackerError::UnknownCard(n) && n@ == simplified_spec(card_name@)),
                }
            }),
    {
        let ghost m = self.collection.view_spec();
        let g = match self.collection.get(card_name) {
            Ok(g) => g,
            Err(e) => {
                return Err(e);
            },
        };
        let ghost gv = view_rows(g@);
        proof {
            assert(gv == lookup_simplified(m, card_name@));
        }
        let glen: usize = g.len();
        let mut owned: u128 = 0;
        let mut j: usize = 0;
        while j < glen
            invariant
                0 <= j <= glen,
                glen == gv.len(),
                owned as int == sum_amounts(gv.take(j as int)),
                owned as int <= 255 * (j as int),
            decreases glen - j,
        {
            proof {
                assert(gv.take(j + 1 as int).drop_last() =~= gv.take(j as int));
                assert(gv.take(j + 1 as int).last() == gv[j as int]);
            }
            owned = owned + g[j].0 as u128;
            j = j + 1;
        }
        proof {
            assert(gv.take(glen as int) =~= gv);
        }
        if owned > 4 {
            Ok(4)
        } else {
            Ok(owned as u8)
        }
    }

    /// The cheapest rarity at which the card can be crafted, per
    /// `cheapest_ok`. `UnknownCard` when the ledger lacks the card or owns
    /// it at no craftable or land rarity.
    #[verifier::loop_isolation(false)]
    pub fn cheapest_rarity(&self, card_name: &str) -> (r: Result<Rarity, TrackerError>)
        requires
            self.wf(),
        ensures
            ({
                let m = self.collection.view_spec();
                let g = lookup_simplified(m, card_name@);
                match r {
                    Ok(rr) => first_key_idx(m, simplified_spec(card_name@)) >= 0 && cheapest_ok(
                        self.coeffs,
                        g,
                        rr,
                    ),
                    Err(e) => (first_key_idx(m, simplified_spec(card_name@)) < 0 || !has_usable(
                        g,
                    )) && (e matches TrackerError::UnknownCard(n) && n@ == simplified_spec(
                        card_name@,
                    )),
                }
            }),
    {
        let ghost m = self.collection.view_spec();
        let g = match self.collection.get(card_name) {
            Ok(g) => g,
            Err(e) => {
                return Err(e);
            },
        };
        let ghost gv = view_rows(g@);
        proof {
            assert(gv == lookup_simplified(m, card_name@));
        }
        let order: [Rarity; 5] = self.coeffs.order();
        let mut idx: usize = 0;
        while idx < 5
            invariant
                0 <= idx <= 5,
                forall|p: int| 0 <= p < idx ==> !present(gv, order@[p]),
                order@[4] == Rarity::Land,
                forall|i: int| 0 <= i < 4 ==> (#[trigger] order@[i]).craftable(),
                forall|i: int, j2: int|
                    0 <= i < j2 < 4 ==> self.coeffs.key_le(order@[i], order@[j2]),
                forall|x: Rarity|
                    x.craftable() ==> exists|i: int| 0 <= i < 4 && order@[i] == x,
            decreases 5 - idx,
        {
            let cand: Rarity = order[idx];
            if group_has_rarity(g, cand) {
                proof {
                    assert(present(gv, cand));
                    if cand.craftable() {
                        assert forall|x: Rarity|
                            x.craftable() && present(gv, x) implies self.coeffs.key_le(
                            cand,
                            x,
                        ) by {
                            let i2 = choose|i2: int| 0 <= i2 < 4 && order@[i2] == x;
                            if i2 < idx {
                                assert(!present(gv, order@[i2]));
                            } else if i2 == idx {
                                assert(ratio_eqv(
                                    self.coeffs.select_spec(cand),
                                    self.coeffs.select_spec(cand),
                                ));
                            } else {
                                assert(self.coeffs.key_le(order@[idx as int], order@[i2]));
                            }
                        }
                        assert(cheapest_ok(self.coeffs, gv, cand));
                    } else {
                        assert(cand == Rarity::Land);
                        assert forall|x: Rarity| x.craftable() implies !present(gv, x) by {
                            let i2 = choose|i2: int| 0 <= i2 < 4 && order@[i2] == x;
                            assert(!present(gv, order@[i2]));
                        }
                        assert(cheapest_ok(self.coeffs, gv, cand));
                    }
                }
                return Ok(cand);
            }
            idx = idx + 1;
        }
        proof {
            assert forall|x: Rarity|
                (x.craftable() || x == Rarity::Land) implies !present(gv, x) by {
                if x.craftable() {
                    let i2 = choose|i2: int| 0 <= i2 < 4 && order@[i2] == x;
                    assert(!present(gv, order@[i2]));
                } else {
                    assert(!present(gv, order@[4]));
                }
            }
            if has_usable(gv) {
                let x = choose|x: Rarity| (x.craftable() || x == Rarity::Land) && present(gv, x);
                assert(false);
            }
        }
        let key: String = crate::names::simplified_name(card_name).to_owned();
        Err(TrackerError::UnknownCard(key))
    }

    /// The coefficient of the card's cheapest rarity. `UnknownCard` exactly
    /// when the ledger lacks the card or owns it at no usable rarity.
    pub fn card_cost(&self, card_name: &str) -> (r: Result<Ratio, TrackerError>)
        requires
            self.wf(),
        ensures
            ({
                let m = self.collection.view_spec();
                let g = lookup_simplified(m, card_name@);
                match r {
                    Ok(c) => first_key_idx(m, simplified_spec(card_name@)) >= 0 && exists|
                        rr: Rarity,
                    |
                        #[trigger] cheapest_ok(self.coeffs, g, rr) && c
                            == self.coeffs.select_spec(rr),
                    Err(e) => (first_key_idx(m, simplified_spec(card_name@)) < 0 || !has_usable(
                        g,
                    )) && (e matches TrackerError::UnknownCard(n) && n@ == simplified_spec(
                        card_name@,
                    )),
                }
            }),
    {
        let rr = match self.cheapest_rarity(card_name) {
            Ok(rr) => rr,
            Err(e) => {
                return Err(e);
            },
        };
        Ok(self.coeffs.select(&rr))
    }

    /// The importance of a card for a deck that plays `in_deck_amount`
    /// copies: 0 when the requirement is already met, otherwise
    /// `cost * missing + 4/missing`, so that nearly-complete cards rank
    /// higher among suggestions. `UnknownCard` exactly when the ledger lacks
    /// the card, or copies are missing and no usable rarity is owned.
    pub fn card_cost_considering_deck(&mut self, card_name: &str, in_deck_amount: u8) -> (r: Result<
        Ratio,
        TrackerError,
    >)
        requires
            old(self).wf(),
        ensures
            *final(self) == *old(self),
            ({
                let m = old(self).collection.view_spec();
                let g = lookup_simplified(m, card_name@);
                let missing = in_deck_amount - card_amount_spec(m, card_name@);
                match r {
                    Ok(c) => first_key_idx(m, simplified_spec(card_name@)) >= 0 && if missing
                        <= 0 {
                        c == (Ratio { num: 0u64, den: 1u64 })
                    } else {
                        exists|rr: Rarity|
                            #[trigger] cheapest_ok(old(self).coeffs, g, rr) && {
                                let cost = old(self).coeffs.select_spec(rr);
                                c == (Ratio {
                                    num: (cost.num * missing * missing + 4 * cost.den) as u64,
                                    den: (cost.den * missing) as u64,
                                })
                            }
                    },
                    Err(e) => (first_key_idx(m, simplified_spec(card_name@)) < 0 || (missing > 0
                        && !has_usable(g))) && (e matches TrackerError::UnknownCard(n) && n@
                        == simplified_spec(card_name@)),
                }
            }),
    {
        let amount: u8 = match self.card_amount(card_name) {
            Ok(a) => a,
            Err(e) => {
                return Err(e);
            },
        };
        let missing: u8 = if in_deck_amount >= amount {
            in_deck_amount - amount
        } else {
            0
        };
        if missing == 0 {
            return Ok(Ratio { num: 0, den: 1 });
        }
        let cost: Ratio = match self.card_cost(card_name) {
            Ok(c) => c,
            Err(e) => {
                return Err(e);
            },
        };
        proof {
            assert(cost.num <= 0x3fffc && cost.den <= 0x10000 && cost.den >= 1);
            lemma_mul_le(cost.num as int, missing as int, 0x3fffc, 255);
            lemma_mul_le(cost.num as int * missing as int, missing as int, 66845700, 255);
            lemma_mul_le(cost.den as int, missing as int, 0x10000, 255);
        }
        let num: u64 = cost.num * missing as u64 * missing as u64 + 4 * cost.den;
        let den: u64 = cost.den * missing as u64;
        Ok(Ratio { num, den })
    }

    /// The deck's cost score, per `deck_cost_spec`: the exact summed cost of
    /// its missing copies, each priced at its card's coefficient-cheapest
    /// owned rarity, less the closeness bound, floored at 1. Missing amounts
    /// are the ledger's report, `max(0, required - owned)`, with the owned
    /// total unclamped. `UnknownCard` for the first required card the ledger
    /// lacks, or failing that, for the first one owned at no usable rarity.
    #[verifier::loop_isolation(false)]
    #[verifier::rlimit(100)]
    pub fn deck_cost(&mut self, deck: &Deck, ignore_sideboard: bool) -> (r: Result<
        Score,
        TrackerError,
    >)
        requires
            old(self).wf(),
            deck.wf(),
        ensures
            *final(self) == *old(self),
            ({
                let m = old(self).collection.view_spec();
                let cards = deck.cards_spec(ignore_sideboard);
                match r {
                    Ok(sc) => first_unknown(m, cards) == -1 && first_unusable(m, cards) == -1 && {
                        let v = deck_cost_spec(m, old(self).coeffs, *deck, ignore_sideboard);
                        sc.num as int == v.0 && sc.den as int == v.1
                    },
                    Err(e) => if first_unknown(m, cards) >= 0 {
                        unknown_err(m, cards, e)
                    } else {
                        &&& first_unusable(m, cards) >= 0
                        &&& e matches TrackerError::UnknownCard(n) && n@ == simplified_spec(
                            cards[first_unusable(m, cards)].0,
                        )
                    },
                }
            }),
    {
        let ghost m = self.collection.view_spec();
        let ghost c = self.coeffs;
        let ghost entries = deck.entries(ignore_sideboard);
        let ghost cardsv = deck.cards_spec(ignore_sideboard);
        let ms = match self.collection.missing(deck, ignore_sideboard) {
            Ok(v) => v,
            Err(e) => {
                return Err(e);
            },
        };
        let ghost msv = view_missing(ms@);
        proof {
            lemma_coalesce_len(entries);
            lemma_first_unknown(m, cardsv);
            lemma_first_unusable(m, cardsv);
            assert(msv.len() <= 2 * MAX_BOARD as int);
            assert(c.bounded());
            lemma_mul_le(c.common.den as int, c.uncommon.den as int, 0x10000, 0x10000);
            lemma_mul_le(
                c.common.den as int * c.uncommon.den as int,
                c.rare.den as int,
                0x100000000,
                0x10000,
            );
            lemma_mul_le(
                c.common.den as int * c.uncommon.den as int * c.rare.den as int,
                c.mythic.den as int,
                0x1000000000000,
                0x10000,
            );
            lemma_mul_le(c.uncommon.den as int, c.rare.den as int, 0x10000, 0x10000);
            lemma_mul_le(
                c.uncommon.den as int * c.rare.den as int,
                c.mythic.den as int,
                0x100000000,
                0x10000,
            );
            lemma_mul_le(c.common.den as int, c.rare.den as int, 0x10000, 0x10000);
            lemma_mul_le(
                c.common.den as int * c.rare.den as int,
                c.mythic.den as int,
                0x100000000,
                0x10000,
            );
            lemma_mul_le(
                c.common.den as int * c.uncommon.den as int,
                c.mythic.den as int,
                0x100000000,
                0x10000,
            );
        }
        let mult_c: u128 = self.coeffs.uncommon.den as u128 * self.coeffs.rare.den as u128
            * self.coeffs.mythic.den as u128;
        let mult_u: u128 = self.coeffs.common.den as u128 * self.coeffs.rare.den as u128
            * self.coeffs.mythic.den as u128;
        let mult_r: u128 = self.coeffs.common.den as u128 * self.coeffs.uncommon.den as u128
            * self.coeffs.mythic.den as u128;
        let mult_m: u128 = self.coeffs.common.den as u128 * self.coeffs.uncommon.den as u128
            * self.coeffs.rare.den as u128;
        let d: u128 = self.coeffs.common.den as u128 * self.coeffs.uncommon.den as u128
            * self.coeffs.rare.den as u128 * self.coeffs.mythic.den as u128;
        proof {
            assert(mult_c as int == mult_of(c, Rarity::Common));
            assert(mult_u as int == mult_of(c, Rarity::Uncommon));
            assert(mult_r as int == mult_of(c, Rarity::Rare));
            assert(mult_m as int == mult_of(c, Rarity::Mythic));
            assert(d as int == den_prod(c));
            assert(mult_c <= 0x1000000000000 && mult_u <= 0x1000000000000 && mult_r
                <= 0x1000000000000 && mult_m <= 0x1000000000000);
            assert(d as int == den_prod(c) <= 0x10000000000000000) by {
                lemma_mul_le(
                    c.common.den as int * c.uncommon.den as int * c.rare.den as int,
                    c.mythic.den as int,
                    0x1000000000000,
                    0x10000,
                );
            }
            assert(d >= 1) by {
                lemma_mul_ge_one(
                    c.common.den as int,
                    c.uncommon.den as int,
                    c.rare.den as int,
                    c.mythic.den as int,
                );
            }
        }
        let n: usize = ms.len();
        let mut acc: u128 = 0;
        let mut i: usize = 0;
        while i < n
            invariant
                0 <= i <= n,
                self == old(self),
                n == msv.len(),
                msv == view_missing(ms@),
                forall|p: int|
                    0 <= p < i ==> has_usable(lookup_simplified(m, (#[trigger] cardsv[p]).0)),
                acc as int == sum_terms(c, m, msv.take(i as int)),
                acc as int <= i as int * 316907814353778891857476976640,
                mult_c as int == mult_of(c, Rarity::Common),
                mult_u as int == mult_of(c, Rarity::Uncommon),
                mult_r as int == mult_of(c, Rarity::Rare),
                mult_m as int == mult_of(c, Rarity::Mythic),
                d as int == den_prod(c),
            decreases n - i,
        {
            proof {
                assert(msv[i as int] == missing_spec(m, cardsv)[i as int]);
                assert(msv[i as int].0 == cardsv[i as int].0);
                assert(first_key_idx(m, simplified_spec(cardsv[i as int].0)) >= 0);
            }
            let ghost g_i = lookup_simplified(m, msv[i as int].0);
            let rr: Rarity = match self.cheapest_rarity(ms[i].0.as_str()) {
                Ok(rr) => rr,
                Err(e) => {
                    proof {
                        assert(!has_usable(g_i));
                        assert(first_unusable(m, cardsv) == i as int);
                    }
                    return Err(e);
                },
            };
            proof {
                assert(cheapest_ok(c, g_i, rr));
                assert(has_usable(g_i)) by {
                    if exists|x: Rarity| x.craftable() && present(g_i, x) {
                        assert(rr.craftable() && present(g_i, rr));
                    } else {
                        assert(present(g_i, Rarity::Land));
                    }
                }
                assert(cheapest_ok(c, g_i, cheapest_of(c, g_i)));
                lemma_cheapest_unique(c, g_i, cheapest_of(c, g_i), rr);
                assert(cheapest_of(c, g_i) == rr);
            }
            let cost: Ratio = self.coeffs.select(&rr);
            let num_i: u64 = cost.num;
            let mult_i: u128 = match rr {
                Rarity::Common => mult_c,
                Rarity::Uncommon => mult_u,
                Rarity::Rare => mult_r,
                Rarity::Mythic => mult_m,
                Rarity::Land => d,
                Rarity::Unknown => d,
            };
            proof {
                assert(msv.take(i + 1 as int).drop_last() =~= msv.take(i as int));
                assert(msv.take(i + 1 as int).last() == msv[i as int]);
                assert(num_i as int == c.select_spec(rr).num);
                assert(mult_i as int == mult_of(c, rr));
                assert(num_i <= 0x3fffc);
                if num_i == 0 {
                    lemma_mul_le(ms@[i as int].1 as int, num_i as int, 0x100000000, 0);
                    lemma_mul_le(
                        ms@[i as int].1 as int * num_i as int,
                        mult_i as int,
                        0,
                        0x10000000000000000,
                    );
                } else {
                    assert(rr != Rarity::Land && rr != Rarity::Unknown);
                    assert(mult_i <= 0x1000000000000);
                    lemma_mul_le(ms@[i as int].1 as int, num_i as int, 0x100000000, 0x3fffc);
                    lemma_mul_le(
                        ms@[i as int].1 as int * num_i as int,
                        mult_i as int,
                        1125882726973440,
                        0x1000000000000,
                    );
                }
            }
            let term: u128 = ms[i].1 as u128 * num_i as u128 * mult_i;
            acc = acc + term;
            i = i + 1;
        }
        proof {
            assert(msv.take(n as int) =~= msv);
            assert(acc as int == sum_terms(c, m, msv));
            if first_unusable(m, cardsv) != -1 {
                let u = first_unusable(m, cardsv);
                assert(has_usable(lookup_simplified(m, cardsv[u].0)));
                assert(false);
            }
            lemma_mul_le(4 * c.rare.num as int, mult_r as int, 0x100000, 0x10000000000000000);
            lemma_mul_le(c.mythic.num as int, mult_m as int, 0x3fffc, 0x10000000000000000);
        }
        let cb: u128 = 4 * self.coeffs.rare.num as u128 * mult_r + self.coeffs.mythic.num as u128
            * mult_m;
        if acc == 0 {
            Ok(Score { num: 0, den: 1 })
        } else if acc <= cb + d {
            Ok(Score { num: d, den: d })
        } else {
            Ok(Score { num: acc - cb, den: d })
        }
    }

    /// Merge freshly fetched ownership data into the held collection.
    pub fn update_collection(&mut self, recently_fetched: Collection)
        requires
            old(self).wf(),
        ensures
            final(self).wf(),
            final(self).coeffs == old(self).coeffs,
            final(self).collection.view_spec() == merge_spec(
                old(self).collection.view_spec(),
                recently_fetched.view_spec(),
            ),
    {
        self.collection.merge(recently_fetched);
    }

    /// The printings of a card, as the ledger holds them.
    pub fn get(&self, s: &str) -> (r: Result<&Vec<(u8, Rarity, String)>, TrackerError>)
        requires
            self.wf(),
        ensures
            ({
                let m = self.collection.view_spec();
                match r {
                    Ok(g) => first_key_idx(m, simplified_spec(s@)) >= 0 && view_rows(g@)
                        == lookup_simplified(m, s@),
                    Err(e) => first_key_idx(m, simplified_spec(s@)) < 0 && (
                    e matches TrackerError::UnknownCard(n) && n@ == simplified_spec(s@)),
                }
            }),
    {
        self.collection.get(s)
    }

    /// The deck's missing report, as `Collection::missing` computes it.
    pub fn missing_cards(&self, deck: &Deck, ignore_sideboard: bool) -> (r: Result<
        Vec<(String, u32, Rarity, String)>,
        TrackerError,
    >)
        requires
            self.wf(),
            deck.wf(),
        ensures
            ({
                let m = self.collection.view_spec();
                let cards = deck.cards_spec(ignore_sideboard);
                match r {
                    Ok(v) => first_unknown(m, cards) == -1 && view_missing(v@) == missing_spec(
                        m,
                        cards,
                    ),
                    Err(e) => unknown_err(m, cards, e),
                }
            }),
    {
        self.collection.missing(deck, ignore_sideboard)
    }

    pub fn wildcard_coeffs(&self) -> (r: &WildcardCoefficients)
        ensures
            *r == self.coeffs,
    {
        &self.coeffs
    }

    pub fn common_coeff(&self) -> (r: Ratio)
        ensures
            r == self.coeffs.common,
    {
        self.coeffs.common
    }

    pub fn uncommon_coeff(&self) -> (r: Ratio)
        ensures
            r == self.coeffs.uncommon,
    {
        self.coeffs.uncommon
    }

    pub fn rare_coeff(&self) -> (r: Ratio)
        ensures
            r == self.coeffs.rare,
    {
        self.coeffs.rare
    }

    pub fn mythic_coeff(&self) -> (r: Ratio)
        ensures
            r == self.coeffs.mythic,
    {
        self.coeffs.mythic
    }

    /// The first printing of the card at its cheapest rarity. `UnknownCard`
    /// exactly when `cheapest_rarity` fails.
    #[verifier::loop_isolation(false)]
    pub fn cheapest_version(&self, card_name: &str) -> (r: Result<
        &(u8, Rarity, String),
        TrackerError,
    >)
        requires
            self.wf(),
        ensures
            ({
                let m = self.collection.view_spec();
                let g = lookup_simplified(m, card_name@);
                match r {
                    Ok(row) => exists|rr: Rarity|
                        #[trigger] cheapest_ok(self.coeffs, g, rr) && exists|j: int|
                            0 <= j < g.len() && (row.0, row.1, row.2@) == g[j] && g[j].1 == rr
                                && forall|j2: int| 0 <= j2 < j ==> (#[trigger] g[j2]).1 != rr,
                    Err(e) => (first_key_idx(m, simplified_spec(card_name@)) < 0 || !has_usable(
                        g,
                    )) && (e matches TrackerError::UnknownCard(n) && n@ == simplified_spec(
                        card_name@,
                    )),
                }
            }),
    {
        let ghost m = self.collection.view_spec();
        let rr: Rarity = match self.cheapest_rarity(card_name) {
            Ok(rr) => rr,
            Err(e) => {
                return Err(e);
            },
        };
        let g = match self.collection.get(card_name) {
            Ok(g) => g,
            Err(e) => {
                proof {
                    assert(false);
                }
                return Err(e);
            },
        };
        let ghost gv = view_rows(g@);
        proof {
            assert(gv == lookup_simplified(m, card_name@));
            assert(present(gv, rr));
        }
        let glen: usize = g.len();
        let mut j: usize = 0;
        while j < glen
            invariant
                0 <= j <= glen,
                glen == gv.len(),
                forall|j2: int| 0 <= j2 < j ==> (#[trigger] gv[j2]).1 != rr,
            decreases glen - j,
        {
            if g[j].1 == rr {
                proof {
                    assert(gv[j as int].1 == rr);
                    assert((g@[j as int].0, g@[j as int].1, g@[j as int].2@) == gv[j as int]);
                }
                return Ok(&g[j]);
            }
            j = j + 1;
        }
        proof {
            let w = choose|i: int| 0 <= i < gv.len() && (#[trigger] gv[i]).1 == rr;
            assert(false);
        }
        let key: String = crate::names::simplified_name(card_name).to_owned();
        Err(TrackerError::UnknownCard(key))
    }
}

/// Whether the group owns a printing at this rarity.
#[verifier::loop_isolation(false)]
fn group_has_rarity(g: &Vec<(u8, Rarity, String)>, r: Rarity) -> (b: bool)
    ensures
        b == present(view_rows(g@), r),
{
    let n: usize = g.len();
    let mut i: usize = 0;
    while i < n
        invariant
            0 <= i <= n,
            forall|p: int| 0 <= p < i ==> (#[trigger] view_rows(g@)[p]).1 != r,
        decreases n - i,
    {
        if g[i].1 == r {
            proof {
                assert(view_rows(g@)[i as int].1 == r);
            }
            return true;
        }
        i = i + 1;
    }
    false
}

/// A product of factors that are each at least one is at least one.
proof fn lemma_mul_ge_one(a: int, b: int, c: int, d: int)
    by (nonlinear_arith)
    requires
        a >= 1,
        b >= 1,
        c >= 1,
        d >= 1,
    ensures
        a * b * c * d >= 1,
{
}

} // verus!
