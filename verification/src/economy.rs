use vstd::prelude::*;
use crate::Rarity;

verus! {

/// An exact non-negative rational. Costs are kept as exact fractions so that
/// every formula of the wildcard economy can be stated and proved precisely.
#[derive(Debug, Clone, Copy, PartialEq, Eq, Structural)]
pub struct Ratio {
    pub num: u64,
    pub den: u64,
}

impl Ratio {
    pub open spec fn wf(self) -> bool {
        self.den >= 1
    }
}

/// `a < b` as rationals, by cross-multiplication.
pub open spec fn ratio_lt(a: Ratio, b: Ratio) -> bool {
    a.num * b.den < b.num * a.den
}

/// `a == b` as rationals, by cross-multiplication.
pub open spec fn ratio_eqv(a: Ratio, b: Ratio) -> bool {
    a.num * b.den == b.num * a.den
}

/// The product of two `u64` values always fits in `u128`.
proof fn lemma_u64_mul_fits(x: u64, y: u64)
    by (nonlinear_arith)
    ensures
        (x as int) * (y as int) <= 0xfffffffffffffffe0000000000000001,
{
}

/// Exact comparison of two rationals; the cross products always fit in `u128`.
pub fn ratio_lt_exec(a: &Ratio, b: &Ratio) -> (r: bool)
    ensures
        r == ratio_lt(*a, *b),
{
    proof {
        lemma_u64_mul_fits(a.num, b.den);
        lemma_u64_mul_fits(b.num, a.den);
    }
    (a.num as u128) * (b.den as u128) < (b.num as u128) * (a.den as u128)
}

pub fn ratio_eqv_exec(a: &Ratio, b: &Ratio) -> (r: bool)
    ensures
        r == ratio_eqv(*a, *b),
{
    proof {
        lemma_u64_mul_fits(a.num, b.den);
        lemma_u64_mul_fits(b.num, a.den);
    }
    (a.num as u128) * (b.den as u128) == (b.num as u128) * (a.den as u128)
}

impl Rarity {
    /// The four tiers that consume wildcards.
    pub open spec fn craftable(self) -> bool {
        self == Rarity::Common || self == Rarity::Uncommon || self == Rarity::Rare
            || self == Rarity::Mythic
    }
}

/// The wallet: how many wildcards of each craftable rarity the user owns.
#[derive(Debug, Clone, Copy, PartialEq, Eq, Structural)]
pub struct Wildcards {
    pub common: u16,
    pub uncommon: u16,
    pub rare: u16,
    pub mythic: u16,
}

impl Default for Wildcards {
    fn default() -> (r: Self)
        ensures
            r == (Wildcards { common: 0u16, uncommon: 0u16, rare: 0u16, mythic: 0u16 }),
    {
        Wildcards { common: 0, uncommon: 0, rare: 0, mythic: 0 }
    }
}

impl Wildcards {
    /// Total number of wildcards across the four craftable rarities.
    pub open spec fn total_spec(self) -> int {
        self.common + self.uncommon + self.rare + self.mythic
    }

    /// How many wildcards of `rarity` the wallet holds; 0 for `Land`/`Unknown`.
    pub open spec fn count_spec(self, rarity: Rarity) -> int {
        match rarity {
            Rarity::Common => self.common as int,
            Rarity::Uncommon => self.uncommon as int,
            Rarity::Rare => self.rare as int,
            Rarity::Mythic => self.mythic as int,
            Rarity::Land => 0,
            Rarity::Unknown => 0,
        }
    }

    /// `coefficient(rarity) = total / (1 + owned(rarity))`: the scarcer a
    /// rarity's wildcards, the higher the relative cost of crafting at it.
    pub open spec fn coeff_spec(self, rarity: Rarity) -> Ratio {
        Ratio { num: self.total_spec() as u64, den: (1 + self.count_spec(rarity)) as u64 }
    }

    pub open spec fn coefficients_spec(self) -> WildcardCoefficients {
        WildcardCoefficients {
            common: self.coeff_spec(Rarity::Common),
            uncommon: self.coeff_spec(Rarity::Uncommon),
            rare: self.coeff_spec(Rarity::Rare),
            mythic: self.coeff_spec(Rarity::Mythic),
        }
    }

    pub fn total(&self) -> (t: u32)
        ensures
            t as int == self.total_spec(),
    {
        self.common as u32 + self.uncommon as u32 + self.rare as u32 + self.mythic as u32
    }

    /// The wallet's count for `rarity`; `Land` and `Unknown` have none.
    pub fn select(&self, rarity: &Rarity) -> (n: u16)
        ensures
            n as int == self.count_spec(*rarity),
    {
        match rarity {
            Rarity::Common => self.common,
            Rarity::Uncommon => self.uncommon,
            Rarity::Rare => self.rare,
            Rarity::Mythic => self.mythic,
            Rarity::Land => 0,
            Rarity::Unknown => 0,
        }
    }

    pub fn coefficients(&self) -> (c: WildcardCoefficients)
        ensures
            c == self.coefficients_spec(),
            c.bounded(),
    {
        let total: u32 = self.total();
        WildcardCoefficients {
            common: Ratio { num: total as u64, den: 1 + self.common as u64 },
            uncommon: Ratio { num: total as u64, den: 1 + self.uncommon as u64 },
            rare: Ratio { num: total as u64, den: 1 + self.rare as u64 },
            mythic: Ratio { num: total as u64, den: 1 + self.mythic as u64 },
        }
    }
}

/// The per-rarity relative crafting costs derived from a wallet.
#[derive(Debug, Clone, Copy, PartialEq, Eq, Structural)]
pub struct WildcardCoefficients {
    pub common: Ratio,
    pub uncommon: Ratio,
    pub rare: Ratio,
    pub mythic: Ratio,
}

impl WildcardCoefficients {
    pub open spec fn wf(self) -> bool {
        self.common.wf() && self.uncommon.wf() && self.rare.wf() && self.mythic.wf()
    }

    /// Bounds that hold of every wallet-derived coefficient set; they keep all
    /// downstream cost arithmetic exact in 128 bits.
    pub open spec fn bounded(self) -> bool {
        &&& self.wf()
        &&& self.common.num <= 0x3fffc && self.common.den <= 0x10000
        &&& self.uncommon.num <= 0x3fffc && self.uncommon.den <= 0x10000
        &&& self.rare.num <= 0x3fffc && self.rare.den <= 0x10000
        &&& self.mythic.num <= 0x3fffc && self.mythic.den <= 0x10000
    }

    pub open spec fn select_spec(self, rarity: Rarity) -> Ratio {
        match rarity {
            Rarity::Common => self.common,
            Rarity::Uncommon => self.uncommon,
            Rarity::Rare => self.rare,
            Rarity::Mythic => self.mythic,
            Rarity::Land => Ratio { num: 0u64, den: 1u64 },
            Rarity::Unknown => Ratio { num: 0u64, den: 1u64 },
        }
    }

    /// The cost coefficient for `rarity`; `Land` and `Unknown` are free.
    pub fn select(&self, rarity: &Rarity) -> (r: Ratio)
        ensures
            r == self.select_spec(*rarity),
    {
        match rarity {
            Rarity::Common => self.common,
            Rarity::Uncommon => self.uncommon,
            Rarity::Rare => self.rare,
            Rarity::Mythic => self.mythic,
            Rarity::Land => Ratio { num: 0, den: 1 },
            Rarity::Unknown => Ratio { num: 0, den: 1 },
        }
    }

    /// The ordering key used to rank rarities from cheapest to dearest:
    /// strictly cheaper coefficient first, ties broken by enumeration order.
    pub open spec fn key_le(self, a: Rarity, b: Rarity) -> bool {
        ratio_lt(self.select_spec(a), self.select_spec(b)) || (ratio_eqv(
            self.select_spec(a),
            self.select_spec(b),
        ) && a.ordinal_spec() <= b.ordinal_spec())
    }

    fn key_lt_exec(&self, a: &Rarity, b: &Rarity) -> (r: bool)
        ensures
            r == (ratio_lt(self.select_spec(*a), self.select_spec(*b)) || (ratio_eqv(
                self.select_spec(*a),
                self.select_spec(*b),
            ) && a.ordinal_spec() < b.ordinal_spec())),
    {
        let ra = self.select(a);
        let rb = self.select(b);
        if ratio_lt_exec(&ra, &rb) {
            true
        } else if ratio_eqv_exec(&ra, &rb) {
            a.ordinal() < b.ordinal()
        } else {
            false
        }
    }

    fn sort2(&self, a: Rarity, b: Rarity) -> (r: (Rarity, Rarity))
        ensures
            (r.0 == a && r.1 == b) || (r.0 == b && r.1 == a),
            self.key_le(r.0, r.1),
    {
        if self.key_lt_exec(&b, &a) {
            (b, a)
        } else {
            (a, b)
        }
    }

    /// The four craftable rarities sorted ascending by coefficient (cheapest
    /// first, ties in enumeration order), with `Land` appended last.
    pub fn order(&self) -> (r: [Rarity; 5])
        requires
            self.wf(),
        ensures
            r@.len() == 5,
            r@[4] == Rarity::Land,
            forall|i: int| 0 <= i < 4 ==> (#[trigger] r@[i]).craftable(),
            forall|i: int, j: int| 0 <= i < j < 4 ==> self.key_le(r@[i], r@[j]),
            forall|x: Rarity| x.craftable() ==> exists|i: int| 0 <= i < 4 && r@[i] == x,
    {
        let (a0, b0) = self.sort2(Rarity::Common, Rarity::Uncommon);
        let (c0, d0) = self.sort2(Rarity::Rare, Rarity::Mythic);
        let (a1, c1) = self.sort2(a0, c0);
        let (b1, d1) = self.sort2(b0, d0);
        let (b2, c2) = self.sort2(b1, c1);
        proof {
            lemma_key_le_trans_all(*self);
        }
        let result = [a1, b2, c2, d1, Rarity::Land];
        proof {
            assert(result@[0] == a1 && result@[1] == b2 && result@[2] == c2 && result@[3] == d1
                && result@[4] == Rarity::Land);
            assert forall|x: Rarity| x.craftable() implies exists|i: int|
                0 <= i < 4 && result@[i] == x by {
                assert(a1 == x || b2 == x || c2 == x || d1 == x);
                if a1 == x {
                    assert(result@[0] == x);
                } else if b2 == x {
                    assert(result@[1] == x);
                } else if c2 == x {
                    assert(result@[2] == x);
                } else {
                    assert(result@[3] == x);
                }
            }
        }
        result
    }
}

/// Transitivity facts for the cross-multiplication order, needed because
/// comparisons of fractions mix multiplications.
proof fn lemma_ratio_trans(a: Ratio, b: Ratio, c: Ratio)
    by (nonlinear_arith)
    requires
        a.wf(),
        b.wf(),
        c.wf(),
    ensures
        ratio_lt(a, b) && ratio_lt(b, c) ==> ratio_lt(a, c),
        ratio_lt(a, b) && ratio_eqv(b, c) ==> ratio_lt(a, c),
        ratio_eqv(a, b) && ratio_lt(b, c) ==> ratio_lt(a, c),
        ratio_eqv(a, b) && ratio_eqv(b, c) ==> ratio_eqv(a, c),
        !ratio_lt(a, b) && !ratio_lt(b, a) ==> ratio_eqv(a, b),
{
}

proof fn lemma_key_le_trans(c: WildcardCoefficients, x: Rarity, y: Rarity, z: Rarity)
    requires
        c.wf(),
    ensures
        c.key_le(x, y) && c.key_le(y, z) ==> c.key_le(x, z),
{
    assert(c.select_spec(x).wf() && c.select_spec(y).wf() && c.select_spec(z).wf());
    lemma_ratio_trans(c.select_spec(x), c.select_spec(y), c.select_spec(z));
}

proof fn lemma_key_le_trans_all(c: WildcardCoefficients)
    requires
        c.wf(),
    ensures
        forall|x: Rarity, y: Rarity, z: Rarity|
            c.key_le(x, y) && c.key_le(y, z) ==> c.key_le(x, z),
{
    assert forall|x: Rarity, y: Rarity, z: Rarity|
        c.key_le(x, y) && c.key_le(y, z) implies c.key_le(x, z) by {
        lemma_key_le_trans(c, x, y, z);
    }
}

/// Law: for every wallet that holds at least one wildcard in total, the
/// coefficient of each craftable rarity is strictly positive.
pub proof fn lemma_coefficient_positive(w: Wildcards, rarity: Rarity)
    requires
        w.total_spec() > 0,
        rarity.craftable(),
    ensures
        w.coeff_spec(rarity).num > 0,
        w.coeff_spec(rarity).den > 0,
{
}

/// Law: a craftable rarity of which the wallet owns zero wildcards costs
/// exactly the wallet's total (the fraction `total / 1`).
pub proof fn lemma_zero_owned_costs_total(w: Wildcards, rarity: Rarity)
    requires
        rarity.craftable(),
        w.count_spec(rarity) == 0,
    ensures
        w.coeff_spec(rarity) == (Ratio { num: w.total_spec() as u64, den: 1u64 }),
{
}

} // verus!
