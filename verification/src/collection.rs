use vstd::prelude::*;
use crate::Rarity;
use crate::TrackerError;
use crate::deck::{
    Deck, sum_snd, view_cards, lemma_coalesce_sum, lemma_coalesce_nonneg, lemma_coalesce_len,
    lemma_sum_bound, MAX_BOARD,
};
use crate::names::{trim_spec, simplified_spec, trim_str, simplified_name, str_eq};

verus! {

/// One owned printing of a card: (copies owned, rarity, set identifier),
/// as the mathematics sees it.
pub type RowV = (u8, Rarity, Seq<char>);

/// The mathematical content of a collection: an association list from card
/// name to its printings.
pub type MapV = Seq<(Seq<char>, Seq<RowV>)>;

pub open spec fn view_rows(g: Seq<(u8, Rarity, String)>) -> Seq<RowV> {
    Seq::new(g.len(), |i: int| (g[i].0, g[i].1, g[i].2@))
}

pub open spec fn view_content(c: Seq<(String, Vec<(u8, Rarity, String)>)>) -> MapV {
    Seq::new(c.len(), |i: int| (c[i].0@, view_rows(c[i].1@)))
}

/// First index of `name` among the keys, or `-1` if absent.
pub open spec fn first_key_idx(m: MapV, name: Seq<char>) -> int
    decreases m.len(),
{
    if m.len() == 0 {
        -1
    } else if m[0].0 == name {
        0
    } else {
        let r = first_key_idx(m.drop_first(), name);
        if r < 0 {
            -1
        } else {
            1 + r
        }
    }
}

pub proof fn lemma_first_key_idx(m: MapV, name: Seq<char>)
    ensures
        first_key_idx(m, name) == -1 ==> forall|j: int| 0 <= j < m.len() ==> m[j].0 != name,
        first_key_idx(m, name) != -1 ==> {
            let i = first_key_idx(m, name);
            &&& 0 <= i < m.len()
            &&& m[i].0 == name
            &&& forall|j: int| 0 <= j < i ==> m[j].0 != name
        },
    decreases m.len(),
{
    if m.len() == 0 {
    } else if m[0].0 == name {
    } else {
        let t = m.drop_first();
        lemma_first_key_idx(t, name);
        let r = first_key_idx(t, name);
        assert(forall|j: int| 0 <= j < t.len() ==> t[j] == m[j + 1]);
        if r < 0 {
            assert forall|j: int| 0 <= j < m.len() implies m[j].0 != name by {
                if j > 0 {
                    assert(t[j - 1] == m[j]);
                }
            }
        } else {
            assert(t[r] == m[1 + r]);
            assert forall|j: int| 0 <= j < 1 + r implies m[j].0 != name by {
                if j > 0 {
                    assert(t[j - 1] == m[j]);
                }
            }
        }
    }
}

/// First index of a printing from `set` within a card's group, or `-1`.
pub open spec fn first_set_idx(g: Seq<RowV>, set: Seq<char>) -> int
    decreases g.len(),
{
    if g.len() == 0 {
        -1
    } else if g[0].2 == set {
        0
    } else {
        let r = first_set_idx(g.drop_first(), set);
        if r < 0 {
            -1
        } else {
            1 + r
        }
    }
}

pub proof fn lemma_first_set_idx(g: Seq<RowV>, set: Seq<char>)
    ensures
        first_set_idx(g, set) == -1 ==> forall|j: int| 0 <= j < g.len() ==> g[j].2 != set,
        first_set_idx(g, set) != -1 ==> {
            let i = first_set_idx(g, set);
            &&& 0 <= i < g.len()
            &&& g[i].2 == set
            &&& forall|j: int| 0 <= j < i ==> g[j].2 != set
        },
    decreases g.len(),
{
    if g.len() == 0 {
    } else if g[0].2 == set {
    } else {
        let t = g.drop_first();
        lemma_first_set_idx(t, set);
        let r = first_set_idx(t, set);
        assert(forall|j: int| 0 <= j < t.len() ==> t[j] == g[j + 1]);
        if r < 0 {
            assert forall|j: int| 0 <= j < g.len() implies g[j].2 != set by {
                if j > 0 {
                    assert(t[j - 1] == g[j]);
                }
            }
        } else {
            assert(t[r] == g[1 + r]);
            assert forall|j: int| 0 <= j < 1 + r implies g[j].2 != set by {
                if j > 0 {
                    assert(t[j - 1] == g[j]);
                }
            }
        }
    }
}

/// Replace the printing of `row`'s set, or append the printing if that set
/// is new to the card.
pub open spec fn upsert_group(g: Seq<RowV>, row: RowV) -> Seq<RowV> {
    let i = first_set_idx(g, row.2);
    if i < 0 {
        g.push(row)
    } else {
        g.update(i, row)
    }
}

/// Upsert one printing under one key of the ledger.
pub open spec fn upsert(m: MapV, name: Seq<char>, row: RowV) -> MapV {
    let i = first_key_idx(m, name);
    if i < 0 {
        m.push((name, seq![row]))
    } else {
        m.update(i, (m[i].0, upsert_group(m[i].1, row)))
    }
}

/// The five basic lands, which never consume wildcards.
pub open spec fn is_basic(n: Seq<char>) -> bool {
    n == "Plains"@ || n == "Island"@ || n == "Swamp"@ || n == "Mountain"@ || n == "Forest"@
}

/// What one insertion does to the ledger: the name is trimmed, basic lands
/// are forced to rarity `Land`, and the printing is upserted both under the
/// simplified name and under the trimmed name.
pub open spec fn insert_spec(m: MapV, amount: u8, name: Seq<char>, rarity: Rarity, set: Seq<char>)
    -> MapV {
    let k2 = trim_spec(name);
    let rar = if is_basic(k2) {
        Rarity::Land
    } else {
        rarity
    };
    let k1 = simplified_spec(k2);
    upsert(upsert(m, k1, (amount, rar, set)), k2, (amount, rar, set))
}

/// Merging walks the other ledger's entries in order and re-inserts each
/// printing, so incoming data overwrites per (name, set) pair.
pub open spec fn merge_group(m: MapV, name: Seq<char>, g: Seq<RowV>) -> MapV
    decreases g.len(),
{
    if g.len() == 0 {
        m
    } else {
        let prev = merge_group(m, name, g.drop_last());
        insert_spec(prev, g.last().0, name, g.last().1, g.last().2)
    }
}

pub open spec fn merge_spec(m: MapV, other: MapV) -> MapV
    decreases other.len(),
{
    if other.len() == 0 {
        m
    } else {
        merge_group(merge_spec(m, other.drop_last()), other.last().0, other.last().1)
    }
}

pub open spec fn group_wf(g: Seq<RowV>) -> bool {
    g.len() >= 1 && forall|p: int, q: int| 0 <= p < q < g.len() ==> g[p].2 != g[q].2
}

pub open spec fn map_wf(m: MapV) -> bool {
    &&& forall|i: int, j: int| 0 <= i < j < m.len() ==> m[i].0 != m[j].0
    &&& forall|i: int| 0 <= i < m.len() ==> group_wf(#[trigger] m[i].1)
}

pub proof fn lemma_upsert_group_wf(g: Seq<RowV>, row: RowV)
    requires
        group_wf(g) || g.len() == 0,
    ensures
        group_wf(upsert_group(g, row)),
{
    lemma_first_set_idx(g, row.2);
    let i = first_set_idx(g, row.2);
    if i < 0 {
        let g2 = g.push(row);
        assert forall|p: int, q: int| 0 <= p < q < g2.len() implies g2[p].2 != g2[q].2 by {
            if q == g2.len() - 1 {
                assert(g[p].2 != row.2);
            }
        }
    } else {
        let g2 = g.update(i, row);
        assert forall|p: int, q: int| 0 <= p < q < g2.len() implies g2[p].2 != g2[q].2 by {
            assert(g2[p].2 == if p == i {
                row.2
            } else {
                g[p].2
            });
            assert(g2[q].2 == if q == i {
                row.2
            } else {
                g[q].2
            });
            assert(g[i].2 == row.2);
        }
    }
}

pub proof fn lemma_upsert_wf(m: MapV, name: Seq<char>, row: RowV)
    requires
        map_wf(m),
    ensures
        map_wf(upsert(m, name, row)),
{
    lemma_first_key_idx(m, name);
    let i = first_key_idx(m, name);
    if i < 0 {
        let m2 = m.push((name, seq![row]));
        assert(group_wf(seq![row]));
        assert forall|p: int, q: int| 0 <= p < q < m2.len() implies m2[p].0 != m2[q].0 by {
            if q == m2.len() - 1 {
                assert(m[p].0 != name);
            }
        }
        assert forall|p: int| 0 <= p < m2.len() implies group_wf(#[trigger] m2[p].1) by {
            if p < m.len() {
                assert(group_wf(m[p].1));
            }
        }
    } else {
        lemma_upsert_group_wf(m[i].1, row);
        let m2 = m.update(i, (m[i].0, upsert_group(m[i].1, row)));
        assert forall|p: int| 0 <= p < m2.len() implies group_wf(#[trigger] m2[p].1) by {
            if p != i {
                assert(m2[p].1 == m[p].1);
                assert(group_wf(m[p].1));
            }
        }
    }
}

/// One owned printing of one card, as handed to `Collection::insert`.
#[derive(Debug, Clone, PartialEq, Eq)]
pub struct CardData {
    pub amount: u8,
    pub name: String,
    pub rarity: Rarity,
    pub set: String,
}

/// The ownership ledger: every card name the user knows about, with all of
/// its owned printings, at most one per (name, set) pair.
#[derive(Debug, Clone, PartialEq)]
pub struct Collection {
    pub content: Vec<(String, Vec<(u8, Rarity, String)>)>,
}

impl Default for Collection {
    fn default() -> (r: Self)
        ensures
            r.view_spec() == Seq::<(Seq<char>, Seq<RowV>)>::empty(),
            r.wf(),
    {
        let r = Collection { content: Vec::new() };
        proof {
            assert(r.view_spec() =~= Seq::<(Seq<char>, Seq<RowV>)>::empty());
        }
        r
    }
}

impl Collection {
    pub open spec fn view_spec(self) -> MapV {
        view_content(self.content@)
    }

    pub open spec fn wf(self) -> bool {
        map_wf(self.view_spec())
    }

    /// Upsert one already-normalized key.
    #[verifier::loop_isolation(false)]
    fn upsert_exec(&mut self, name: String, amount: u8, rarity: Rarity, set: String)
        requires
            old(self).wf(),
        ensures
            final(self).wf(),
            final(self).view_spec() == upsert(
                old(self).view_spec(),
                name@,
                (amount, rarity, set@),
            ),
    {
        let ghost pre = self.view_spec();
        proof {
            lemma_first_key_idx(pre, name@);
            lemma_upsert_wf(pre, name@, (amount, rarity, set@));
        }
        let n: usize = self.content.len();
        let mut i: usize = 0;
        while i < n
            invariant
                0 <= i <= n,
                self == old(self),
                forall|p: int| 0 <= p < i ==> pre[p].0 != name@,
            decreases n - i,
        {
            if str_eq(self.content[i].0.as_str(), name.as_str()) {
                proof {
                    assert(pre[i as int].0 == name@);
                    assert(first_key_idx(pre, name@) == i as int);
                }
                let ghost g = pre[i as int].1;
                proof {
                    lemma_first_set_idx(g, set@);
                }
                let m: usize = self.content[i].1.len();
                let mut j: usize = 0;
                while j < m
                    invariant
                        0 <= j <= m,
                        self == old(self),
                        i < n,
                        forall|p: int| 0 <= p < j ==> g[p].2 != set@,
                    decreases m - j,
                {
                    if str_eq(self.content[i].1[j].2.as_str(), set.as_str()) {
                        proof {
                            assert(g[j as int].2 == set@);
                            assert(first_set_idx(g, set@) == j as int);
                        }
                        self.content[i].1[j] = (amount, rarity, set);
                        proof {
                            assert(self.view_spec() =~~= upsert(pre, name@, (amount, rarity, set@)));
                        }
                        return ;
                    }
                    j = j + 1;
                }
                proof {
                    assert(first_set_idx(g, set@) == -1);
                }
                self.content[i].1.push((amount, rarity, set));
                proof {
                    assert(self.view_spec() =~~= upsert(pre, name@, (amount, rarity, set@)));
                }
                return ;
            }
            i = i + 1;
        }
        proof {
            assert(first_key_idx(pre, name@) == -1);
        }
        let row: Vec<(u8, Rarity, String)> = vec![(amount, rarity, set)];
        self.content.push((name, row));
        proof {
            assert(self.view_spec() =~~= upsert(pre, name@, (amount, rarity, set@)));
        }
    }

    /// Upsert a printing: the name is trimmed, basic lands are reclassified
    /// as `Land`, and the printing is stored both under the simplified and
    /// under the trimmed name, so lookups succeed in either form.
    pub fn insert(&mut self, card: CardData)
        requires
            old(self).wf(),
        ensures
            final(self).wf(),
            final(self).view_spec() == insert_spec(
                old(self).view_spec(),
                card.amount,
                card.name@,
                card.rarity,
                card.set@,
            ),
    {
        let trimmed: &str = trim_str(card.name.as_str());
        let rarity: Rarity = if is_basic_exec(trimmed) {
            Rarity::Land
        } else {
            card.rarity
        };
        let simplified: &str = simplified_name(trimmed);
        let k1: String = simplified.to_owned();
        let k2: String = trimmed.to_owned();
        self.upsert_exec(k1, card.amount, rarity, card.set.clone());
        self.upsert_exec(k2, card.amount, rarity, card.set);
    }

    /// All known card names, in ledger order.
    #[verifier::loop_isolation(false)]
    pub fn names(&self) -> (r: Vec<String>)
        ensures
            r@.len() == self.view_spec().len(),
            forall|i: int| 0 <= i < r@.len() ==> r@[i]@ == self.view_spec()[i].0,
    {
        let mut r: Vec<String> = Vec::new();
        let n: usize = self.content.len();
        let mut i: usize = 0;
        while i < n
            invariant
                0 <= i <= n,
                r@.len() == i,
                forall|p: int| 0 <= p < i ==> r@[p]@ == self.view_spec()[p].0,
            decreases n - i,
        {
            r.push(self.content[i].0.clone());
            i = i + 1;
        }
        r
    }

    /// Look a card up under its simplified name; `UnknownCard` if the ledger
    /// has no entry for it.
    #[verifier::loop_isolation(false)]
    pub fn get(&self, name: &str) -> (r: Result<&Vec<(u8, Rarity, String)>, TrackerError>)
        ensures
            r is Ok <==> first_key_idx(self.view_spec(), simplified_spec(name@)) >= 0,
            r matches Ok(g) ==> view_rows(g@) == self.view_spec()[first_key_idx(
                self.view_spec(),
                simplified_spec(name@),
            )].1,
            r matches Err(e) ==> e matches TrackerError::UnknownCard(n) && n@ == simplified_spec(
                name@,
            ),
    {
        let ghost pre = self.view_spec();
        let key: &str = simplified_name(name);
        proof {
            lemma_first_key_idx(pre, key@);
        }
        let n: usize = self.content.len();
        let mut i: usize = 0;
        while i < n
            invariant
                0 <= i <= n,
                forall|p: int| 0 <= p < i ==> pre[p].0 != key@,
            decreases n - i,
        {
            if str_eq(self.content[i].0.as_str(), key) {
                proof {
                    assert(pre[i as int].0 == key@);
                    assert(first_key_idx(pre, key@) == i as int);
                }
                return Ok(&self.content[i].1);
            }
            i = i + 1;
        }
        proof {
            assert(first_key_idx(pre, key@) == -1);
        }
        Err(TrackerError::UnknownCard(key.to_owned()))
    }

    /// Union another ledger into this one; per (name, set) pair the incoming
    /// amount and rarity overwrite the existing entry.
    #[verifier::loop_isolation(false)]
    pub fn merge(&mut self, other: Collection)
        requires
            old(self).wf(),
        ensures
            final(self).wf(),
            final(self).view_spec() == merge_spec(old(self).view_spec(), other.view_spec()),
    {
        let ghost pre = old(self).view_spec();
        let ghost ov = other.view_spec();
        let n: usize = other.content.len();
        let mut i: usize = 0;
        proof {
            assert(ov.take(0) =~= Seq::<(Seq<char>, Seq<RowV>)>::empty());
        }
        while i < n
            invariant
                0 <= i <= n,
                self.wf(),
                self.view_spec() == merge_spec(pre, ov.take(i as int)),
            decreases n - i,
        {
            let ghost outer = self.view_spec();
            let m: usize = other.content[i].1.len();
            let ghost g = ov[i as int].1;
            let mut j: usize = 0;
            proof {
                assert(g.take(0) =~= Seq::<RowV>::empty());
            }
            while j < m
                invariant
                    0 <= j <= m,
                    i < n,
                    m == other.content@[i as int].1@.len(),
                    self.wf(),
                    self.view_spec() == merge_group(outer, ov[i as int].0, g.take(j as int)),
                decreases m - j,
            {
                let row_amount: u8 = other.content[i].1[j].0;
                let row_rarity: Rarity = other.content[i].1[j].1;
                let row_set: String = other.content[i].1[j].2.clone();
                let key: String = other.content[i].0.clone();
                self.insert(
                    CardData { amount: row_amount, name: key, rarity: row_rarity, set: row_set },
                );
                proof {
                    assert(g.take(j + 1 as int).drop_last() =~= g.take(j as int));
                    assert(g.take(j + 1 as int).last() == g[j as int]);
                }
                j = j + 1;
            }
            proof {
                assert(g.take(m as int) =~= g);
                assert(ov.take(i + 1 as int).drop_last() =~= ov.take(i as int));
                assert(ov.take(i + 1 as int).last() == ov[i as int]);
            }
            i = i + 1;
        }
        proof {
            assert(ov.take(n as int) =~= ov);
        }
    }
}

/// Total number of copies owned across a card's printings.
pub open spec fn sum_amounts(g: Seq<RowV>) -> int
    decreases g.len(),
{
    if g.len() == 0 {
        0
    } else {
        sum_amounts(g.drop_last()) + g.last().0
    }
}

pub proof fn lemma_sum_amounts_nonneg(g: Seq<RowV>)
    ensures
        sum_amounts(g) >= 0,
    decreases g.len(),
{
    if g.len() > 0 {
        lemma_sum_amounts_nonneg(g.drop_last());
    }
}

/// The first printing with the numerically lowest rarity ordinal.
pub open spec fn best_row(g: Seq<RowV>) -> RowV
    decreases g.len(),
{
    if g.len() <= 1 {
        g[0]
    } else {
        let b = best_row(g.drop_last());
        if g.last().1.ordinal_spec() < b.1.ordinal_spec() {
            g.last()
        } else {
            b
        }
    }
}

/// The group a card name resolves to after simplification.
pub open spec fn lookup_simplified(m: MapV, name: Seq<char>) -> Seq<RowV> {
    m[first_key_idx(m, simplified_spec(name))].1
}

/// One line of the missing report: the deck's own name form, how many copies
/// are still missing (`max(0, required - owned)`), and the rarity and set of
/// the lowest-ordinal owned printing.
pub open spec fn missing_entry(m: MapV, name: Seq<char>, req: int) -> (
    Seq<char>,
    int,
    Rarity,
    Seq<char>,
) {
    let g = lookup_simplified(m, name);
    let owned = sum_amounts(g);
    let b = best_row(g);
    (
        name,
        if req - owned > 0 {
            req - owned
        } else {
            0
        },
        b.1,
        b.2,
    )
}

pub open spec fn missing_spec(m: MapV, cards: Seq<(Seq<char>, int)>) -> Seq<
    (Seq<char>, int, Rarity, Seq<char>),
> {
    Seq::new(cards.len(), |i: int| missing_entry(m, cards[i].0, cards[i].1))
}

/// First index of a required card whose simplified name is not in the ledger,
/// or `-1` when every required card is known.
pub open spec fn first_unknown(m: MapV, cards: Seq<(Seq<char>, int)>) -> int
    decreases cards.len(),
{
    if cards.len() == 0 {
        -1
    } else if first_key_idx(m, simplified_spec(cards[0].0)) < 0 {
        0
    } else {
        let r = first_unknown(m, cards.drop_first());
        if r < 0 {
            -1
        } else {
            1 + r
        }
    }
}

pub proof fn lemma_first_unknown(m: MapV, cards: Seq<(Seq<char>, int)>)
    ensures
        first_unknown(m, cards) == -1 ==> forall|j: int|
            0 <= j < cards.len() ==> first_key_idx(m, simplified_spec((#[trigger] cards[j]).0))
                >= 0,
        first_unknown(m, cards) != -1 ==> {
            let i = first_unknown(m, cards);
            &&& 0 <= i < cards.len()
            &&& first_key_idx(m, simplified_spec(cards[i].0)) < 0
            &&& forall|j: int|
                0 <= j < i ==> first_key_idx(m, simplified_spec((#[trigger] cards[j]).0)) >= 0
        },
    decreases cards.len(),
{
    if cards.len() == 0 {
    } else if first_key_idx(m, simplified_spec(cards[0].0)) < 0 {
    } else {
        let t = cards.drop_first();
        lemma_first_unknown(m, t);
        let r = first_unknown(m, t);
        assert(forall|j: int| 0 <= j < t.len() ==> t[j] == cards[j + 1]);
        if r < 0 {
            assert forall|j: int|
                0 <= j < cards.len() implies first_key_idx(
                m,
                simplified_spec((#[trigger] cards[j]).0),
            ) >= 0 by {
                if j > 0 {
                    assert(t[j - 1] == cards[j]);
                }
            }
        } else {
            assert(t[r] == cards[1 + r]);
            assert forall|j: int|
                0 <= j < 1 + r implies first_key_idx(
                m,
                simplified_spec((#[trigger] cards[j]).0),
            ) >= 0 by {
                if j > 0 {
                    assert(t[j - 1] == cards[j]);
                }
            }
        }
    }
}

/// The mathematical content of an owned missing report.
pub open spec fn view_missing(s: Seq<(String, u32, Rarity, String)>) -> Seq<
    (Seq<char>, int, Rarity, Seq<char>),
> {
    Seq::new(s.len(), |i: int| (s[i].0@, s[i].1 as int, s[i].2, s[i].3@))
}

/// The error case shared by `missing` and everything built on it: the first
/// required card whose simplified name the ledger lacks.
pub open spec fn unknown_err(m: MapV, cards: Seq<(Seq<char>, int)>, e: TrackerError) -> bool {
    &&& first_unknown(m, cards) >= 0
    &&& e matches TrackerError::UnknownCard(n) && n@ == simplified_spec(
        cards[first_unknown(m, cards)].0,
    )
}

/// Sum of the missing amounts of a report.
pub open spec fn sum4(ms: Seq<(Seq<char>, int, Rarity, Seq<char>)>) -> int
    decreases ms.len(),
{
    if ms.len() == 0 {
        0
    } else {
        sum4(ms.drop_last()) + ms.last().1
    }
}

/// Sum of the missing amounts at one rarity.
pub open spec fn count_rarity(ms: Seq<(Seq<char>, int, Rarity, Seq<char>)>, rarity: Rarity) -> int
    decreases ms.len(),
{
    if ms.len() == 0 {
        0
    } else {
        count_rarity(ms.drop_last(), rarity) + if ms.last().2 == rarity {
            ms.last().1
        } else {
            0
        }
    }
}

/// How many copies at `rarity` the deck is missing, as `count_missing_of_rarity` reports it.
pub open spec fn count_missing_spec(m: MapV, deck: Deck, ignore_sideboard: bool, rarity: Rarity)
    -> int {
    count_rarity(missing_spec(m, deck.cards_spec(ignore_sideboard)), rarity)
}

proof fn lemma_count_le_sum(ms: Seq<(Seq<char>, int, Rarity, Seq<char>)>, rarity: Rarity)
    requires
        forall|i: int| 0 <= i < ms.len() ==> (#[trigger] ms[i]).1 >= 0,
    ensures
        0 <= count_rarity(ms, rarity) <= sum4(ms),
    decreases ms.len(),
{
    if ms.len() > 0 {
        assert(forall|i: int| 0 <= i < ms.drop_last().len() ==> (#[trigger] ms.drop_last()[i]).1 >= 0);
        lemma_count_le_sum(ms.drop_last(), rarity);
    }
}

proof fn lemma_missing_le(m: MapV, cards: Seq<(Seq<char>, int)>)
    requires
        forall|i: int| 0 <= i < cards.len() ==> (#[trigger] cards[i]).1 >= 0,
    ensures
        forall|i: int|
            0 <= i < cards.len() ==> 0 <= (#[trigger] missing_spec(m, cards)[i]).1 <= cards[i].1,
{
    assert forall|i: int|
        0 <= i < cards.len() implies 0 <= (#[trigger] missing_spec(m, cards)[i]).1
        <= cards[i].1 by {
        lemma_sum_amounts_nonneg(lookup_simplified(m, cards[i].0));
    }
}

proof fn lemma_sum4_le_sum_snd(
    ms: Seq<(Seq<char>, int, Rarity, Seq<char>)>,
    cards: Seq<(Seq<char>, int)>,
)
    requires
        ms.len() == cards.len(),
        forall|i: int| 0 <= i < ms.len() ==> 0 <= (#[trigger] ms[i]).1 <= cards[i].1,
    ensures
        sum4(ms) <= sum_snd(cards),
    decreases ms.len(),
{
    if ms.len() > 0 {
        assert(forall|i: int|
            0 <= i < ms.drop_last().len() ==> 0 <= (#[trigger] ms.drop_last()[i]).1
                <= cards.drop_last()[i].1);
        lemma_sum4_le_sum_snd(ms.drop_last(), cards.drop_last());
    }
}

impl Collection {
    /// For every card the deck requires: how many copies are missing, and the
    /// rarity and set of the lowest-ordinal owned printing. `UnknownCard` for
    /// the first required card the ledger does not know.
    #[verifier::loop_isolation(false)]
    pub fn missing(&self, deck: &Deck, ignore_sideboard: bool) -> (r: Result<
        Vec<(String, u32, Rarity, String)>,
        TrackerError,
    >)
        requires
            self.wf(),
            deck.wf(),
        ensures
            ({
                let m = self.view_spec();
                let cards = deck.cards_spec(ignore_sideboard);
                match r {
                    Ok(v) => first_unknown(m, cards) == -1 && view_missing(v@) == missing_spec(
                        m,
                        cards,
                    ),
                    Err(e) => unknown_err(m, cards, e),
                }
            }),
    {
        let ghost m = self.view_spec();
        let cards = deck.cards(ignore_sideboard);
        let ghost cv = view_cards(cards@);
        proof {
            lemma_first_unknown(m, cv);
        }
        let n: usize = cards.len();
        let mut out: Vec<(String, u32, Rarity, String)> = Vec::new();
        let mut i: usize = 0;
        proof {
            assert(view_missing(out@) =~= missing_spec(m, cv.take(0)));
        }
        while i < n
            invariant
                0 <= i <= n,
                forall|p: int| 0 <= p < i ==> first_key_idx(m, simplified_spec((#[trigger] cv[p]).0))
                    >= 0,
                view_missing(out@) == missing_spec(m, cv.take(i as int)),
            decreases n - i,
        {
            let req: u32 = cards[i].1;
            match self.get(cards[i].0.as_str()) {
                Err(e) => {
                    proof {
                        assert(cv[i as int].0 == cards@[i as int].0@);
                        assert(first_key_idx(m, simplified_spec(cv[i as int].0)) < 0);
                        assert(first_unknown(m, cv) == i as int);
                    }
                    return Err(e);
                },
                Ok(g) => {
                    let ghost key_i = first_key_idx(m, simplified_spec(cv[i as int].0));
                    let ghost gv = view_rows(g@);
                    proof {
                        lemma_first_key_idx(m, simplified_spec(cv[i as int].0));
                        assert(gv == m[key_i].1);
                        assert(group_wf(gv));
                    }
                    let glen: usize = g.len();
                    let mut owned: u128 = 0;
                    let mut j: usize = 0;
                    while j < glen
                        invariant
                            0 <= j <= glen,
                            owned as int == sum_amounts(gv.take(j as int)),
                            owned as int <= 255 * (j as int),
                        decreases glen - j,
                    {
                        proof {
                            assert(gv.take(j + 1 as int).drop_last() =~= gv.take(j as int));
                            assert(gv.take(j + 1 as int).last() == gv[j as int]);
                        }
                        owned = owned + g[j].0 as u128;
                        j = j + 1;
                    }
                    proof {
                        assert(gv.take(glen as int) =~= gv);
                    }
                    let mut bj: usize = 0;
                    let mut t: usize = 1;
                    proof {
                        assert(best_row(gv.take(1)) == gv.take(1)[0]);
                    }
                    while t < glen
                        invariant
                            1 <= t <= glen,
                            0 <= bj < t,
                            best_row(gv.take(t as int)) == gv[bj as int],
                        decreases glen - t,
                    {
                        proof {
                            assert(gv.take(t + 1 as int).drop_last() =~= gv.take(t as int));
                            assert(gv.take(t + 1 as int).last() == gv[t as int]);
                        }
                        if g[t].1.ordinal() < g[bj].1.ordinal() {
                            bj = t;
                        }
                        t = t + 1;
                    }
                    proof {
                        assert(gv.take(glen as int) =~= gv);
                        assert(best_row(gv) == gv[bj as int]);
                    }
                    let amt: u32 = if owned >= req as u128 {
                        0
                    } else {
                        req - owned as u32
                    };
                    let rar: Rarity = g[bj].1;
                    let set_s: String = g[bj].2.clone();
                    let name_s: String = cards[i].0.clone();
                    let ghost pushed = (name_s@, amt as int, rar, set_s@);
                    out.push((name_s, amt, rar, set_s));
                    proof {
                        assert(lookup_simplified(m, cv[i as int].0) == gv);
                        assert(owned as int == sum_amounts(gv));
                        assert(best_row(gv) == gv[bj as int]);
                        assert(pushed.0 == cv[i as int].0);
                        assert(pushed.1 == missing_entry(m, cv[i as int].0, cv[i as int].1).1);
                        assert(pushed.2 == missing_entry(m, cv[i as int].0, cv[i as int].1).2);
                        assert(pushed.3 == missing_entry(m, cv[i as int].0, cv[i as int].1).3);
                        assert(pushed == missing_entry(m, cv[i as int].0, cv[i as int].1));
                        assert(view_missing(out@)[i as int] == pushed);
                        assert(forall|p: int|
                            0 <= p < i ==> view_missing(out@)[p] == missing_spec(
                                m,
                                cv.take(i as int),
                            )[p]);
                        assert(view_missing(out@) =~= missing_spec(m, cv.take(i + 1 as int)));
                    }
                    i = i + 1;
                },
            }
        }
        proof {
            assert(cv.take(n as int) =~= cv);
            if first_unknown(m, cv) != -1 {
                let u = first_unknown(m, cv);
                assert(first_key_idx(m, simplified_spec(cv[u].0)) >= 0);
                assert(false);
            }
        }
        Ok(out)
    }

    /// Total number of copies of the given rarity the deck is missing.
    #[verifier::loop_isolation(false)]
    pub fn count_missing_of_rarity(&self, deck: &Deck, ignore_sideboard: bool, rarity: Rarity)
        -> (r: Result<usize, TrackerError>)
        requires
            self.wf(),
            deck.wf(),
        ensures
            ({
                let m = self.view_spec();
                let cards = deck.cards_spec(ignore_sideboard);
                match r {
                    Ok(c) => first_unknown(m, cards) == -1 && c as int == count_missing_spec(
                        m,
                        *deck,
                        ignore_sideboard,
                        rarity,
                    ) && c <= 5100000,
                    Err(e) => unknown_err(m, cards, e),
                }
            }),
    {
        let ghost m = self.view_spec();
        let ghost cards = deck.cards_spec(ignore_sideboard);
        let ghost entries = deck.entries(ignore_sideboard);
        let ms = match self.missing(deck, ignore_sideboard) {
            Ok(v) => v,
            Err(e) => {
                return Err(e);
            },
        };
        let ghost msv = view_missing(ms@);
        proof {
            lemma_coalesce_len(entries);
            assert(msv == missing_spec(m, cards));
            assert(msv.len() == missing_spec(m, cards).len());
            assert(ms@.len() == cards.len());
            assert(cards.len() <= entries.len() <= 2 * MAX_BOARD as int);
        }
        let n: usize = ms.len();
        let mut acc: u64 = 0;
        let mut i: usize = 0;
        while i < n
            invariant
                0 <= i <= n,
                acc as int == count_rarity(msv.take(i as int), rarity),
                acc as int <= 0xffffffffi64 * (i as int),
            decreases n - i,
        {
            proof {
                assert(msv.take(i + 1 as int).drop_last() =~= msv.take(i as int));
                assert(msv.take(i + 1 as int).last() == msv[i as int]);
            }
            if ms[i].2 == rarity {
                acc = acc + ms[i].1 as u64;
            }
            i = i + 1;
        }
        proof {
            assert(msv.take(n as int) =~= msv);
            assert(forall|p: int|
                0 <= p < entries.len() ==> 0 <= (#[trigger] entries[p]).1 <= 255);
            lemma_coalesce_nonneg(entries);
            lemma_missing_le(m, cards);
            lemma_count_le_sum(msv, rarity);
            lemma_sum4_le_sum_snd(msv, cards);
            lemma_coalesce_sum(entries);
            lemma_sum_bound(entries);
            assert(acc <= 5100000);
        }
        Ok(acc as usize)
    }
}

/// True exactly for the five basic-land names.
pub fn is_basic_exec(name: &str) -> (r: bool)
    ensures
        r == is_basic(name@),
{
    str_eq(name, "Plains") || str_eq(name, "Island") || str_eq(name, "Swamp") || str_eq(
        name,
        "Mountain",
    ) || str_eq(name, "Forest")
}


/// The printing is stored under `key` exactly as given: the key exists and
/// the first row of its group from this set equals the row itself.
pub open spec fn absorbed_at(m: MapV, key: Seq<char>, row: RowV) -> bool {
    let i = first_key_idx(m, key);
    i >= 0 && {
        let g = m[i].1;
        let j = first_set_idx(g, row.2);
        j >= 0 && g[j] == row
    }
}

/// A ledger is normalized when it is a fixed point of its own insertions:
/// basic lands are classified as `Land`, and every stored printing is
/// already present both under the trimmed and under the simplified form of
/// its key. Ledgers built through `insert` from ordinary card names have
/// this shape; it is what `merge` relies on to be idempotent.
pub open spec fn normalized(m: MapV) -> bool {
    forall|i: int, j: int|
        #![trigger m[i].1[j]]
        0 <= i < m.len() && 0 <= j < m[i].1.len() ==> {
            let name = m[i].0;
            let row = m[i].1[j];
            let k2 = trim_spec(name);
            &&& (is_basic(k2) ==> row.1 == Rarity::Land)
            &&& absorbed_at(m, k2, row)
            &&& absorbed_at(m, simplified_spec(k2), row)
        }
}

proof fn lemma_upsert_absorbed(m: MapV, key: Seq<char>, row: RowV)
    requires
        absorbed_at(m, key, row),
    ensures
        upsert(m, key, row) == m,
{
    let i = first_key_idx(m, key);
    lemma_first_key_idx(m, key);
    let g = m[i].1;
    let j = first_set_idx(g, row.2);
    lemma_first_set_idx(g, row.2);
    assert(upsert_group(g, row) =~= g);
    assert((m[i].0, upsert_group(m[i].1, row)) == m[i]);
    assert(upsert(m, key, row) =~= m);
}

proof fn lemma_insert_absorbed(m: MapV, amount: u8, name: Seq<char>, rarity: Rarity, set: Seq<
    char,
>)
    requires
        ({
            let k2 = trim_spec(name);
            let row = (amount, rarity, set);
            &&& (is_basic(k2) ==> rarity == Rarity::Land)
            &&& absorbed_at(m, k2, row)
            &&& absorbed_at(m, simplified_spec(k2), row)
        }),
    ensures
        insert_spec(m, amount, name, rarity, set) == m,
{
    let k2 = trim_spec(name);
    let row = (amount, rarity, set);
    lemma_upsert_absorbed(m, simplified_spec(k2), row);
    lemma_upsert_absorbed(m, k2, row);
}

proof fn lemma_merge_group_absorbed(m: MapV, name: Seq<char>, g: Seq<RowV>)
    requires
        forall|j: int|
            0 <= j < g.len() ==> {
                let row = #[trigger] g[j];
                let k2 = trim_spec(name);
                &&& (is_basic(k2) ==> row.1 == Rarity::Land)
                &&& absorbed_at(m, k2, row)
                &&& absorbed_at(m, simplified_spec(k2), row)
            },
    ensures
        merge_group(m, name, g) == m,
    decreases g.len(),
{
    if g.len() > 0 {
        assert(forall|j: int| 0 <= j < g.drop_last().len() ==> g.drop_last()[j] == g[j]);
        lemma_merge_group_absorbed(m, name, g.drop_last());
        let row = g.last();
        lemma_insert_absorbed(m, row.0, name, row.1, row.2);
    }
}

proof fn lemma_merge_absorbed(m: MapV, other: MapV)
    requires
        forall|i: int, j: int|
            #![trigger other[i].1[j]]
            0 <= i < other.len() && 0 <= j < other[i].1.len() ==> {
                let name = other[i].0;
                let row = other[i].1[j];
                let k2 = trim_spec(name);
                &&& (is_basic(k2) ==> row.1 == Rarity::Land)
                &&& absorbed_at(m, k2, row)
                &&& absorbed_at(m, simplified_spec(k2), row)
            },
    ensures
        merge_spec(m, other) == m,
    decreases other.len(),
{
    if other.len() > 0 {
        assert(forall|i: int, j: int|
            #![trigger other.drop_last()[i].1[j]]
            0 <= i < other.drop_last().len() && 0 <= j < other.drop_last()[i].1.len()
                ==> other.drop_last()[i].1[j] == other[i].1[j] && other.drop_last()[i].0
                == other[i].0);
        lemma_merge_absorbed(m, other.drop_last());
        let e = other.last();
        assert(e == other[other.len() - 1]);
        assert(forall|j: int| 0 <= j < e.1.len() ==> e.1[j] == other[other.len() - 1].1[j]);
        lemma_merge_group_absorbed(m, e.0, e.1);
    }
}

/// Law: merging a normalized ledger into itself leaves it unchanged. Every
/// insertion the merge performs re-inserts a printing the ledger already
/// stores in exactly that place.
pub proof fn lemma_merge_idempotent(m: MapV)
    requires
        normalized(m),
    ensures
        merge_spec(m, m) == m,
{
    lemma_merge_absorbed(m, m);
}


/// Law: a missing amount is never negative, and equals
/// `max(0, required - owned)` with owned summed over the card's printings.
pub proof fn lemma_missing_amount(m: MapV, name: Seq<char>, req: int)
    ensures
        missing_entry(m, name, req).1 >= 0,
        missing_entry(m, name, req).1 == {
            let owned = sum_amounts(lookup_simplified(m, name));
            if req - owned > 0 {
                req - owned
            } else {
                0
            }
        },
{
}

} // verus!
