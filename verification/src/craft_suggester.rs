use vstd::prelude::*;
use crate::Rarity;
use crate::TrackerError;
use crate::collection::{
    Collection, MapV, first_unknown, unknown_err, missing_spec, missing_entry, count_missing_spec,
    view_missing,
};
use crate::deck::{Deck, first_idx, lemma_first_idx, view_cards};
use crate::names::str_eq;
use crate::roster::Roster;
use crate::search::{
    SearchParams, Memo, cols_view, count_trues, count_trues_exec, in_keys, terms_ok, search_best,
    cols_wf,
};

verus! {

/// First roster index whose deck requires a card the ledger does not know,
/// or `-1` when every deck's requirements are fully known.
pub open spec fn first_bad_deck(m: MapV, decks: Seq<Deck>, isb: bool) -> int
    decreases decks.len(),
{
    if decks.len() == 0 {
        -1
    } else if first_unknown(m, decks[0].cards_spec(isb)) >= 0 {
        0
    } else {
        let r = first_bad_deck(m, decks.drop_first(), isb);
        if r < 0 {
            -1
        } else {
            1 + r
        }
    }
}

pub proof fn lemma_first_bad_deck(m: MapV, decks: Seq<Deck>, isb: bool)
    ensures
        first_bad_deck(m, decks, isb) == -1 ==> forall|j: int|
            0 <= j < decks.len() ==> first_unknown(m, (#[trigger] decks[j]).cards_spec(isb)) < 0,
        first_bad_deck(m, decks, isb) != -1 ==> {
            let i = first_bad_deck(m, decks, isb);
            &&& 0 <= i < decks.len()
            &&& first_unknown(m, decks[i].cards_spec(isb)) >= 0
            &&& forall|j: int|
                0 <= j < i ==> first_unknown(m, (#[trigger] decks[j]).cards_spec(isb)) < 0
        },
    decreases decks.len(),
{
    if decks.len() == 0 {
    } else if first_unknown(m, decks[0].cards_spec(isb)) >= 0 {
    } else {
        let t = decks.drop_first();
        lemma_first_bad_deck(m, t, isb);
        let r = first_bad_deck(m, t, isb);
        assert(forall|j: int| 0 <= j < t.len() ==> t[j] == decks[j + 1]);
        if r < 0 {
            assert forall|j: int|
                0 <= j < decks.len() implies first_unknown(
                m,
                (#[trigger] decks[j]).cards_spec(isb),
            ) < 0 by {
                if j > 0 {
                    assert(t[j - 1] == decks[j]);
                }
            }
        } else {
            assert(t[r] == decks[1 + r]);
            assert forall|j: int|
                0 <= j < 1 + r implies first_unknown(m, (#[trigger] decks[j]).cards_spec(isb))
                < 0 by {
                if j > 0 {
                    assert(t[j - 1] == decks[j]);
                }
            }
        }
    }
}

/// A deck is a candidate for the search when it misses at least one rare or
/// mythic copy and its own missing counts fit within both budgets.
pub open spec fn relevant_spec(m: MapV, deck: Deck, isb: bool, rl: int, ml: int) -> bool {
    let cr = count_missing_spec(m, deck, isb, Rarity::Rare);
    let cm = count_missing_spec(m, deck, isb, Rarity::Mythic);
    0 < cr + cm && cr <= rl && cm <= ml
}

/// The relevant decks, in roster order.
pub open spec fn relevant_seq(m: MapV, decks: Seq<Deck>, isb: bool, rl: int, ml: int) -> Seq<Deck>
    decreases decks.len(),
{
    if decks.len() == 0 {
        Seq::empty()
    } else {
        let prev = relevant_seq(m, decks.drop_last(), isb, rl, ml);
        if relevant_spec(m, decks.last(), isb, rl, ml) {
            prev.push(decks.last())
        } else {
            prev
        }
    }
}

/// The decks a sequence of references points at.
pub open spec fn derefs(s: Seq<&Deck>) -> Seq<Deck> {
    Seq::new(s.len(), |i: int| *s[i])
}

/// Whether a requirement row is already listed.
pub open spec fn contains_row(s: Seq<(Seq<char>, int)>, name: Seq<char>, n: int) -> bool {
    exists|i: int| 0 <= i < s.len() && (#[trigger] s[i]).0 == name && s[i].1 == n
}

/// Add rows `(name, 1) .. (name, upto)` to the index, ascending, skipping
/// rows that are already present.
pub open spec fn add_copies(acc: Seq<(Seq<char>, int)>, name: Seq<char>, upto: int) -> Seq<
    (Seq<char>, int),
>
    decreases upto,
{
    if upto <= 0 {
        acc
    } else {
        let prev = add_copies(acc, name, upto - 1);
        if contains_row(prev, name, upto) {
            prev
        } else {
            prev.push((name, upto))
        }
    }
}

/// Fold one deck's missing report into the row index: every missing copy of
/// a card at the target rarity becomes its own row.
pub open spec fn rows_of_missing(
    acc: Seq<(Seq<char>, int)>,
    ms: Seq<(Seq<char>, int, Rarity, Seq<char>)>,
    target: Rarity,
) -> Seq<(Seq<char>, int)>
    decreases ms.len(),
{
    if ms.len() == 0 {
        acc
    } else {
        let step = if ms[0].2 == target {
            add_copies(acc, ms[0].0, ms[0].1)
        } else {
            acc
        };
        rows_of_missing(step, ms.drop_first(), target)
    }
}

pub open spec fn rows_decks(
    acc: Seq<(Seq<char>, int)>,
    m: MapV,
    decks: Seq<Deck>,
    isb: bool,
    target: Rarity,
) -> Seq<(Seq<char>, int)>
    decreases decks.len(),
{
    if decks.len() == 0 {
        acc
    } else {
        rows_decks(
            rows_of_missing(acc, missing_spec(m, decks[0].cards_spec(isb)), target),
            m,
            decks.drop_first(),
            isb,
            target,
        )
    }
}

/// The requirement rows of one rarity: each distinct (card name, copy index)
/// pair missing from any relevant deck, in discovery order.
pub open spec fn rows_spec(m: MapV, decks: Seq<Deck>, isb: bool, target: Rarity) -> Seq<
    (Seq<char>, int),
> {
    rows_decks(Seq::empty(), m, decks, isb, target)
}

/// Whether a deck requires the specific missing copy `(name, n)` at the
/// target rarity.
pub open spec fn deck_needs_row(
    m: MapV,
    deck: Deck,
    isb: bool,
    target: Rarity,
    name: Seq<char>,
    n: int,
) -> bool {
    let cs = deck.cards_spec(isb);
    let j = first_idx(cs, name);
    j >= 0 && missing_entry(m, name, cs[j].1).2 == target && missing_entry(m, name, cs[j].1).1 >= n
}

/// The deck-to-row incidence matrix for one rarity, one column per deck.
pub open spec fn matrix_spec(
    m: MapV,
    decks: Seq<Deck>,
    isb: bool,
    target: Rarity,
    rows: Seq<(Seq<char>, int)>,
) -> Seq<Seq<bool>> {
    Seq::new(
        decks.len(),
        |d: int|
            Seq::new(
                rows.len(),
                |i: int| deck_needs_row(m, decks[d], isb, target, rows[i].0, rows[i].1),
            ),
    )
}

/// The crafting recommendation engine: given budgets of rare and mythic
/// wildcards, find the subsets of decks of maximum size that can all be
/// completed within the shared budget.
pub struct CraftRecommender<'r, 'c> {
    pub rares_limit: usize,
    pub mythics_limit: usize,
    pub roster: &'r Roster,
    pub collection: &'c Collection,
    pub starting_sel: Vec<String>,
    pub ignore_sb: bool,
}

impl<'r, 'c> CraftRecommender<'r, 'c> {
    pub fn new(
        rares: usize,
        mythics: usize,
        ignore_sideboard: bool,
        starting_sel: Option<Vec<String>>,
        roster: &'r Roster,
        collection: &'c Collection,
    ) -> (r: Self)
        ensures
            r.rares_limit == rares,
            r.mythics_limit == mythics,
            r.ignore_sb == ignore_sideboard,
            r.roster == roster,
            r.collection == collection,
            match starting_sel {
                Some(v) => r.starting_sel == v,
                None => r.starting_sel@.len() == 0,
            },
    {
        let sel: Vec<String> = match starting_sel {
            Some(v) => v,
            None => Vec::new(),
        };
        CraftRecommender {
            rares_limit: rares,
            mythics_limit: mythics,
            ignore_sb: ignore_sideboard,
            starting_sel: sel,
            roster,
            collection,
        }
    }

    /// The decks that are worth considering: each misses at least one rare
    /// or mythic copy and individually fits within both budgets.
    #[verifier::loop_isolation(false)]
    pub fn relevant_decks(&self) -> (r: Result<Vec<&'r Deck>, TrackerError>)
        requires
            self.collection.wf(),
            self.roster.wf(),
        ensures
            ({
                let m = self.collection.view_spec();
                let decks = self.roster.decks@;
                match r {
                    Ok(v) => first_bad_deck(m, decks, self.ignore_sb) == -1 && derefs(v@)
                        == relevant_seq(
                        m,
                        decks,
                        self.ignore_sb,
                        self.rares_limit as int,
                        self.mythics_limit as int,
                    ),
                    Err(e) => {
                        let b = first_bad_deck(m, decks, self.ignore_sb);
                        &&& b >= 0
                        &&& unknown_err(m, decks[b].cards_spec(self.ignore_sb), e)
                    },
                }
            }),
    {
        let ghost m = self.collection.view_spec();
        let ghost decks = self.roster.decks@;
        proof {
            lemma_first_bad_deck(m, decks, self.ignore_sb);
        }
        let n: usize = self.roster.decks.len();
        let mut out: Vec<&'r Deck> = Vec::new();
        let mut i: usize = 0;
        proof {
            assert(decks.take(0) =~= Seq::<Deck>::empty());
            assert(derefs(out@) =~= relevant_seq(
                m,
                decks.take(0),
                self.ignore_sb,
                self.rares_limit as int,
                self.mythics_limit as int,
            ));
        }
        while i < n
            invariant
                0 <= i <= n,
                forall|p: int|
                    0 <= p < i ==> first_unknown(
                        m,
                        (#[trigger] decks[p]).cards_spec(self.ignore_sb),
                    ) < 0,
                derefs(out@) == relevant_seq(
                    m,
                    decks.take(i as int),
                    self.ignore_sb,
                    self.rares_limit as int,
                    self.mythics_limit as int,
                ),
            decreases n - i,
        {
            let d: &'r Deck = &self.roster.decks[i];
            let cr: usize = match self.collection.count_missing_of_rarity(
                d,
                self.ignore_sb,
                Rarity::Rare,
            ) {
                Ok(c) => c,
                Err(e) => {
                    proof {
                        assert(first_bad_deck(m, decks, self.ignore_sb) == i as int);
                    }
                    return Err(e);
                },
            };
            let cm: usize = match self.collection.count_missing_of_rarity(
                d,
                self.ignore_sb,
                Rarity::Mythic,
            ) {
                Ok(c) => c,
                Err(e) => {
                    proof {
                        assert(false);
                    }
                    return Err(e);
                },
            };
            if 0 < cr + cm && cr <= self.rares_limit && cm <= self.mythics_limit {
                out.push(d);
                proof {
                    assert(relevant_spec(
                        m,
                        decks[i as int],
                        self.ignore_sb,
                        self.rares_limit as int,
                        self.mythics_limit as int,
                    ));
                }
            } else {
                proof {
                    assert(!relevant_spec(
                        m,
                        decks[i as int],
                        self.ignore_sb,
                        self.rares_limit as int,
                        self.mythics_limit as int,
                    ));
                }
            }
            proof {
                assert(decks.take(i + 1 as int).drop_last() =~= decks.take(i as int));
                assert(decks.take(i + 1 as int).last() == decks[i as int]);
                assert(derefs(out@) =~= relevant_seq(
                    m,
                    decks.take(i + 1 as int),
                    self.ignore_sb,
                    self.rares_limit as int,
                    self.mythics_limit as int,
                ));
            }
            i = i + 1;
        }
        proof {
            assert(decks.take(n as int) =~= decks);
            if first_bad_deck(m, decks, self.ignore_sb) != -1 {
                assert(false);
            }
        }
        Ok(out)
    }

    /// Build the row index of one rarity over the candidate decks: one row
    /// per distinct missing (card name, copy index) pair.
    #[verifier::loop_isolation(false)]
    #[verifier::rlimit(100)]
    pub fn build_rows_index(&self, decks: &Vec<&Deck>, target: Rarity) -> (r: Vec<(String, u32)>)
        requires
            self.collection.wf(),
            forall|d: int| 0 <= d < decks@.len() ==> (*#[trigger] decks@[d]).wf(),
            forall|d: int|
                0 <= d < decks@.len() ==> first_unknown(
                    self.collection.view_spec(),
                    (*#[trigger] decks@[d]).cards_spec(self.ignore_sb),
                ) < 0,
        ensures
            view_cards(r@) == rows_spec(
                self.collection.view_spec(),
                derefs(decks@),
                self.ignore_sb,
                target,
            ),
            forall|i: int| 0 <= i < r@.len() ==> 1 <= (#[trigger] r@[i]).1,
    {
        let ghost m = self.collection.view_spec();
        let ghost dseq = derefs(decks@);
        let n: usize = decks.len();
        let mut out: Vec<(String, u32)> = Vec::new();
        let mut i: usize = 0;
        proof {
            assert(dseq.skip(0) =~= dseq);
            assert(view_cards(out@) =~= Seq::<(Seq<char>, int)>::empty());
        }
        while i < n
            invariant
                0 <= i <= n,
                forall|q: int| 0 <= q < out@.len() ==> 1 <= (#[trigger] out@[q]).1,
                rows_decks(view_cards(out@), m, dseq.skip(i as int), self.ignore_sb, target)
                    == rows_spec(m, dseq, self.ignore_sb, target),
            decreases n - i,
        {
            let d: &Deck = decks[i];
            let ms = match self.collection.missing(d, self.ignore_sb) {
                Ok(v) => v,
                Err(_) => {
                    proof {
                        assert(false);
                    }
                    return out;
                },
            };
            let ghost msv = view_missing(ms@);
            let ghost acc_deck = view_cards(out@);
            let mlen: usize = ms.len();
            let mut t: usize = 0;
            proof {
                assert(msv.skip(0) =~= msv);
            }
            while t < mlen
                invariant
                    0 <= t <= mlen,
                    mlen == msv.len(),
                    forall|q: int| 0 <= q < out@.len() ==> 1 <= (#[trigger] out@[q]).1,
                    rows_of_missing(view_cards(out@), msv.skip(t as int), target)
                        == rows_of_missing(acc_deck, msv, target),
                decreases mlen - t,
            {
                proof {
                    assert(msv.skip(t as int).drop_first() =~= msv.skip(t + 1 as int));
                    assert(msv.skip(t as int)[0] == msv[t as int]);
                }
                let is_target: bool = ms[t].2 == target;
                if is_target {
                    let amt: u32 = ms[t].1;
                    let ghost acc_card = view_cards(out@);
                    let mut c: u32 = 0;
                    while c < amt
                        invariant
                            0 <= c <= amt,
                            forall|q: int| 0 <= q < out@.len() ==> 1 <= (#[trigger] out@[q]).1,
                            view_cards(out@) == add_copies(acc_card, msv[t as int].0, c as int),
                        decreases amt - c,
                    {
                        let nn: u32 = c + 1;
                        if !contains_row_exec(&out, &ms[t].0, nn) {
                            out.push((ms[t].0.clone(), nn));
                            proof {
                                assert(view_cards(out@) =~= add_copies(
                                    acc_card,
                                    msv[t as int].0,
                                    nn as int,
                                ));
                            }
                        } else {
                            proof {
                                assert(view_cards(out@) =~= add_copies(
                                    acc_card,
                                    msv[t as int].0,
                                    nn as int,
                                ));
                            }
                        }
                        c = nn;
                    }
                    proof {
                        assert(msv[t as int].1 == amt as int);
                        assert(view_cards(out@) == add_copies(
                            acc_card,
                            msv[t as int].0,
                            msv[t as int].1,
                        ));
                    }
                }
                t = t + 1;
            }
            proof {
                assert(msv.skip(mlen as int) =~= Seq::<(Seq<char>, int, Rarity, Seq<char>)>::empty());
                assert(rows_of_missing(view_cards(out@), msv.skip(mlen as int), target)
                    == view_cards(out@));
                assert(dseq.skip(i as int).drop_first() =~= dseq.skip(i + 1 as int));
                assert(dseq.skip(i as int)[0] == dseq[i as int]);
                assert(msv == missing_spec(m, dseq[i as int].cards_spec(self.ignore_sb)));
            }
            i = i + 1;
        }
        proof {
            assert(dseq.skip(n as int) =~= Seq::<Deck>::empty());
        }
        out
    }

    /// Build one rarity's incidence matrix: one column per candidate deck,
    /// with a bit for each row (missing copy) that deck requires.
    #[verifier::loop_isolation(false)]
    pub fn build_matrix(&self, decks: &Vec<&Deck>, rows: &Vec<(String, u32)>, target: Rarity) -> (r:
        Vec<Vec<bool>>)
        requires
            self.collection.wf(),
            forall|d: int| 0 <= d < decks@.len() ==> (*#[trigger] decks@[d]).wf(),
            forall|d: int|
                0 <= d < decks@.len() ==> first_unknown(
                    self.collection.view_spec(),
                    (*#[trigger] decks@[d]).cards_spec(self.ignore_sb),
                ) < 0,
        ensures
            cols_view(r@) == matrix_spec(
                self.collection.view_spec(),
                derefs(decks@),
                self.ignore_sb,
                target,
                view_cards(rows@),
            ),
    {
        let ghost m = self.collection.view_spec();
        let ghost dseq = derefs(decks@);
        let ghost rws = view_cards(rows@);
        let ghost goal = matrix_spec(m, dseq, self.ignore_sb, target, rws);
        let n: usize = decks.len();
        let nrows: usize = rows.len();
        let mut out: Vec<Vec<bool>> = Vec::new();
        let mut d: usize = 0;
        while d < n
            invariant
                0 <= d <= n,
                out@.len() == d,
                forall|q: int| 0 <= q < d ==> (#[trigger] out@[q])@ == goal[q],
            decreases n - d,
        {
            let deck: &Deck = decks[d];
            let ghost cs = dseq[d as int].cards_spec(self.ignore_sb);
            let ms = match self.collection.missing(deck, self.ignore_sb) {
                Ok(v) => v,
                Err(_) => {
                    proof {
                        assert(false);
                    }
                    return out;
                },
            };
            let ghost msv = view_missing(ms@);
            let mut col: Vec<bool> = Vec::new();
            let mut i: usize = 0;
            while i < nrows
                invariant
                    0 <= i <= nrows,
                    col@.len() == i,
                    d < n,
                    msv == missing_spec(m, cs),
                    cs == dseq[d as int].cards_spec(self.ignore_sb),
                    msv == view_missing(ms@),
                    forall|q: int|
                        0 <= q < i ==> col@[q] == deck_needs_row(
                            m,
                            dseq[d as int],
                            self.ignore_sb,
                            target,
                            rws[q].0,
                            rws[q].1,
                        ),
                decreases nrows - i,
            {
                proof {
                    lemma_first_idx(cs, rws[i as int].0);
                }
                let mlen: usize = ms.len();
                let mut t: usize = 0;
                let mut bit: bool = false;
                let mut found: bool = false;
                while t < mlen
                    invariant
                        0 <= t <= mlen,
                        mlen == msv.len(),
                        msv.len() == cs.len(),
                        i < nrows,
                        msv == view_missing(ms@),
                        !found ==> forall|q: int| 0 <= q < t ==> (#[trigger] cs[q]).0 != rws[
                            i as int].0,
                        !found ==> bit == false,
                        found ==> {
                            let j = first_idx(cs, rws[i as int].0);
                            &&& j >= 0
                            &&& bit == (msv[j].2 == target && msv[j].1 >= rws[i as int].1)
                        },
                    decreases mlen - t,
                {
                    proof {
                        assert(msv[t as int] == missing_entry(m, cs[t as int].0, cs[t as int].1));
                        assert(msv[t as int].0 == cs[t as int].0);
                    }
                    if !found && str_eq(ms[t].0.as_str(), rows[i].0.as_str()) {
                        proof {
                            assert(msv[t as int].0 == rws[i as int].0);
                            assert(cs[t as int].0 == rws[i as int].0);
                            assert(first_idx(cs, rws[i as int].0) == t as int);
                        }
                        let mt_rar: Rarity = ms[t].2;
                        let mt_amt: u32 = ms[t].1;
                        bit = mt_rar == target && mt_amt as u64 >= rows[i].1 as u64;
                        found = true;
                    }
                    t = t + 1;
                }
                proof {
                    if !found {
                        assert(first_idx(cs, rws[i as int].0) == -1);
                        assert(!deck_needs_row(
                            m,
                            dseq[d as int],
                            self.ignore_sb,
                            target,
                            rws[i as int].0,
                            rws[i as int].1,
                        ));
                    } else {
                        assert(bit == deck_needs_row(
                            m,
                            dseq[d as int],
                            self.ignore_sb,
                            target,
                            rws[i as int].0,
                            rws[i as int].1,
                        ));
                    }
                }
                col.push(bit);
                i = i + 1;
            }
            proof {
                assert(col@ =~= goal[d as int]);
            }
            out.push(col);
            d = d + 1;
        }
        proof {
            assert(cols_view(out@) =~= goal);
        }
        out
    }
}

/// Whether the row index already holds `(name, n)`.
#[verifier::loop_isolation(false)]
fn contains_row_exec(rows: &Vec<(String, u32)>, name: &String, n: u32) -> (r: bool)
    ensures
        r == contains_row(view_cards(rows@), name@, n as int),
{
    let len: usize = rows.len();
    let mut i: usize = 0;
    while i < len
        invariant
            0 <= i <= len,
            forall|q: int|
                0 <= q < i ==> !((#[trigger] view_cards(rows@)[q]).0 == name@ && view_cards(
                    rows@,
                )[q].1 == n as int),
        decreases len - i,
    {
        if rows[i].1 == n {
            if str_eq(rows[i].0.as_str(), name.as_str()) {
                proof {
                    assert(view_cards(rows@)[i as int].0 == name@ && view_cards(rows@)[i as int].1
                        == n as int);
                }
                return true;
            }
        }
        i = i + 1;
    }
    false
}


/// The names of the selected decks, in deck-index order.
pub open spec fn names_sel(decks: Seq<Deck>, s: Seq<bool>) -> Seq<Seq<char>>
    decreases decks.len(),
{
    if decks.len() == 0 {
        Seq::empty()
    } else {
        let i = decks.len() - 1;
        let prev = names_sel(decks.drop_last(), s);
        if s[i] {
            prev.push(decks[i].name@)
        } else {
            prev
        }
    }
}

/// The mathematical content of an owned name list.
pub open spec fn view_names(v: Seq<String>) -> Seq<Seq<char>> {
    Seq::new(v.len(), |i: int| v[i]@)
}

/// Whether `name` occurs in a list of names.
pub open spec fn in_names(list: Seq<String>, name: Seq<char>) -> bool {
    exists|q: int| 0 <= q < list.len() && (#[trigger] list[q])@ == name
}

/// The seeded starting selection: a bit per candidate deck whose name occurs
/// in the requested starting list.
pub open spec fn start_sel_spec(starting: Seq<String>, decks: Seq<Deck>) -> Seq<bool> {
    Seq::new(decks.len(), |j: int| in_names(starting, decks[j].name@))
}

/// Every relevant deck comes from the roster.
proof fn lemma_relevant_sub(m: MapV, decks: Seq<Deck>, isb: bool, rl: int, ml: int)
    ensures
        forall|i: int|
            0 <= i < relevant_seq(m, decks, isb, rl, ml).len() ==> exists|j: int|
                0 <= j < decks.len() && decks[j] == #[trigger] relevant_seq(m, decks, isb, rl, ml)[i],
    decreases decks.len(),
{
    if decks.len() > 0 {
        lemma_relevant_sub(m, decks.drop_last(), isb, rl, ml);
        let prev = relevant_seq(m, decks.drop_last(), isb, rl, ml);
        let cur = relevant_seq(m, decks, isb, rl, ml);
        assert forall|i: int|
            0 <= i < cur.len() implies exists|j: int|
            0 <= j < decks.len() && decks[j] == #[trigger] cur[i] by {
            if i < prev.len() {
                assert(cur[i] == prev[i]);
                let j = choose|j: int|
                    0 <= j < decks.drop_last().len() && decks.drop_last()[j] == prev[i];
                assert(decks[j] == cur[i]);
            } else {
                assert(cur[i] == decks.last());
                assert(decks[decks.len() - 1] == cur[i]);
            }
        }
    }
}

/// No two decks of the sequence share a name.
pub open spec fn distinct_names(decks: Seq<Deck>) -> bool {
    forall|i: int, j: int|
        0 <= i < j < decks.len() ==> (#[trigger] decks[i]).name@ != (#[trigger] decks[j]).name@
}

/// A name carried by no selected deck does not appear in the name list.
proof fn lemma_names_sel_excludes(decks: Seq<Deck>, s: Seq<bool>, x: Seq<char>)
    requires
        forall|j: int| 0 <= j < decks.len() ==> (#[trigger] decks[j]).name@ != x,
    ensures
        forall|e: int| 0 <= e < names_sel(decks, s).len() ==> names_sel(decks, s)[e] != x,
    decreases decks.len(),
{
    if decks.len() > 0 {
        assert(forall|j: int|
            0 <= j < decks.drop_last().len() ==> (#[trigger] decks.drop_last()[j]).name@ != x);
        lemma_names_sel_excludes(decks.drop_last(), s, x);
        assert forall|e: int|
            0 <= e < names_sel(decks, s).len() implies names_sel(decks, s)[e] != x by {
            if e < names_sel(decks.drop_last(), s).len() {
                assert(names_sel(decks, s)[e] == names_sel(decks.drop_last(), s)[e]);
            } else {
                assert(names_sel(decks, s)[e] == decks[decks.len() - 1].name@);
            }
        }
    }
}

/// With pairwise-distinct deck names, two selections with the same name
/// list agree on every deck.
proof fn lemma_names_sel_injective(decks: Seq<Deck>, s1: Seq<bool>, s2: Seq<bool>)
    requires
        distinct_names(decks),
        names_sel(decks, s1) == names_sel(decks, s2),
    ensures
        forall|i: int| 0 <= i < decks.len() ==> s1[i] == s2[i],
    decreases decks.len(),
{
    if decks.len() > 0 {
        let n = decks.len() - 1;
        let prior = decks.drop_last();
        assert(forall|i: int, j: int|
            0 <= i < j < prior.len() ==> (#[trigger] prior[i]).name@ != (#[trigger] prior[
                j]).name@);
        let p1 = names_sel(prior, s1);
        let p2 = names_sel(prior, s2);
        if s1[n] && s2[n] {
            assert(p1.push(decks[n].name@) == p2.push(decks[n].name@));
            assert(p1 =~= p1.push(decks[n].name@).drop_last());
            assert(p2 =~= p2.push(decks[n].name@).drop_last());
            lemma_names_sel_injective(prior, s1, s2);
        } else if !s1[n] && !s2[n] {
            lemma_names_sel_injective(prior, s1, s2);
        } else if s1[n] {
            assert(names_sel(decks, s2) == p2);
            assert(p2.len() == p1.len() + 1);
            assert(p2[p2.len() - 1] == decks[n].name@);
            assert(forall|j: int|
                0 <= j < prior.len() ==> (#[trigger] prior[j]).name@ != decks[n].name@);
            lemma_names_sel_excludes(prior, s2, decks[n].name@);
            assert(false);
        } else {
            assert(names_sel(decks, s1) == p1);
            assert(p1.len() == p2.len() + 1);
            assert(p1[p1.len() - 1] == decks[n].name@);
            assert(forall|j: int|
                0 <= j < prior.len() ==> (#[trigger] prior[j]).name@ != decks[n].name@);
            lemma_names_sel_excludes(prior, s1, decks[n].name@);
            assert(false);
        }
    }
}

/// The name list belongs to some winning selection.
pub open spec fn is_winner_names(
    p: SearchParams,
    start: Seq<bool>,
    rel_seq: Seq<Deck>,
    names: Seq<Seq<char>>,
) -> bool {
    exists|s: Seq<bool>|
        #![trigger p.winner(start, s)]
        p.winner(start, s) && names == names_sel(rel_seq, s)
}

#[verifier::loop_isolation(false)]
fn collect_names(decks: &Vec<&Deck>, sel: &Vec<bool>) -> (r: Vec<String>)
    requires
        sel@.len() == decks@.len(),
    ensures
        view_names(r@) == names_sel(derefs(decks@), sel@),
{
    let ghost dseq = derefs(decks@);
    let n: usize = decks.len();
    let mut r: Vec<String> = Vec::new();
    let mut j: usize = 0;
    proof {
        assert(dseq.take(0) =~= Seq::<Deck>::empty());
        assert(view_names(r@) =~= names_sel(dseq.take(0), sel@));
    }
    while j < n
        invariant
            0 <= j <= n,
            view_names(r@) == names_sel(dseq.take(j as int), sel@),
        decreases n - j,
    {
        proof {
            assert(dseq.take(j + 1 as int).drop_last() =~= dseq.take(j as int));
            assert(dseq.take(j + 1 as int)[j as int] == dseq[j as int]);
        }
        if sel[j] {
            r.push(decks[j].name.clone());
            proof {
                assert(view_names(r@) =~= names_sel(dseq.take(j + 1 as int), sel@));
            }
        } else {
            proof {
                assert(view_names(r@) =~= names_sel(dseq.take(j + 1 as int), sel@));
            }
        }
        j = j + 1;
    }
    proof {
        assert(dseq.take(n as int) =~= dseq);
    }
    r
}

impl<'r, 'c> CraftRecommender<'r, 'c> {
    /// The candidate decks of this instance.
    pub open spec fn rel(self) -> Seq<Deck> {
        relevant_seq(
            self.collection.view_spec(),
            self.roster.decks@,
            self.ignore_sb,
            self.rares_limit as int,
            self.mythics_limit as int,
        )
    }

    /// The search instance this recommender solves: the two incidence
    /// matrices over the candidate decks, and the two budgets.
    pub open spec fn params(self) -> SearchParams {
        let m = self.collection.view_spec();
        let rr = rows_spec(m, self.rel(), self.ignore_sb, Rarity::Rare);
        let rm = rows_spec(m, self.rel(), self.ignore_sb, Rarity::Mythic);
        SearchParams {
            cols_r: matrix_spec(m, self.rel(), self.ignore_sb, Rarity::Rare, rr),
            cols_m: matrix_spec(m, self.rel(), self.ignore_sb, Rarity::Mythic, rm),
            rows_r: rr.len(),
            rows_m: rm.len(),
            rl: self.rares_limit as int,
            ml: self.mythics_limit as int,
        }
    }

    /// The seeded starting selection.
    pub open spec fn start(self) -> Seq<bool> {
        start_sel_spec(self.starting_sel@, self.rel())
    }

    /// What a successful recommendation returns: every entry names a
    /// winning selection, and every winning selection is named by an entry.
    pub open spec fn recommend_ok(self, res: Seq<Vec<String>>) -> bool {
        &&& first_bad_deck(self.collection.view_spec(), self.roster.decks@, self.ignore_sb) == -1
        &&& forall|q: int|
            0 <= q < res.len() ==> is_winner_names(
                self.params(),
                self.start(),
                self.rel(),
                view_names((#[trigger] res[q])@),
            )
        &&& forall|s: Seq<bool>|
            #![trigger self.params().winner(self.start(), s)]
            self.params().winner(self.start(), s) ==> exists|q: int|
                0 <= q < res.len() && view_names((#[trigger] res[q])@) == names_sel(self.rel(), s)
        &&& distinct_names(self.rel()) ==> forall|a: int, b: int|
            0 <= a < b < res.len() ==> view_names((#[trigger] res[a])@) != view_names(
                (#[trigger] res[b])@,
            )
    }

    /// What a failed recommendation returns: the unknown-card error of the
    /// first roster deck whose requirements the ledger cannot resolve.
    pub open spec fn recommend_err(self, e: TrackerError) -> bool {
        let m = self.collection.view_spec();
        let b = first_bad_deck(m, self.roster.decks@, self.ignore_sb);
        &&& b >= 0
        &&& unknown_err(m, self.roster.decks@[b].cards_spec(self.ignore_sb), e)
    }

    /// Compute the winning deck sets: every selection of candidate decks
    /// that is reachable from the seeded start, can be extended no further
    /// within the budgets, and attains the maximum achievable deck count.
    /// Each winning selection is returned as its list of deck names.
    /// `UnknownCard` if any roster deck requires a card the ledger lacks.
    #[verifier::loop_isolation(false)]
    #[verifier::rlimit(100)]
    pub fn recommend(&self) -> (r: Result<Vec<Vec<String>>, TrackerError>)
        requires
            self.collection.wf(),
            self.roster.wf(),
        ensures
            match r {
                Ok(res) => self.recommend_ok(res@),
                Err(e) => self.recommend_err(e),
            },
    {
        let ghost m = self.collection.view_spec();
        let rel: Vec<&Deck> = match self.relevant_decks() {
            Ok(v) => v,
            Err(e) => {
                proof {
                    assert(self.recommend_err(e));
                }
                return Err(e);
            },
        };
        let ghost rel_seq = self.rel();
        proof {
            assert(derefs(rel@) == rel_seq);
            lemma_relevant_sub(
                m,
                self.roster.decks@,
                self.ignore_sb,
                self.rares_limit as int,
                self.mythics_limit as int,
            );
            lemma_first_bad_deck(m, self.roster.decks@, self.ignore_sb);
            assert forall|d: int| 0 <= d < rel@.len() implies (*#[trigger] rel@[d]).wf() by {
                assert(derefs(rel@)[d] == *rel@[d]);
                let j = choose|j: int|
                    0 <= j < self.roster.decks@.len() && self.roster.decks@[j] == rel_seq[d];
                assert(self.roster.decks@[j].wf());
            }
            assert forall|d: int|
                0 <= d < rel@.len() implies first_unknown(
                m,
                (*#[trigger] rel@[d]).cards_spec(self.ignore_sb),
            ) < 0 by {
                assert(derefs(rel@)[d] == *rel@[d]);
                let j = choose|j: int|
                    0 <= j < self.roster.decks@.len() && self.roster.decks@[j] == rel_seq[d];
                assert(first_unknown(m, self.roster.decks@[j].cards_spec(self.ignore_sb)) < 0);
            }
        }
        let rows_r = self.build_rows_index(&rel, Rarity::Rare);
        let rows_m = self.build_rows_index(&rel, Rarity::Mythic);
        let cols_r = self.build_matrix(&rel, &rows_r, Rarity::Rare);
        let cols_m = self.build_matrix(&rel, &rows_m, Rarity::Mythic);
        let k: usize = rel.len();
        let start: Vec<bool> = build_start(&self.starting_sel, &rel);
        let ghost p = self.params();
        let ghost startv = start@;
        proof {
            assert(startv =~= self.start());
            assert(p.cols_r == cols_view(cols_r@));
            assert(p.cols_m == cols_view(cols_m@));
            assert(p.rows_r == view_cards(rows_r@).len());
            assert(p.rows_m == view_cards(rows_m@).len());
            lemma_matrix_wf(
                m,
                rel_seq,
                self.ignore_sb,
                Rarity::Rare,
                rows_spec(m, rel_seq, self.ignore_sb, Rarity::Rare),
            );
            lemma_matrix_wf(
                m,
                rel_seq,
                self.ignore_sb,
                Rarity::Mythic,
                rows_spec(m, rel_seq, self.ignore_sb, Rarity::Mythic),
            );
            assert(p.wf(startv.len() as int));
        }
        let out: Vec<Vec<String>> = solve_winners(
            &rel,
            &cols_r,
            &cols_m,
            rows_r.len(),
            rows_m.len(),
            self.rares_limit,
            self.mythics_limit,
            start,
            Ghost(p),
            Ghost(rel_seq),
        );
        proof {
            assert(p == self.params());
            assert(startv == self.start());
            assert(rel_seq == self.rel());
            assert forall|q2: int|
                0 <= q2 < out@.len() implies is_winner_names(
                self.params(),
                self.start(),
                self.rel(),
                view_names((#[trigger] out@[q2])@),
            ) by {
                assert(is_winner_names(p, startv, rel_seq, view_names(out@[q2]@)));
            }
            assert forall|s: Seq<bool>|
                #![trigger self.params().winner(self.start(), s)]
                self.params().winner(self.start(), s) implies exists|q2: int|
                0 <= q2 < out@.len() && view_names((#[trigger] out@[q2])@) == names_sel(
                    self.rel(),
                    s,
                ) by {
                assert(p.winner(startv, s));
            }
            if distinct_names(self.rel()) {
                assert(distinct_names(rel_seq));
                assert(forall|a: int, b: int|
                    0 <= a < b < out@.len() ==> view_names((#[trigger] out@[a])@) != view_names(
                        (#[trigger] out@[b])@,
                    ));
            }
            assert(self.recommend_ok(out@));
        }
        Ok(out)
    }
}

/// Each matrix column has one bit per requirement row.
proof fn lemma_matrix_wf(
    m: MapV,
    decks: Seq<Deck>,
    isb: bool,
    target: Rarity,
    rows: Seq<(Seq<char>, int)>,
)
    ensures
        cols_wf(matrix_spec(m, decks, isb, target, rows), decks.len() as int, rows.len() as int),
{
    let mat = matrix_spec(m, decks, isb, target, rows);
    assert(mat.len() == decks.len());
    assert forall|d: int| 0 <= d < decks.len() implies (#[trigger] mat[d]).len()
        == rows.len() as int by {
        assert(mat[d] == Seq::new(
            rows.len(),
            |i: int| deck_needs_row(m, decks[d], isb, target, rows[i].0, rows[i].1),
        ));
    }
}

/// The seeded starting selection: one bit per candidate deck whose name is
/// in the requested list.
#[verifier::loop_isolation(false)]
fn build_start(starting: &Vec<String>, rel: &Vec<&Deck>) -> (r: Vec<bool>)
    ensures
        r@ == start_sel_spec(starting@, derefs(rel@)),
{
    let ghost rel_seq = derefs(rel@);
    let k: usize = rel.len();
    let mut start: Vec<bool> = Vec::new();
    let mut j: usize = 0;
    while j < k
        invariant
            0 <= j <= k,
            start@.len() == j,
            forall|p2: int|
                0 <= p2 < j ==> start@[p2] == in_names(starting@, rel_seq[p2].name@),
        decreases k - j,
    {
        let sn: usize = starting.len();
        let mut q: usize = 0;
        let mut hit: bool = false;
        while q < sn
            invariant
                0 <= q <= sn,
                j < k,
                hit ==> in_names(starting@, rel_seq[j as int].name@),
                !hit ==> forall|q2: int|
                    0 <= q2 < q ==> (#[trigger] starting@[q2])@ != rel_seq[j as int].name@,
            decreases sn - q,
        {
            if !hit && str_eq(starting[q].as_str(), rel[j].name.as_str()) {
                proof {
                    assert((*rel@[j as int]).name@ == rel_seq[j as int].name@);
                    assert(starting@[q as int]@ == rel_seq[j as int].name@);
                }
                hit = true;
            }
            q = q + 1;
        }
        proof {
            if !hit {
                if in_names(starting@, rel_seq[j as int].name@) {
                    let qw = choose|qw: int|
                        0 <= qw < starting@.len() && (#[trigger] starting@[qw])@ == rel_seq[
                            j as int].name@;
                    assert(false);
                }
            }
        }
        start.push(hit);
        j = j + 1;
    }
    proof {
        assert(start@ =~= start_sel_spec(starting@, rel_seq));
    }
    start
}

/// Run the memoized search and collect the winning selections as deck-name
/// lists: exactly those terminal selections reachable from the start whose
/// deck count attains the best achievable value.
#[verifier::loop_isolation(false)]
fn solve_winners(
    rel: &Vec<&Deck>,
    cols_r: &Vec<Vec<bool>>,
    cols_m: &Vec<Vec<bool>>,
    rows_r_len: usize,
    rows_m_len: usize,
    rl: usize,
    ml: usize,
    start: Vec<bool>,
    Ghost(p): Ghost<SearchParams>,
    Ghost(rel_seq): Ghost<Seq<Deck>>,
) -> (out: Vec<Vec<String>>)
    requires
        p == (SearchParams {
            cols_r: cols_view(cols_r@),
            cols_m: cols_view(cols_m@),
            rows_r: rows_r_len as nat,
            rows_m: rows_m_len as nat,
            rl: rl as int,
            ml: ml as int,
        }),
        p.wf(start@.len() as int),
        rel@.len() == start@.len(),
        rel_seq == derefs(rel@),
    ensures
        forall|q2: int|
            0 <= q2 < out@.len() ==> is_winner_names(
                p,
                start@,
                rel_seq,
                view_names((#[trigger] out@[q2])@),
            ),
        forall|s: Seq<bool>|
            #![trigger p.winner(start@, s)]
            p.winner(start@, s) ==> exists|q2: int|
                0 <= q2 < out@.len() && view_names((#[trigger] out@[q2])@) == names_sel(
                    rel_seq,
                    s,
                ),
        distinct_names(rel_seq) ==> forall|a: int, b: int|
            0 <= a < b < out@.len() ==> view_names((#[trigger] out@[a])@) != view_names(
                (#[trigger] out@[b])@,
            ),
{
    let k: usize = start.len();
    let ghost startv = start@;
    let mut memo = Memo::new();
    let mut terms: Vec<Vec<bool>> = Vec::new();
    proof {
        assert(memo.wf(p, k as int));
        assert(terms_ok(p, memo.keys@, terms@));
    }
    let ghost keys0 = memo.keys@;
    let best: usize = search_best(
        cols_r,
        cols_m,
        rows_r_len,
        rows_m_len,
        rl,
        ml,
        start,
        &mut memo,
        &mut terms,
        Ghost(p),
    );
    let mut out: Vec<Vec<String>> = Vec::new();
    let ghost mut sels: Seq<Seq<bool>> = Seq::empty();
    let tn: usize = terms.len();
    let mut q: usize = 0;
    while q < tn
        invariant
            0 <= q <= tn,
            tn == terms@.len(),
            sels.len() == out@.len(),
            forall|p2: int|
                0 <= p2 < sels.len() ==> view_names(out@[p2]@) == names_sel(
                    rel_seq,
                    #[trigger] sels[p2],
                ),
            forall|p2: int| 0 <= p2 < sels.len() ==> (#[trigger] sels[p2]).len() == k,
            forall|a: int, b: int| 0 <= a < b < sels.len() ==> sels[a] != sels[b],
            forall|p2: int|
                0 <= p2 < sels.len() ==> exists|q2: int|
                    0 <= q2 < q && #[trigger] sels[p2] == terms@[q2]@,
            forall|q2: int|
                0 <= q2 < out@.len() ==> is_winner_names(
                    p,
                    startv,
                    rel_seq,
                    view_names((#[trigger] out@[q2])@),
                ),
            forall|q3: int|
                0 <= q3 < q && count_trues((#[trigger] terms@[q3])@) == best as int
                    ==> exists|q2: int|
                    0 <= q2 < out@.len() && view_names((#[trigger] out@[q2])@) == names_sel(
                        rel_seq,
                        terms@[q3]@,
                    ),
        decreases tn - q,
    {
        let c: usize = count_trues_exec(&terms[q]);
        if c == best {
            proof {
                assert(p.terminal(terms@[q as int]@));
                assert(in_keys(memo.keys@, terms@[q as int]@));
                assert(!in_keys(keys0, terms@[q as int]@));
                assert(p.reaches(startv, terms@[q as int]@));
                assert(p.winner(startv, terms@[q as int]@));
                let qk = choose|qk: int|
                    0 <= qk < memo.keys@.len() && (#[trigger] memo.keys@[qk])@ == terms@[
                        q as int]@;
                assert(terms@[q as int]@.len() == k as int);
            }
            let names: Vec<String> = collect_names(rel, &terms[q]);
            let ghost out_old = out@;
            out.push(names);
            proof {
                let ghost sels_old = sels;
                sels = sels.push(terms@[q as int]@);
                assert(view_names(out@[out@.len() - 1]@) == names_sel(
                    rel_seq,
                    terms@[q as int]@,
                ));
                assert forall|a: int, b: int|
                    0 <= a < b < sels.len() implies sels[a] != sels[b] by {
                    if b == sels.len() - 1 {
                        let q2 = choose|q2: int|
                            0 <= q2 < q && #[trigger] sels_old[a] == terms@[q2]@;
                        assert(terms@[q2]@ != terms@[q as int]@);
                    }
                }
                assert forall|p2: int|
                    0 <= p2 < sels.len() implies exists|q2: int|
                    0 <= q2 < q + 1 && #[trigger] sels[p2] == terms@[q2]@ by {
                    if p2 < sels.len() - 1 {
                        let q2 = choose|q2: int|
                            0 <= q2 < q && #[trigger] sels_old[p2] == terms@[q2]@;
                        assert(0 <= q2 < q + 1 && sels[p2] == terms@[q2]@);
                    } else {
                        assert(sels[p2] == terms@[q as int]@);
                    }
                }
                assert forall|q3: int|
                    0 <= q3 < q + 1 && count_trues((#[trigger] terms@[q3])@)
                        == best as int implies exists|q2: int|
                    0 <= q2 < out@.len() && view_names((#[trigger] out@[q2])@) == names_sel(
                        rel_seq,
                        terms@[q3]@,
                    ) by {
                    if q3 < q {
                        let q2 = choose|q2: int|
                            0 <= q2 < out_old.len() && view_names((#[trigger] out_old[q2])@)
                                == names_sel(rel_seq, terms@[q3]@);
                        assert(out@[q2] == out_old[q2]);
                        assert(view_names(out@[q2]@) == names_sel(rel_seq, terms@[q3]@));
                    } else {
                        assert(view_names(out@[out@.len() - 1]@) == names_sel(
                            rel_seq,
                            terms@[q3]@,
                        ));
                    }
                }
                assert forall|q2: int|
                    0 <= q2 < out@.len() implies is_winner_names(
                    p,
                    startv,
                    rel_seq,
                    view_names((#[trigger] out@[q2])@),
                ) by {
                    if q2 < out@.len() - 1 {
                        assert(out@[q2] == out_old[q2]);
                        assert(is_winner_names(p, startv, rel_seq, view_names(out_old[q2]@)));
                    } else {
                        assert(p.winner(startv, terms@[q as int]@) && view_names(out@[q2]@)
                            == names_sel(rel_seq, terms@[q as int]@));
                        assert(is_winner_names(p, startv, rel_seq, view_names(out@[q2]@)));
                    }
                }
            }
        }
        q = q + 1;
    }
    proof {
        if distinct_names(rel_seq) {
            assert forall|a: int, b: int|
                0 <= a < b < out@.len() implies view_names((#[trigger] out@[a])@) != view_names(
                (#[trigger] out@[b])@,
            ) by {
                if view_names(out@[a]@) == view_names(out@[b]@) {
                    assert(names_sel(rel_seq, sels[a]) == names_sel(rel_seq, sels[b]));
                    lemma_names_sel_injective(rel_seq, sels[a], sels[b]);
                    assert(rel_seq.len() == k as int);
                    assert forall|i: int| 0 <= i < k implies sels[a][i] == sels[b][i] by {}
                    assert(sels[a] =~= sels[b]);
                    assert(false);
                }
            }
        }
        assert forall|s: Seq<bool>|
            #![trigger p.winner(startv, s)]
            p.winner(startv, s) implies exists|q2: int|
            0 <= q2 < out@.len() && view_names((#[trigger] out@[q2])@) == names_sel(
                rel_seq,
                s,
            ) by {
            let qk = choose|qk: int|
                0 <= qk < memo.keys@.len() && (#[trigger] memo.keys@[qk])@ == startv;
            assert(p.reaches(memo.keys@[qk]@, s));
            assert(in_keys(memo.keys@, s));
            let qs = choose|qs: int|
                0 <= qs < memo.keys@.len() && (#[trigger] memo.keys@[qs])@ == s;
            assert(p.terminal(memo.keys@[qs]@));
            assert(in_keys(terms@, s));
            let q3 = choose|q3: int| 0 <= q3 < terms@.len() && (#[trigger] terms@[q3])@ == s;
            assert(count_trues(terms@[q3]@) == best as int);
        }
    }
    out
}

} // verus!
