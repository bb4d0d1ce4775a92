use vstd::prelude::*;
use crate::TrackerError;
use crate::deck::{Deck, view_cards};
use crate::names::str_eq;

verus! {

/// First index of a deck with the given name, or `-1` if there is none.
pub open spec fn first_deck_idx(decks: Seq<Deck>, name: Seq<char>) -> int
    decreases decks.len(),
{
    if decks.len() == 0 {
        -1
    } else if decks[0].name@ == name {
        0
    } else {
        let r = first_deck_idx(decks.drop_first(), name);
        if r < 0 {
            -1
        } else {
            1 + r
        }
    }
}

pub proof fn lemma_first_deck_idx(decks: Seq<Deck>, name: Seq<char>)
    ensures
        first_deck_idx(decks, name) == -1 ==> forall|j: int|
            0 <= j < decks.len() ==> (#[trigger] decks[j]).name@ != name,
        first_deck_idx(decks, name) != -1 ==> {
            let i = first_deck_idx(decks, name);
            &&& 0 <= i < decks.len()
            &&& decks[i].name@ == name
            &&& forall|j: int| 0 <= j < i ==> (#[trigger] decks[j]).name@ != name
        },
    decreases decks.len(),
{
    if decks.len() == 0 {
    } else if decks[0].name@ == name {
    } else {
        let t = decks.drop_first();
        lemma_first_deck_idx(t, name);
        let r = first_deck_idx(t, name);
        assert(forall|j: int| 0 <= j < t.len() ==> t[j] == decks[j + 1]);
        if r < 0 {
            assert forall|j: int|
                0 <= j < decks.len() implies (#[trigger] decks[j]).name@ != name by {
                if j > 0 {
                    assert(t[j - 1] == decks[j]);
                }
            }
        } else {
            assert(t[r] == decks[1 + r]);
            assert forall|j: int| 0 <= j < 1 + r implies (#[trigger] decks[j]).name@ != name by {
                if j > 0 {
                    assert(t[j - 1] == decks[j]);
                }
            }
        }
    }
}

/// The requirement lists of all decks, concatenated in roster order (not
/// coalesced across decks).
pub open spec fn roster_cards_spec(decks: Seq<Deck>, ignore_sideboard: bool) -> Seq<
    (Seq<char>, int),
>
    decreases decks.len(),
{
    if decks.len() == 0 {
        Seq::empty()
    } else {
        roster_cards_spec(decks.drop_last(), ignore_sideboard) + decks.last().cards_spec(
            ignore_sideboard,
        )
    }
}

/// The ordered roster of tracked decks.
#[derive(Debug)]
pub struct Roster {
    pub decks: Vec<Deck>,
}

impl Roster {
    /// Every deck in the roster is well-formed.
    pub open spec fn wf(self) -> bool {
        forall|i: int| 0 <= i < self.decks@.len() ==> (#[trigger] self.decks@[i]).wf()
    }

    pub fn new() -> (r: Roster)
        ensures
            r.decks@.len() == 0,
            r.wf(),
    {
        Roster { decks: Vec::new() }
    }

    pub fn decks(&self) -> (r: &Vec<Deck>)
        ensures
            r == &self.decks,
    {
        &self.decks
    }

    pub fn decks_mut(&mut self) -> (r: &mut Vec<Deck>)
        ensures
            *r == old(self).decks,
            final(self).decks == *final(r),
    {
        &mut self.decks
    }

    pub fn len(&self) -> (r: usize)
        ensures
            r == self.decks@.len(),
    {
        self.decks.len()
    }

    pub fn is_empty(&self) -> (r: bool)
        ensures
            r == (self.decks@.len() == 0),
    {
        self.decks.len() == 0
    }

    pub fn get(&self, n: usize) -> (r: Option<&Deck>)
        ensures
            match r {
                Some(d) => n < self.decks@.len() && *d == self.decks@[n as int],
                None => n >= self.decks@.len(),
            },
    {
        if n < self.decks.len() {
            Some(&self.decks[n])
        } else {
            None
        }
    }

    pub fn add_deck(&mut self, deck: Deck)
        ensures
            final(self).decks@ == old(self).decks@.push(deck),
    {
        self.decks.push(deck);
    }

    /// Index of the first deck with this name.
    #[verifier::loop_isolation(false)]
    fn position(&self, deck_name: &str) -> (r: Option<usize>)
        ensures
            match r {
                Some(i) => first_deck_idx(self.decks@, deck_name@) == i as int,
                None => first_deck_idx(self.decks@, deck_name@) == -1,
            },
    {
        proof {
            lemma_first_deck_idx(self.decks@, deck_name@);
        }
        let n: usize = self.decks.len();
        let mut i: usize = 0;
        while i < n
            invariant
                0 <= i <= n,
                forall|p: int| 0 <= p < i ==> (#[trigger] self.decks@[p]).name@ != deck_name@,
            decreases n - i,
        {
            if str_eq(self.decks[i].name.as_str(), deck_name) {
                proof {
                    assert(self.decks@[i as int].name@ == deck_name@);
                }
                return Some(i);
            }
            i = i + 1;
        }
        None
    }

    /// Remove the first deck with this name by swapping the last deck into
    /// its place; `DeckNotFound` if no deck matches.
    pub fn remove_deck(&mut self, name: &str) -> (r: Result<(), TrackerError>)
        ensures
            match r {
                Ok(_) => {
                    let i = first_deck_idx(old(self).decks@, name@);
                    &&& i >= 0
                    &&& final(self).decks@ == old(self).decks@.update(
                        i,
                        old(self).decks@.last(),
                    ).drop_last()
                },
                Err(e) => {
                    &&& first_deck_idx(old(self).decks@, name@) == -1
                    &&& *final(self) == *old(self)
                    &&& e matches TrackerError::DeckNotFound(n) && n@ == name@
                },
            },
    {
        match self.position(name) {
            Some(i) => {
                proof {
                    lemma_first_deck_idx(self.decks@, name@);
                }
                self.decks.swap_remove(i);
                Ok(())
            },
            None => Err(TrackerError::DeckNotFound(name.to_owned())),
        }
    }

    /// The decks' names, in roster order.
    #[verifier::loop_isolation(false)]
    pub fn deck_names(&self) -> (r: Vec<String>)
        ensures
            r@.len() == self.decks@.len(),
            forall|i: int| 0 <= i < r@.len() ==> r@[i]@ == (#[trigger] self.decks@[i]).name@,
    {
        let mut r: Vec<String> = Vec::new();
        let n: usize = self.decks.len();
        let mut i: usize = 0;
        while i < n
            invariant
                0 <= i <= n,
                r@.len() == i,
                forall|p: int| 0 <= p < i ==> r@[p]@ == (#[trigger] self.decks@[p]).name@,
            decreases n - i,
        {
            r.push(self.decks[i].name.clone());
            i = i + 1;
        }
        r
    }

    /// The first deck with this name; `DeckNotFound` if no deck matches.
    pub fn find(&self, deck_name: &str) -> (r: Result<&Deck, TrackerError>)
        ensures
            match r {
                Ok(d) => {
                    let i = first_deck_idx(self.decks@, deck_name@);
                    i >= 0 && *d == self.decks@[i]
                },
                Err(e) => first_deck_idx(self.decks@, deck_name@) == -1 && (
                e matches TrackerError::DeckNotFound(n) && n@ == deck_name@),
            },
    {
        match self.position(deck_name) {
            Some(i) => {
                proof {
                    lemma_first_deck_idx(self.decks@, deck_name@);
                }
                Ok(&self.decks[i])
            },
            None => Err(TrackerError::DeckNotFound(deck_name.to_owned())),
        }
    }

    /// A mutable borrow of the first deck with this name.
    pub fn find_mut(&mut self, deck_name: &str) -> (r: Result<&mut Deck, TrackerError>)
        ensures
            match r {
                Ok(d) => {
                    let i = first_deck_idx(old(self).decks@, deck_name@);
                    &&& i >= 0
                    &&& *d == old(self).decks@[i]
                    &&& final(self).decks@ == old(self).decks@.update(i, *final(d))
                },
                Err(e) => {
                    &&& first_deck_idx(old(self).decks@, deck_name@) == -1
                    &&& *final(self) == *old(self)
                    &&& e matches TrackerError::DeckNotFound(n) && n@ == deck_name@
                },
            },
    {
        match self.position(deck_name) {
            Some(i) => {
                proof {
                    lemma_first_deck_idx(self.decks@, deck_name@);
                }
                Ok(vstd::std_specs::vec::vec_index_mut(&mut self.decks, i))
            },
            None => Err(TrackerError::DeckNotFound(deck_name.to_owned())),
        }
    }

    /// Replace the first deck with this name by `deck`.
    pub fn replace(&mut self, deck_name: &str, deck: Deck) -> (r: Result<(), TrackerError>)
        ensures
            match r {
                Ok(_) => {
                    let i = first_deck_idx(old(self).decks@, deck_name@);
                    i >= 0 && final(self).decks@ == old(self).decks@.update(i, deck)
                },
                Err(e) => {
                    &&& first_deck_idx(old(self).decks@, deck_name@) == -1
                    &&& *final(self) == *old(self)
                    &&& e matches TrackerError::DeckNotFound(n) && n@ == deck_name@
                },
            },
    {
        match self.position(deck_name) {
            Some(i) => {
                proof {
                    lemma_first_deck_idx(self.decks@, deck_name@);
                }
                self.decks[i] = deck;
                Ok(())
            },
            None => Err(TrackerError::DeckNotFound(deck_name.to_owned())),
        }
    }

    /// Every deck's requirement list, concatenated in roster order.
    #[verifier::loop_isolation(false)]
    pub fn cards(&self, ignore_sideboard: bool) -> (r: Vec<(String, u32)>)
        requires
            self.wf(),
        ensures
            view_cards(r@) == roster_cards_spec(self.decks@, ignore_sideboard),
    {
        let mut out: Vec<(String, u32)> = Vec::new();
        let n: usize = self.decks.len();
        let mut i: usize = 0;
        proof {
            assert(self.decks@.take(0) =~= Seq::<Deck>::empty());
            assert(view_cards(out@) =~= roster_cards_spec(self.decks@.take(0), ignore_sideboard));
        }
        while i < n
            invariant
                0 <= i <= n,
                view_cards(out@) == roster_cards_spec(self.decks@.take(i as int), ignore_sideboard),
            decreases n - i,
        {
            let mut part = self.decks[i].cards(ignore_sideboard);
            let ghost pre = out@;
            let ghost pv = part@;
            out.append(&mut part);
            proof {
                assert(self.decks@.take(i + 1 as int).drop_last() =~= self.decks@.take(i as int));
                assert(self.decks@.take(i + 1 as int).last() == self.decks@[i as int]);
                assert(view_cards(pre + pv) =~= view_cards(pre) + view_cards(pv));
                assert(view_cards(out@) =~= roster_cards_spec(
                    self.decks@.take(i + 1 as int),
                    ignore_sideboard,
                ));
            }
            i = i + 1;
        }
        proof {
            assert(self.decks@.take(n as int) =~= self.decks@);
        }
        out
    }
}

} // verus!
