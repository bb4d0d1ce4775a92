use vstd::prelude::*;
use crate::names::str_eq;

verus! {

/// Upper bound on the number of list entries per board. It keeps every
/// coalesced amount and cost sum exactly representable in machine integers.
pub const MAX_BOARD: usize = 10000;

/// The card that signals a wishboard archetype: when it is in the mainboard,
/// the first seven sideboard entries count as required even when sideboards
/// are otherwise ignored.
pub open spec fn wishboard_trigger() -> Seq<char> {
    "Karn, the Great Creator"@
}

/// First index of `name` among the names of `s`, or `-1` if absent.
pub open spec fn first_idx(s: Seq<(Seq<char>, int)>, name: Seq<char>) -> int
    decreases s.len(),
{
    if s.len() == 0 {
        -1
    } else if s[0].0 == name {
        0
    } else {
        let r = first_idx(s.drop_first(), name);
        if r < 0 {
            -1
        } else {
            1 + r
        }
    }
}

pub proof fn lemma_first_idx(s: Seq<(Seq<char>, int)>, name: Seq<char>)
    ensures
        first_idx(s, name) == -1 ==> forall|j: int| 0 <= j < s.len() ==> s[j].0 != name,
        first_idx(s, name) != -1 ==> {
            let i = first_idx(s, name);
            &&& 0 <= i < s.len()
            &&& s[i].0 == name
            &&& forall|j: int| 0 <= j < i ==> s[j].0 != name
        },
    decreases s.len(),
{
    if s.len() == 0 {
    } else if s[0].0 == name {
        assert(first_idx(s, name) == 0);
    } else {
        let t = s.drop_first();
        lemma_first_idx(t, name);
        let r = first_idx(t, name);
        assert(forall|j: int| 0 <= j < t.len() ==> t[j] == s[j + 1]);
        if r < 0 {
            assert(first_idx(s, name) == -1);
            assert forall|j: int| 0 <= j < s.len() implies s[j].0 != name by {
                if j > 0 {
                    assert(t[j - 1] == s[j]);
                    assert(t[j - 1].0 != name);
                }
            }
        } else {
            assert(first_idx(s, name) == 1 + r);
            assert(t[r] == s[1 + r]);
            assert(s[1 + r].0 == name);
            assert forall|j: int| 0 <= j < 1 + r implies s[j].0 != name by {
                if j > 0 {
                    assert(t[j - 1] == s[j]);
                    assert(t[j - 1].0 != name);
                }
            }
        }
    }
}

/// Add `amt` copies of `name` to a coalesced list: the first entry with this
/// name is increased, or a new entry is appended.
pub open spec fn bump(acc: Seq<(Seq<char>, int)>, name: Seq<char>, amt: int) -> Seq<
    (Seq<char>, int),
> {
    let i = first_idx(acc, name);
    if i < 0 {
        acc.push((name, amt))
    } else {
        acc.update(i, (name, acc[i].1 + amt))
    }
}

/// Coalesce a list of (name, amount) entries into one amount per distinct
/// name, names in order of first occurrence.
pub open spec fn coalesce(entries: Seq<(Seq<char>, int)>) -> Seq<(Seq<char>, int)>
    decreases entries.len(),
{
    if entries.len() == 0 {
        Seq::empty()
    } else {
        bump(coalesce(entries.drop_last()), entries.last().0, entries.last().1)
    }
}

/// The mathematical content of an owned `(String, u32)` list.
pub open spec fn view_cards(s: Seq<(String, u32)>) -> Seq<(Seq<char>, int)> {
    Seq::new(s.len(), |i: int| (s[i].0@, s[i].1 as int))
}

/// Sum of the amounts of an entry list.
pub open spec fn sum_snd(s: Seq<(Seq<char>, int)>) -> int
    decreases s.len(),
{
    if s.len() == 0 {
        0
    } else {
        sum_snd(s.drop_last()) + s.last().1
    }
}

proof fn lemma_sum_update(s: Seq<(Seq<char>, int)>, i: int, v: (Seq<char>, int))
    requires
        0 <= i < s.len(),
    ensures
        sum_snd(s.update(i, v)) == sum_snd(s) - s[i].1 + v.1,
    decreases s.len(),
{
    let s2 = s.update(i, v);
    if i == s.len() - 1 {
        assert(s2.drop_last() =~= s.drop_last());
    } else {
        assert(s2.drop_last() =~= s.drop_last().update(i, v));
        lemma_sum_update(s.drop_last(), i, v);
    }
}

proof fn lemma_bump_sum(acc: Seq<(Seq<char>, int)>, name: Seq<char>, amt: int)
    ensures
        sum_snd(bump(acc, name, amt)) == sum_snd(acc) + amt,
{
    lemma_first_idx(acc, name);
    let i = first_idx(acc, name);
    if i < 0 {
        let s2 = acc.push((name, amt));
        assert(s2.drop_last() =~= acc);
    } else {
        lemma_sum_update(acc, i, (name, acc[i].1 + amt));
    }
}

/// Coalescing conserves the total number of required copies.
pub proof fn lemma_coalesce_sum(entries: Seq<(Seq<char>, int)>)
    ensures
        sum_snd(coalesce(entries)) == sum_snd(entries),
    decreases entries.len(),
{
    if entries.len() > 0 {
        lemma_coalesce_sum(entries.drop_last());
        lemma_bump_sum(coalesce(entries.drop_last()), entries.last().0, entries.last().1);
    }
}

/// Coalesced amounts stay non-negative when the raw amounts are.
pub proof fn lemma_coalesce_nonneg(entries: Seq<(Seq<char>, int)>)
    requires
        forall|i: int| 0 <= i < entries.len() ==> (#[trigger] entries[i]).1 >= 0,
    ensures
        forall|i: int|
            0 <= i < coalesce(entries).len() ==> (#[trigger] coalesce(entries)[i]).1 >= 0,
    decreases entries.len(),
{
    if entries.len() > 0 {
        assert(forall|i: int|
            0 <= i < entries.drop_last().len() ==> (#[trigger] entries.drop_last()[i]).1 >= 0);
        lemma_coalesce_nonneg(entries.drop_last());
        let acc = coalesce(entries.drop_last());
        let name = entries.last().0;
        let amt = entries.last().1;
        assert(amt >= 0);
        lemma_first_idx(acc, name);
        let j = first_idx(acc, name);
        assert forall|i: int|
            0 <= i < coalesce(entries).len() implies (#[trigger] coalesce(entries)[i]).1 >= 0 by {
            if j < 0 {
                if i < acc.len() {
                    assert(acc[i].1 >= 0);
                }
            } else {
                if i != j {
                    assert(coalesce(entries)[i] == acc[i]);
                    assert(acc[i].1 >= 0);
                } else {
                    assert(acc[j].1 >= 0);
                }
            }
        }
    }
}

/// Coalescing never lengthens a list.
pub proof fn lemma_coalesce_len(entries: Seq<(Seq<char>, int)>)
    ensures
        coalesce(entries).len() <= entries.len(),
    decreases entries.len(),
{
    if entries.len() > 0 {
        lemma_coalesce_len(entries.drop_last());
        lemma_first_idx(coalesce(entries.drop_last()), entries.last().0);
    }
}

/// A list of at most `n` entries, each of at most 255 copies, requires at
/// most `255 * n` copies in total.
pub proof fn lemma_sum_bound(entries: Seq<(Seq<char>, int)>)
    requires
        forall|i: int| 0 <= i < entries.len() ==> 0 <= (#[trigger] entries[i]).1 <= 255,
    ensures
        0 <= sum_snd(entries) <= 255 * entries.len(),
    decreases entries.len(),
{
    if entries.len() > 0 {
        assert(forall|i: int|
            0 <= i < entries.drop_last().len() ==> 0 <= (#[trigger] entries.drop_last()[i]).1
                <= 255);
        lemma_sum_bound(entries.drop_last());
    }
}

/// A constructed deck: a name, an optional companion, and ordered
/// (card name, copies) lists for mainboard and sideboard.
#[derive(Debug, Clone)]
pub struct Deck {
    pub name: String,
    pub companion: Option<String>,
    pub amounts_main: Vec<u8>,
    pub names_main: Vec<String>,
    pub amounts_side: Vec<u8>,
    pub names_side: Vec<String>,
}

impl Deck {
    /// Both boards pair every name with an amount and stay within `MAX_BOARD`
    /// entries, so that coalesced amounts fit comfortably in `u32`.
    pub open spec fn wf(self) -> bool {
        &&& self.amounts_main@.len() == self.names_main@.len()
        &&& self.names_main@.len() <= MAX_BOARD as int
        &&& self.amounts_side@.len() == self.names_side@.len()
        &&& self.names_side@.len() <= MAX_BOARD as int
    }

    pub open spec fn main_entries(self) -> Seq<(Seq<char>, int)> {
        Seq::new(
            self.names_main@.len(),
            |i: int| (self.names_main@[i]@, self.amounts_main@[i] as int),
        )
    }

    pub open spec fn side_entries(self) -> Seq<(Seq<char>, int)> {
        Seq::new(
            self.names_side@.len(),
            |i: int| (self.names_side@[i]@, self.amounts_side@[i] as int),
        )
    }

    pub open spec fn has_wishboard(self) -> bool {
        exists|i: int|
            0 <= i < self.names_main@.len() && self.names_main@[i]@ == wishboard_trigger()
    }

    /// How many sideboard entries count, given the mode.
    pub open spec fn side_take(self, ignore_sideboard: bool) -> int {
        if !ignore_sideboard {
            self.side_entries().len() as int
        } else if self.has_wishboard() {
            if self.side_entries().len() < 7 {
                self.side_entries().len() as int
            } else {
                7
            }
        } else {
            0
        }
    }

    /// The raw requirement entries of the deck in list order: all of the
    /// mainboard, then the sideboard prefix selected by the mode.
    pub open spec fn entries(self, ignore_sideboard: bool) -> Seq<(Seq<char>, int)> {
        self.main_entries() + self.side_entries().take(self.side_take(ignore_sideboard))
    }

    /// The deck's aggregated requirements: one total per distinct card name.
    pub open spec fn cards_spec(self, ignore_sideboard: bool) -> Seq<(Seq<char>, int)> {
        coalesce(self.entries(ignore_sideboard))
    }

    /// Validating constructor; `None` when the boards are not well-formed.
    pub fn new(
        name: &str,
        companion: Option<String>,
        amounts_main: Vec<u8>,
        names_main: Vec<String>,
        amounts_side: Vec<u8>,
        names_side: Vec<String>,
    ) -> (r: Option<Deck>)
        ensures
            match r {
                Some(d) => {
                    &&& d.wf()
                    &&& d.name@ == name@
                    &&& d.companion == companion
                    &&& d.amounts_main == amounts_main
                    &&& d.names_main == names_main
                    &&& d.amounts_side == amounts_side
                    &&& d.names_side == names_side
                },
                None => !(amounts_main@.len() == names_main@.len() && names_main@.len()
                    <= MAX_BOARD as int && amounts_side@.len() == names_side@.len()
                    && names_side@.len() <= MAX_BOARD as int),
            },
    {
        if amounts_main.len() == names_main.len() && names_main.len() <= MAX_BOARD
            && amounts_side.len() == names_side.len() && names_side.len() <= MAX_BOARD {
            Some(
                Deck {
                    name: name.to_owned(),
                    companion,
                    amounts_main,
                    names_main,
                    amounts_side,
                    names_side,
                },
            )
        } else {
            None
        }
    }

    /// Returns the deck under a new name, everything else unchanged.
    pub fn name(self, name: &str) -> (r: Self)
        ensures
            r.name@ == name@,
            r.companion == self.companion,
            r.amounts_main == self.amounts_main,
            r.names_main == self.names_main,
            r.amounts_side == self.amounts_side,
            r.names_side == self.names_side,
            self.wf() ==> r.wf(),
    {
        Deck { name: name.to_owned(), ..self }
    }

    #[verifier::loop_isolation(false)]
    fn mainboard_has_trigger(&self) -> (r: bool)
        ensures
            r == self.has_wishboard(),
    {
        let n: usize = self.names_main.len();
        let mut i: usize = 0;
        while i < n
            invariant
                0 <= i <= n,
                n == self.names_main@.len(),
                forall|j: int| 0 <= j < i ==> self.names_main@[j]@ != wishboard_trigger(),
            decreases n - i,
        {
            if str_eq(self.names_main[i].as_str(), "Karn, the Great Creator") {
                proof {
                    assert(self.names_main@[i as int]@ == wishboard_trigger());
                }
                return true;
            }
            i = i + 1;
        }
        false
    }

    /// True if the name appears in the mainboard, or in the sideboard when
    /// sideboards are not ignored.
    #[verifier::loop_isolation(false)]
    pub fn contains(&self, s: &str, ignore_sideboard: bool) -> (r: bool)
        ensures
            r == self.contains_spec(s@, ignore_sideboard),
    {
        if !ignore_sideboard {
            let n: usize = self.names_side.len();
            let mut i: usize = 0;
            while i < n
                invariant
                    0 <= i <= n,
                    n == self.names_side@.len(),
                    forall|j: int| 0 <= j < i ==> self.names_side@[j]@ != s@,
                decreases n - i,
            {
                if str_eq(self.names_side[i].as_str(), s) {
                    proof {
                        assert(self.names_side@[i as int]@ == s@);
                    }
                    return true;
                }
                i = i + 1;
            }
        }
        let n: usize = self.names_main.len();
        let mut i: usize = 0;
        while i < n
            invariant
                0 <= i <= n,
                n == self.names_main@.len(),
                forall|j: int| 0 <= j < i ==> self.names_main@[j]@ != s@,
                ignore_sideboard || forall|j: int|
                    0 <= j < self.names_side@.len() ==> self.names_side@[j]@ != s@,
            decreases n - i,
        {
            if str_eq(self.names_main[i].as_str(), s) {
                proof {
                    assert(self.names_main@[i as int]@ == s@);
                }
                return true;
            }
            i = i + 1;
        }
        false
    }

    pub open spec fn contains_spec(self, name: Seq<char>, ignore_sideboard: bool) -> bool {
        (!ignore_sideboard && exists|i: int|
            0 <= i < self.names_side@.len() && self.names_side@[i]@ == name) || exists|i: int|
            0 <= i < self.names_main@.len() && self.names_main@[i]@ == name
    }

    /// The deck's card requirements, coalesced to one total per distinct
    /// name, per `cards_spec`. Mainboard copies always count; sideboard copies
    /// count unless ignored, except that a wishboard mainboard pulls in the
    /// first seven sideboard entries even then.
    #[verifier::loop_isolation(false)]
    pub fn cards(&self, ignore_sideboard: bool) -> (r: Vec<(String, u32)>)
        requires
            self.wf(),
        ensures
            view_cards(r@) == self.cards_spec(ignore_sideboard),
            forall|j: int| 0 <= j < r@.len() ==> (#[trigger] r@[j]).1 <= 5100000,
    {
        let ghost all = self.entries(ignore_sideboard);
        let mut acc: Vec<(String, u32)> = Vec::new();
        let n_main: usize = self.names_main.len();
        let mut i: usize = 0;
        proof {
            assert(all.take(0) =~= Seq::<(Seq<char>, int)>::empty());
            assert(view_cards(acc@) =~= coalesce(all.take(0)));
        }
        while i < n_main
            invariant
                0 <= i <= n_main,
                n_main == self.names_main@.len(),
                self.wf(),
                all == self.entries(ignore_sideboard),
                view_cards(acc@) == coalesce(all.take(i as int)),
                forall|j: int| 0 <= j < acc@.len() ==> (#[trigger] acc@[j]).1 as int <= 255 * (
                i as int),
            decreases n_main - i,
        {
            proof {
                assert(all[i as int] == self.main_entries()[i as int]);
                assert(all.take(i + 1 as int).drop_last() =~= all.take(i as int));
            }
            bump_exec(
                &mut acc,
                &self.names_main[i],
                self.amounts_main[i],
                Ghost(255 * (i as int)),
            );
            i = i + 1;
        }
        let side_n: usize = if !ignore_sideboard {
            self.names_side.len()
        } else if self.mainboard_has_trigger() {
            if self.names_side.len() < 7 {
                self.names_side.len()
            } else {
                7
            }
        } else {
            0
        };
        assert(side_n as int == self.side_take(ignore_sideboard));
        assert(all.len() == n_main + side_n);
        let mut t: usize = 0;
        while t < side_n
            invariant
                0 <= t <= side_n,
                n_main == self.names_main@.len(),
                side_n as int == self.side_take(ignore_sideboard),
                side_n <= self.names_side@.len(),
                self.wf(),
                all == self.entries(ignore_sideboard),
                view_cards(acc@) == coalesce(all.take(n_main + t as int)),
                forall|j: int| 0 <= j < acc@.len() ==> (#[trigger] acc@[j]).1 as int <= 255 * (
                n_main + t as int),
            decreases side_n - t,
        {
            proof {
                assert(all[n_main + t as int] == self.side_entries().take(
                    self.side_take(ignore_sideboard),
                )[t as int]);
                assert(all[n_main + t as int] == self.side_entries()[t as int]);
                assert(all.take(n_main + (t + 1) as int).drop_last() =~= all.take(
                    n_main + t as int,
                ));
            }
            bump_exec(
                &mut acc,
                &self.names_side[t],
                self.amounts_side[t],
                Ghost(255 * (n_main + t as int)),
            );
            t = t + 1;
        }
        proof {
            assert(all.take((n_main + side_n) as int) =~= all);
            assert(forall|j: int|
                0 <= j < acc@.len() ==> (#[trigger] acc@[j]).1 as int <= 255 * (n_main
                    + side_n as int) <= 5100000);
        }
        acc
    }
}

/// One coalescing step: add `amt` copies of `name` to the accumulator.
#[verifier::loop_isolation(false)]
fn bump_exec(acc: &mut Vec<(String, u32)>, name: &String, amt: u8, Ghost(m): Ghost<int>)
    requires
        forall|j: int| 0 <= j < old(acc)@.len() ==> (#[trigger] old(acc)@[j]).1 as int <= m,
        0 <= m <= 5099745,
    ensures
        view_cards(final(acc)@) == bump(view_cards(old(acc)@), name@, amt as int),
        forall|j: int|
            0 <= j < final(acc)@.len() ==> (#[trigger] final(acc)@[j]).1 as int <= m + 255,
{
    let ghost pre = view_cards(old(acc)@);
    proof {
        lemma_first_idx(pre, name@);
    }
    let n: usize = acc.len();
    let mut j: usize = 0;
    while j < n
        invariant
            0 <= j <= n,
            n == acc@.len(),
            acc == old(acc),
            pre == view_cards(acc@),
            forall|p: int| 0 <= p < j ==> pre[p].0 != name@,
        decreases n - j,
    {
        if str_eq(acc[j].0.as_str(), name.as_str()) {
            proof {
                assert(pre[j as int].0 == name@);
                assert(first_idx(pre, name@) == j as int);
            }
            let stored = acc[j].0.clone();
            let cur: u32 = acc[j].1;
            acc[j] = (stored, cur + amt as u32);
            proof {
                assert(view_cards(acc@) =~= bump(pre, name@, amt as int));
            }
            return ;
        }
        j = j + 1;
    }
    proof {
        assert(first_idx(pre, name@) == -1);
    }
    let owned: String = name.clone();
    acc.push((owned, amt as u32));
    proof {
        assert(view_cards(acc@) =~= bump(pre, name@, amt as int));
    }
}

} // verus!
