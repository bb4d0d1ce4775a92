use vstd::prelude::*;

verus! {

/// Number of set bits in a selection.
pub open spec fn count_trues(s: Seq<bool>) -> int
    decreases s.len(),
{
    if s.len() == 0 {
        0
    } else {
        count_trues(s.drop_last()) + if s.last() {
            1int
        } else {
            0int
        }
    }
}

pub proof fn lemma_count_trues_bounds(s: Seq<bool>)
    ensures
        0 <= count_trues(s) <= s.len(),
    decreases s.len(),
{
    if s.len() > 0 {
        lemma_count_trues_bounds(s.drop_last());
    }
}

pub proof fn lemma_count_trues_update(s: Seq<bool>, j: int)
    requires
        0 <= j < s.len(),
        !s[j],
    ensures
        count_trues(s.update(j, true)) == count_trues(s) + 1,
    decreases s.len(),
{
    let s2 = s.update(j, true);
    if j == s.len() - 1 {
        assert(s2.drop_last() =~= s.drop_last());
    } else {
        assert(s2.drop_last() =~= s.drop_last().update(j, true));
        lemma_count_trues_update(s.drop_last(), j);
    }
}

/// A matrix as a sequence of columns, one per deck, each over `rows` rows.
pub open spec fn cols_wf(cols: Seq<Seq<bool>>, k: int, rows: int) -> bool {
    cols.len() == k && forall|j: int| 0 <= j < k ==> (#[trigger] cols[j]).len() == rows
}

/// Row `i` is covered by the union of the selected decks' columns.
pub open spec fn covers(cols: Seq<Seq<bool>>, sel: Seq<bool>, i: int) -> bool {
    exists|j: int| 0 <= j < sel.len() && sel[j] && cols[j][i]
}

/// The column-wise OR of the selected columns.
pub open spec fn covered_vec(cols: Seq<Seq<bool>>, sel: Seq<bool>, rows: nat) -> Seq<bool> {
    Seq::new(rows, |i: int| covers(cols, sel, i))
}

/// How many rows the selection consumes: shared rows are counted once,
/// because the union is taken before counting.
pub open spec fn covered_count(cols: Seq<Seq<bool>>, sel: Seq<bool>, rows: nat) -> int {
    count_trues(covered_vec(cols, sel, rows))
}

/// One instance of the search: the two requirement matrices and the budgets.
pub ghost struct SearchParams {
    pub cols_r: Seq<Seq<bool>>,
    pub cols_m: Seq<Seq<bool>>,
    pub rows_r: nat,
    pub rows_m: nat,
    pub rl: int,
    pub ml: int,
}

impl SearchParams {
    pub open spec fn wf(self, k: int) -> bool {
        cols_wf(self.cols_r, k, self.rows_r as int) && cols_wf(self.cols_m, k, self.rows_m as int)
    }

    /// A selection is feasible when the union of its rare rows fits the rare
    /// budget and likewise for mythics.
    pub open spec fn feasible(self, sel: Seq<bool>) -> bool {
        covered_count(self.cols_r, sel, self.rows_r) <= self.rl && covered_count(
            self.cols_m,
            sel,
            self.rows_m,
        ) <= self.ml
    }

    /// Deck `j` can join the selection without breaking either budget.
    pub open spec fn can_add(self, sel: Seq<bool>, j: int) -> bool {
        0 <= j < sel.len() && !sel[j] && self.feasible(sel.update(j, true))
    }

    /// No deck can be added: the selection is a leaf of the search.
    pub open spec fn terminal(self, sel: Seq<bool>) -> bool {
        forall|j: int| !self.can_add(sel, j)
    }

    /// The best number of decks reachable from `sel`: its own size if it is
    /// terminal, otherwise the best over all feasible one-deck extensions.
    pub open spec fn best_from(self, sel: Seq<bool>) -> int
        decreases sel.len() - count_trues(sel), sel.len() + 3,
        via Self::best_from_decreases
    {
        if self.terminal(sel) {
            count_trues(sel)
        } else {
            self.best_over(sel, 0)
        }
    }

    /// The best value over extensions by a deck with index at least `j`.
    pub open spec fn best_over(self, sel: Seq<bool>, j: int) -> int
        decreases sel.len() - count_trues(sel), sel.len() - j + 2,
        via Self::best_over_decreases
    {
        if j < 0 || j >= sel.len() {
            0
        } else {
            let rest = self.best_over(sel, j + 1);
            if self.can_add(sel, j) {
                let v = self.best_from(sel.update(j, true));
                if v > rest {
                    v
                } else {
                    rest
                }
            } else {
                rest
            }
        }
    }

    #[via_fn]
    proof fn best_from_decreases(self, sel: Seq<bool>) {
        lemma_count_trues_bounds(sel);
    }

    #[via_fn]
    proof fn best_over_decreases(self, sel: Seq<bool>, j: int) {
        lemma_count_trues_bounds(sel);
        if 0 <= j < sel.len() && self.can_add(sel, j) {
            lemma_count_trues_update(sel, j);
            lemma_count_trues_bounds(sel.update(j, true));
        }
    }

    /// `t` is reachable from `sel` by repeatedly adding feasible decks.
    pub open spec fn reaches(self, sel: Seq<bool>, t: Seq<bool>) -> bool
        decreases sel.len() - count_trues(sel), sel.len() + 3,
        via Self::reaches_decreases
    {
        sel == t || self.reach_over(sel, t, 0)
    }

    pub open spec fn reach_over(self, sel: Seq<bool>, t: Seq<bool>, j: int) -> bool
        decreases sel.len() - count_trues(sel), sel.len() - j + 2,
        via Self::reach_over_decreases
    {
        if j < 0 || j >= sel.len() {
            false
        } else {
            (self.can_add(sel, j) && self.reaches(sel.update(j, true), t)) || self.reach_over(
                sel,
                t,
                j + 1,
            )
        }
    }

    #[via_fn]
    proof fn reaches_decreases(self, sel: Seq<bool>, t: Seq<bool>) {
        lemma_count_trues_bounds(sel);
    }

    #[via_fn]
    proof fn reach_over_decreases(self, sel: Seq<bool>, t: Seq<bool>, j: int) {
        lemma_count_trues_bounds(sel);
        if 0 <= j < sel.len() && self.can_add(sel, j) {
            lemma_count_trues_update(sel, j);
            lemma_count_trues_bounds(sel.update(j, true));
        }
    }

    /// A winning selection: reachable from the start, terminal, and of the
    /// best achievable size.
    pub open spec fn winner(self, start: Seq<bool>, s: Seq<bool>) -> bool {
        self.reaches(start, s) && self.terminal(s) && count_trues(s) == self.best_from(start)
    }
}

/// From a terminal selection nothing else is reachable.
pub proof fn lemma_terminal_reach_over(p: SearchParams, sel: Seq<bool>, t: Seq<bool>, j: int)
    requires
        p.terminal(sel),
    ensures
        !p.reach_over(sel, t, j),
    decreases sel.len() - j,
{
    if 0 <= j < sel.len() {
        assert(!p.can_add(sel, j));
        lemma_terminal_reach_over(p, sel, t, j + 1);
    }
}

/// A step decomposition: whatever `reach_over` reaches goes through one
/// addable deck.
pub proof fn lemma_reach_over_exists(p: SearchParams, sel: Seq<bool>, t: Seq<bool>, j: int)
    requires
        p.reach_over(sel, t, j),
    ensures
        exists|jw: int|
            j <= jw < sel.len() && #[trigger] p.can_add(sel, jw) && p.reaches(
                sel.update(jw, true),
                t,
            ),
    decreases sel.len() - j,
{
    if 0 <= j < sel.len() {
        if p.can_add(sel, j) && p.reaches(sel.update(j, true), t) {
            assert(j <= j < sel.len() && p.can_add(sel, j) && p.reaches(sel.update(j, true), t));
        } else {
            lemma_reach_over_exists(p, sel, t, j + 1);
        }
    }
}

/// The converse: an addable deck whose extension reaches `t` witnesses
/// `reach_over` from any earlier index.
pub proof fn lemma_reach_over_intro(p: SearchParams, sel: Seq<bool>, t: Seq<bool>, j: int, jw: int)
    requires
        0 <= j <= jw,
        p.can_add(sel, jw),
        p.reaches(sel.update(jw, true), t),
    ensures
        p.reach_over(sel, t, j),
    decreases jw - j,
{
    if j < jw {
        lemma_reach_over_intro(p, sel, t, j + 1, jw);
    }
}

/// `best_over` dominates the value of every extension at index `jw >= j`.
pub proof fn lemma_best_over_ge_child(p: SearchParams, sel: Seq<bool>, j: int, jw: int)
    requires
        0 <= j <= jw,
        p.can_add(sel, jw),
    ensures
        p.best_over(sel, j) >= p.best_from(sel.update(jw, true)),
    decreases jw - j,
{
    if j < jw {
        lemma_best_over_ge_child(p, sel, j + 1, jw);
    }
}

/// Row `i` is covered by one of the first `jb` decks of the selection.
pub open spec fn covers_upto(cols: Seq<Seq<bool>>, sel: Seq<bool>, i: int, jb: int) -> bool {
    exists|j: int| 0 <= j < jb && j < sel.len() && sel[j] && cols[j][i]
}

proof fn lemma_covers_upto_step(cols: Seq<Seq<bool>>, sel: Seq<bool>, i: int, j: int)
    requires
        0 <= j,
    ensures
        covers_upto(cols, sel, i, j + 1) == (covers_upto(cols, sel, i, j) || (j < sel.len()
            && sel[j] && cols[j][i])),
{
    if covers_upto(cols, sel, i, j + 1) {
        let jw = choose|jw: int| 0 <= jw < j + 1 && jw < sel.len() && sel[jw] && cols[jw][i];
        if jw < j {
            assert(covers_upto(cols, sel, i, j));
        }
    }
    if covers_upto(cols, sel, i, j) {
        let jw = choose|jw: int| 0 <= jw < j && jw < sel.len() && sel[jw] && cols[jw][i];
        assert(0 <= jw < j + 1 && jw < sel.len() && sel[jw] && cols[jw][i]);
    }
    if j < sel.len() && sel[j] && cols[j][i] {
        assert(0 <= j < j + 1 && j < sel.len() && sel[j] && cols[j][i]);
    }
}

/// The best reachable value is at least the current selection's size.
pub proof fn lemma_best_from_ge_count(p: SearchParams, sel: Seq<bool>)
    ensures
        p.best_from(sel) >= count_trues(sel),
    decreases sel.len() - count_trues(sel),
{
    if !p.terminal(sel) {
        let jw = choose|jw: int| p.can_add(sel, jw);
        assert(p.can_add(sel, jw));
        let child = sel.update(jw, true);
        lemma_count_trues_update(sel, jw);
        lemma_count_trues_bounds(child);
        lemma_best_from_ge_count(p, child);
        lemma_best_over_ge_child(p, sel, 0, jw);
    }
}


/// The columns of an owned matrix.
pub open spec fn cols_view(c: Seq<Vec<bool>>) -> Seq<Seq<bool>> {
    Seq::new(c.len(), |j: int| c[j]@)
}

/// Element-wise comparison of two bit vectors.
#[verifier::loop_isolation(false)]
fn vec_bool_eq(a: &Vec<bool>, b: &Vec<bool>) -> (r: bool)
    ensures
        r == (a@ == b@),
{
    let n: usize = a.len();
    if n != b.len() {
        return false;
    }
    let mut i: usize = 0;
    while i < n
        invariant
            0 <= i <= n,
            forall|q: int| 0 <= q < i ==> a@[q] == b@[q],
        decreases n - i,
    {
        if a[i] != b[i] {
            return false;
        }
        i = i + 1;
    }
    proof {
        assert(a@ =~= b@);
    }
    true
}

/// A copy of the vector.
#[verifier::loop_isolation(false)]
fn copy_vec(v: &Vec<bool>) -> (r: Vec<bool>)
    ensures
        r@ == v@,
{
    let n: usize = v.len();
    let mut r: Vec<bool> = Vec::new();
    let mut i: usize = 0;
    while i < n
        invariant
            0 <= i <= n,
            r@.len() == i,
            forall|q: int| 0 <= q < i ==> r@[q] == v@[q],
        decreases n - i,
    {
        r.push(v[i]);
        i = i + 1;
    }
    proof {
        assert(r@ =~= v@);
    }
    r
}

/// A copy of the selection with deck `j` added.
#[verifier::loop_isolation(false)]
fn copy_set(v: &Vec<bool>, j: usize) -> (r: Vec<bool>)
    requires
        j < v@.len(),
    ensures
        r@ == v@.update(j as int, true),
{
    let mut r = copy_vec(v);
    r[j] = true;
    proof {
        assert(r@ =~= v@.update(j as int, true));
    }
    r
}

/// Number of set bits of a selection.
#[verifier::loop_isolation(false)]
pub fn count_trues_exec(v: &Vec<bool>) -> (r: usize)
    ensures
        r as int == count_trues(v@),
{
    let n: usize = v.len();
    let mut acc: usize = 0;
    let mut i: usize = 0;
    proof {
        assert(v@.take(0) =~= Seq::<bool>::empty());
    }
    while i < n
        invariant
            0 <= i <= n,
            acc as int == count_trues(v@.take(i as int)),
            acc <= i,
        decreases n - i,
    {
        proof {
            assert(v@.take(i + 1 as int).drop_last() =~= v@.take(i as int));
            assert(v@.take(i + 1 as int).last() == v@[i as int]);
        }
        if v[i] {
            acc = acc + 1;
        }
        i = i + 1;
    }
    proof {
        assert(v@.take(n as int) =~= v@);
    }
    acc
}

/// How many rows the union of the selected columns covers.
#[verifier::loop_isolation(false)]
fn covered_count_exec(cols: &Vec<Vec<bool>>, sel: &Vec<bool>, rows: usize) -> (r: usize)
    requires
        cols_wf(cols_view(cols@), sel@.len() as int, rows as int),
    ensures
        r as int == covered_count(cols_view(cols@), sel@, rows as nat),
{
    let ghost cv = cols_view(cols@);
    let k: usize = sel.len();
    let mut acc: Vec<bool> = Vec::new();
    let mut i0: usize = 0;
    while i0 < rows
        invariant
            0 <= i0 <= rows,
            acc@.len() == i0,
            forall|q: int| 0 <= q < i0 ==> acc@[q] == covers_upto(cv, sel@, q, 0),
        decreases rows - i0,
    {
        proof {
            assert(!covers_upto(cv, sel@, i0 as int, 0));
        }
        acc.push(false);
        i0 = i0 + 1;
    }
    let mut j: usize = 0;
    while j < k
        invariant
            0 <= j <= k,
            acc@.len() == rows,
            forall|q: int| 0 <= q < rows ==> acc@[q] == covers_upto(cv, sel@, q, j as int),
        decreases k - j,
    {
        if sel[j] {
            let mut i: usize = 0;
            while i < rows
                invariant
                    0 <= i <= rows,
                    acc@.len() == rows,
                    sel@[j as int],
                    forall|q: int| 0 <= q < i ==> acc@[q] == covers_upto(cv, sel@, q, j + 1 as int),
                    forall|q: int| i <= q < rows ==> acc@[q] == covers_upto(cv, sel@, q, j as int),
                decreases rows - i,
            {
                proof {
                    lemma_covers_upto_step(cv, sel@, i as int, j as int);
                }
                if cols[j][i] {
                    acc[i] = true;
                } else {
                    proof {
                        assert(cv[j as int][i as int] == false);
                    }
                }
                i = i + 1;
            }
        } else {
            proof {
                assert forall|q: int|
                    0 <= q < rows implies acc@[q] == covers_upto(cv, sel@, q, j + 1 as int) by {
                    lemma_covers_upto_step(cv, sel@, q, j as int);
                }
            }
        }
        j = j + 1;
    }
    proof {
        assert forall|q: int| 0 <= q < rows implies acc@[q] == covers(cv, sel@, q) by {
            if covers_upto(cv, sel@, q, k as int) {
                assert(covers(cv, sel@, q));
            }
            if covers(cv, sel@, q) {
                let jw = choose|jw: int| 0 <= jw < sel@.len() && sel@[jw] && cv[jw][q];
                assert(covers_upto(cv, sel@, q, k as int));
            }
        }
        assert(acc@ =~= covered_vec(cv, sel@, rows as nat));
    }
    count_trues_exec(&acc)
}

/// `s` is one of the stored keys.
pub open spec fn in_keys(keys: Seq<Vec<bool>>, s: Seq<bool>) -> bool {
    exists|q: int| 0 <= q < keys.len() && (#[trigger] keys[q])@ == s
}

pub open spec fn keys_distinct(keys: Seq<Vec<bool>>) -> bool {
    forall|a: int, b: int| 0 <= a < b < keys.len() ==> keys[a]@ != keys[b]@
}

/// `a` is an unchanged prefix of `b`: the memo only ever grows.
pub open spec fn keys_prefix(a: Seq<Vec<bool>>, b: Seq<Vec<bool>>) -> bool {
    a.len() <= b.len() && forall|q: int| 0 <= q < a.len() ==> b[q] == #[trigger] a[q]
}

proof fn lemma_in_keys_prefix(a: Seq<Vec<bool>>, b: Seq<Vec<bool>>, s: Seq<bool>)
    requires
        keys_prefix(a, b),
        in_keys(a, s),
    ensures
        in_keys(b, s),
{
    let q = choose|q: int| 0 <= q < a.len() && (#[trigger] a[q])@ == s;
    assert(b[q]@ == s);
}

/// Every terminal state reachable from a stored key is itself stored.
pub open spec fn memo_closed(p: SearchParams, keys: Seq<Vec<bool>>) -> bool {
    forall|q: int, t: Seq<bool>|
        #![trigger p.reaches(keys[q]@, t)]
        0 <= q < keys.len() && p.reaches(keys[q]@, t) && p.terminal(t) ==> in_keys(keys, t)
}

/// The memo table of the search: each stored selection maps to the best deck
/// count reachable from it.
pub struct Memo {
    pub keys: Vec<Vec<bool>>,
    pub vals: Vec<usize>,
}

impl Memo {
    pub open spec fn wf(self, p: SearchParams, k: int) -> bool {
        &&& self.keys@.len() == self.vals@.len()
        &&& keys_distinct(self.keys@)
        &&& forall|q: int| 0 <= q < self.keys@.len() ==> (#[trigger] self.keys@[q])@.len() == k
        &&& forall|q: int|
            0 <= q < self.keys@.len() ==> self.vals@[q] as int == p.best_from(
                (#[trigger] self.keys@[q])@,
            )
        &&& memo_closed(p, self.keys@)
    }

    pub fn new() -> (r: Memo)
        ensures
            r.keys@.len() == 0,
            r.vals@.len() == 0,
    {
        Memo { keys: Vec::new(), vals: Vec::new() }
    }

    #[verifier::loop_isolation(false)]
    fn get_val(&self, sel: &Vec<bool>) -> (r: Option<usize>)
        requires
            self.keys@.len() == self.vals@.len(),
        ensures
            match r {
                Some(v) => exists|q: int|
                    0 <= q < self.keys@.len() && (#[trigger] self.keys@[q])@ == sel@
                        && self.vals@[q] == v,
                None => !in_keys(self.keys@, sel@),
            },
    {
        let n: usize = self.keys.len();
        let mut q: usize = 0;
        while q < n
            invariant
                0 <= q <= n,
                forall|p2: int| 0 <= p2 < q ==> (#[trigger] self.keys@[p2])@ != sel@,
            decreases n - q,
        {
            if vec_bool_eq(&self.keys[q], sel) {
                return Some(self.vals[q]);
            }
            q = q + 1;
        }
        None
    }
}

/// The terminal states recorded so far are exactly the terminal stored keys,
/// without duplicates.
pub open spec fn terms_ok(p: SearchParams, keys: Seq<Vec<bool>>, terms: Seq<Vec<bool>>) -> bool {
    &&& forall|q: int|
        0 <= q < terms.len() ==> p.terminal((#[trigger] terms[q])@) && in_keys(keys, terms[q]@)
    &&& keys_distinct(terms)
    &&& forall|q: int|
        0 <= q < keys.len() && p.terminal((#[trigger] keys[q])@) ==> in_keys(terms, keys[q]@)
}

/// The memoized search. Starting from `sel`, it explores every feasible
/// one-deck extension, returns the best reachable deck count, and records
/// every visited selection in the memo and every visited terminal selection
/// in `terms`.
#[verifier::loop_isolation(false)]
pub(crate) fn search_best(
    cols_r: &Vec<Vec<bool>>,
    cols_m: &Vec<Vec<bool>>,
    rows_r: usize,
    rows_m: usize,
    rl: usize,
    ml: usize,
    sel: Vec<bool>,
    memo: &mut Memo,
    terms: &mut Vec<Vec<bool>>,
    Ghost(p): Ghost<SearchParams>,
) -> (best: usize)
    requires
        p == (SearchParams {
            cols_r: cols_view(cols_r@),
            cols_m: cols_view(cols_m@),
            rows_r: rows_r as nat,
            rows_m: rows_m as nat,
            rl: rl as int,
            ml: ml as int,
        }),
        p.wf(sel@.len() as int),
        old(memo).wf(p, sel@.len() as int),
        terms_ok(p, old(memo).keys@, old(terms)@),
    ensures
        final(memo).wf(p, sel@.len() as int),
        terms_ok(p, final(memo).keys@, final(terms)@),
        keys_prefix(old(memo).keys@, final(memo).keys@),
        in_keys(final(memo).keys@, sel@),
        best as int == p.best_from(sel@),
        forall|s: Seq<bool>|
            #![trigger in_keys(final(memo).keys@, s)]
            in_keys(final(memo).keys@, s) ==> in_keys(old(memo).keys@, s) || (p.reaches(sel@, s)
                && count_trues(s) >= count_trues(sel@)),
    decreases sel@.len() - count_trues(sel@),
{
    proof {
        lemma_count_trues_bounds(sel@);
    }
    let k: usize = sel.len();
    match memo.get_val(&sel) {
        Some(v) => {
            return v;
        },
        None => {},
    }
    let ghost keys0 = memo.keys@;
    let mut best: usize = 0;
    let mut any: bool = false;
    let mut j: usize = 0;
    while j < k
        invariant
            0 <= j <= k,
            memo.wf(p, k as int),
            terms_ok(p, memo.keys@, terms@),
            keys_prefix(keys0, memo.keys@),
            !in_keys(memo.keys@, sel@),
            forall|s: Seq<bool>|
                #![trigger in_keys(memo.keys@, s)]
                in_keys(memo.keys@, s) ==> in_keys(keys0, s) || (p.reaches(sel@, s) && count_trues(
                    s,
                ) > count_trues(sel@)),
            forall|j2: int|
                0 <= j2 < j && p.can_add(sel@, j2) ==> in_keys(memo.keys@, sel@.update(j2, true)),
            any ==> !p.terminal(sel@),
            !any ==> forall|j2: int| 0 <= j2 < j ==> !p.can_add(sel@, j2),
            any ==> p.best_over(sel@, 0) == (if best as int > p.best_over(sel@, j as int) {
                best as int
            } else {
                p.best_over(sel@, j as int)
            }),
            !any ==> p.best_over(sel@, 0) == p.best_over(sel@, j as int),
        decreases k - j,
    {
        let ghost keys_in = memo.keys@;
        if !sel[j] {
            let child: Vec<bool> = copy_set(&sel, j);
            let fr = covered_count_exec(cols_r, &child, rows_r);
            let fm = covered_count_exec(cols_m, &child, rows_m);
            if fr <= rl && fm <= ml {
                proof {
                    assert(p.feasible(child@));
                    assert(p.can_add(sel@, j as int));
                    lemma_count_trues_update(sel@, j as int);
                    lemma_count_trues_bounds(child@);
                }
                let ghost childv = child@;
                let v = search_best(
                    cols_r,
                    cols_m,
                    rows_r,
                    rows_m,
                    rl,
                    ml,
                    child,
                    memo,
                    terms,
                    Ghost(p),
                );
                proof {
                    assert forall|s: Seq<bool>|
                        in_keys(memo.keys@, s) implies in_keys(keys0, s) || (p.reaches(sel@, s)
                        && count_trues(s) > count_trues(sel@)) by {
                        if !in_keys(keys0, s) {
                            if in_keys(keys_in, s) {
                            } else {
                                assert(p.reaches(childv, s) && count_trues(s) >= count_trues(
                                    childv,
                                ));
                                lemma_reach_over_intro(p, sel@, s, 0, j as int);
                                assert(p.reaches(sel@, s));
                            }
                        }
                    }
                    if in_keys(memo.keys@, sel@) {
                        assert(count_trues(sel@) > count_trues(sel@));
                    }
                    assert forall|j2: int|
                        0 <= j2 < j + 1 && p.can_add(sel@, j2) implies in_keys(
                        memo.keys@,
                        sel@.update(j2, true),
                    ) by {
                        if j2 < j {
                            lemma_in_keys_prefix(keys_in, memo.keys@, sel@.update(j2, true));
                        } else {
                            assert(sel@.update(j2, true) == childv);
                        }
                    }
                    assert(p.best_over(sel@, j as int) == {
                        let rest = p.best_over(sel@, j + 1 as int);
                        if v as int > rest {
                            v as int
                        } else {
                            rest
                        }
                    });
                }
                if !any || v > best {
                    best = v;
                }
                any = true;
            } else {
                proof {
                    assert(!p.feasible(child@));
                    assert(!p.can_add(sel@, j as int));
                    assert(p.best_over(sel@, j as int) == p.best_over(sel@, j + 1 as int));
                }
            }
        } else {
            proof {
                assert(!p.can_add(sel@, j as int));
                assert(p.best_over(sel@, j as int) == p.best_over(sel@, j + 1 as int));
            }
        }
        j = j + 1;
    }
    if !any {
        proof {
            assert forall|j2: int| !p.can_add(sel@, j2) by {
                if 0 <= j2 < k {
                }
            }
            assert(p.terminal(sel@));
        }
        best = count_trues_exec(&sel);
    } else {
        proof {
            assert(p.best_over(sel@, k as int) == 0);
            assert(p.best_from(sel@) == best as int);
        }
    }
    let ghost sel_v = sel@;
    let ghost keys_end = memo.keys@;
    let ghost terms_end = terms@;
    if !any {
        let tcopy = copy_vec(&sel);
        terms.push(tcopy);
    }
    memo.keys.push(sel);
    memo.vals.push(best);
    proof {
        let keys_new = memo.keys@;
        assert(keys_new[keys_end.len() as int]@ == sel_v);
        assert(in_keys(keys_new, sel_v));
        assert(keys_prefix(keys_end, keys_new));
        assert(keys_prefix(keys0, keys_new));
        assert(best as int == p.best_from(sel_v));
        assert(keys_distinct(keys_new)) by {
            assert forall|a: int, b: int|
                0 <= a < b < keys_new.len() implies keys_new[a]@ != keys_new[b]@ by {
                if b == keys_new.len() - 1 {
                    if keys_new[a]@ == sel_v {
                        assert(in_keys(keys_end, sel_v));
                    }
                }
            }
        }
        assert forall|q: int, t: Seq<bool>|
            0 <= q < keys_new.len() && #[trigger] p.reaches(keys_new[q]@, t) && p.terminal(
                t,
            ) implies in_keys(keys_new, t) by {
            if q < keys_end.len() {
                assert(memo_closed(p, keys_end));
                assert(keys_end[q]@ == keys_new[q]@);
                assert(p.reaches(keys_end[q]@, t));
                assert(in_keys(keys_end, t));
                lemma_in_keys_prefix(keys_end, keys_new, t);
            } else {
                assert(keys_new[q]@ == sel_v);
                if p.terminal(sel_v) {
                    if t != sel_v {
                        lemma_terminal_reach_over(p, sel_v, t, 0);
                        assert(false);
                    }
                    assert(in_keys(keys_new, t));
                } else {
                    if t == sel_v {
                        assert(false);
                    } else {
                        assert(p.reach_over(sel_v, t, 0));
                        lemma_reach_over_exists(p, sel_v, t, 0);
                        let jw = choose|jw: int|
                            0 <= jw < sel_v.len() && #[trigger] p.can_add(sel_v, jw) && p.reaches(
                                sel_v.update(jw, true),
                                t,
                            );
                        assert(in_keys(keys_end, sel_v.update(jw, true)));
                        let qc = choose|qc: int|
                            0 <= qc < keys_end.len() && (#[trigger] keys_end[qc])@ == sel_v.update(
                                jw,
                                true,
                            );
                        assert(p.reaches(keys_end[qc]@, t));
                        assert(memo_closed(p, keys_end));
                        assert(in_keys(keys_end, t));
                        lemma_in_keys_prefix(keys_end, keys_new, t);
                    }
                }
            }
        }
        if p.terminal(sel_v) {
            assert(terms@[terms_end.len() as int]@ == sel_v);
            assert forall|q: int|
                0 <= q < terms@.len() implies p.terminal((#[trigger] terms@[q])@) && in_keys(
                keys_new,
                terms@[q]@,
            ) by {
                if q < terms_end.len() {
                    lemma_in_keys_prefix(keys_end, keys_new, terms_end[q]@);
                }
            }
            assert(keys_distinct(terms@)) by {
                assert forall|a: int, b: int|
                    0 <= a < b < terms@.len() implies terms@[a]@ != terms@[b]@ by {
                    if b == terms@.len() - 1 {
                        if terms@[a]@ == sel_v {
                            assert(in_keys(keys_end, sel_v));
                        }
                    }
                }
            }
            assert forall|q: int|
                0 <= q < keys_new.len() && p.terminal((#[trigger] keys_new[q])@) implies in_keys(
                terms@,
                keys_new[q]@,
            ) by {
                if q < keys_end.len() {
                    assert(in_keys(terms_end, keys_end[q]@));
                    lemma_in_keys_prefix(terms_end, terms@, keys_end[q]@);
                } else {
                    assert(terms@[terms_end.len() as int]@ == sel_v);
                }
            }
        } else {
            assert forall|q: int|
                0 <= q < terms@.len() implies p.terminal((#[trigger] terms@[q])@) && in_keys(
                keys_new,
                terms@[q]@,
            ) by {
                lemma_in_keys_prefix(keys_end, keys_new, terms@[q]@);
            }
            assert forall|q: int|
                0 <= q < keys_new.len() && p.terminal((#[trigger] keys_new[q])@) implies in_keys(
                terms@,
                keys_new[q]@,
            ) by {
                if q < keys_end.len() {
                } else {
                    assert(keys_new[q]@ == sel_v);
                    assert(false);
                }
            }
        }
        assert forall|s: Seq<bool>|
            in_keys(keys_new, s) implies in_keys(keys0, s) || (p.reaches(sel_v, s) && count_trues(
            s,
        ) >= count_trues(sel_v)) by {
            if !in_keys(keys0, s) {
                let q = choose|q: int| 0 <= q < keys_new.len() && (#[trigger] keys_new[q])@ == s;
                if q < keys_end.len() {
                    assert(in_keys(keys_end, s));
                } else {
                    assert(s == sel_v);
                }
            }
        }
    }
    best
}


proof fn lemma_budget_monotone_over(p1: SearchParams, p2: SearchParams, sel: Seq<bool>, j: int)
    requires
        p1.cols_r == p2.cols_r,
        p1.cols_m == p2.cols_m,
        p1.rows_r == p2.rows_r,
        p1.rows_m == p2.rows_m,
        p1.rl <= p2.rl,
        p1.ml <= p2.ml,
    ensures
        p1.best_over(sel, j) <= p2.best_over(sel, j),
    decreases sel.len() - count_trues(sel), sel.len() - j + 2,
{
    lemma_count_trues_bounds(sel);
    if 0 <= j < sel.len() {
        lemma_budget_monotone_over(p1, p2, sel, j + 1);
        if p1.can_add(sel, j) {
            assert(p2.can_add(sel, j));
            lemma_count_trues_update(sel, j);
            lemma_count_trues_bounds(sel.update(j, true));
            lemma_budget_monotone(p1, p2, sel.update(j, true));
        }
    }
}

/// Law: raising either budget never lowers the best achievable deck count —
/// every selection feasible under the smaller budgets stays feasible under
/// the larger ones, so the set of reachable selections only grows.
pub proof fn lemma_budget_monotone(p1: SearchParams, p2: SearchParams, sel: Seq<bool>)
    requires
        p1.cols_r == p2.cols_r,
        p1.cols_m == p2.cols_m,
        p1.rows_r == p2.rows_r,
        p1.rows_m == p2.rows_m,
        p1.rl <= p2.rl,
        p1.ml <= p2.ml,
    ensures
        p1.best_from(sel) <= p2.best_from(sel),
    decreases sel.len() - count_trues(sel), sel.len() + 3,
{
    lemma_count_trues_bounds(sel);
    if p2.terminal(sel) {
        assert forall|j: int| !p1.can_add(sel, j) by {
            assert(!p2.can_add(sel, j));
        }
        assert(p1.terminal(sel));
    } else {
        lemma_best_from_ge_count(p2, sel);
        if !p1.terminal(sel) {
            lemma_budget_monotone_over(p1, p2, sel, 0);
        }
    }
}

proof fn lemma_count_zeros(v: Seq<bool>)
    requires
        forall|i: int| 0 <= i < v.len() ==> !v[i],
    ensures
        count_trues(v) == 0,
    decreases v.len(),
{
    if v.len() > 0 {
        lemma_count_zeros(v.drop_last());
    }
}

proof fn lemma_count_single(v: Seq<bool>, r: int)
    requires
        0 <= r < v.len(),
        forall|i: int| 0 <= i < v.len() ==> (v[i] <==> i == r),
    ensures
        count_trues(v) == 1,
    decreases v.len(),
{
    if r == v.len() - 1 {
        lemma_count_zeros(v.drop_last());
    } else {
        lemma_count_single(v.drop_last(), r);
    }
}

/// Law: a missing copy shared by several selected decks consumes exactly one
/// row. If every selected deck's column marks just the row `r`, the union of
/// the selected columns covers one row, not one per deck.
pub proof fn lemma_shared_row_counted_once(cols: Seq<Seq<bool>>, sel: Seq<bool>, rows: nat, r: int)
    requires
        cols_wf(cols, sel.len() as int, rows as int),
        0 <= r < rows,
        forall|j: int|
            0 <= j < sel.len() && sel[j] ==> forall|i: int|
                0 <= i < rows ==> ((#[trigger] cols[j][i]) <==> i == r),
        exists|j: int| 0 <= j < sel.len() && sel[j],
    ensures
        covered_count(cols, sel, rows) == 1,
{
    let v = covered_vec(cols, sel, rows);
    let jw = choose|j: int| 0 <= j < sel.len() && sel[j];
    assert forall|i: int| 0 <= i < rows implies (v[i] <==> i == r) by {
        if i == r {
            assert(cols[jw][i]);
            assert(covers(cols, sel, i));
        } else {
            if covers(cols, sel, i) {
                let j2 = choose|j2: int| 0 <= j2 < sel.len() && sel[j2] && cols[j2][i];
                assert(!cols[j2][i]);
            }
        }
    }
    lemma_count_single(v, r);
}

} // verus!
