use vstd::prelude::*;

verus! {

/// The Unicode `White_Space` code points, the set that `trim` strips.
pub open spec fn is_ws_char(c: char) -> bool {
    c == ' ' || c == '\t' || c == '\n' || c == '\r' || c == '\u{b}' || c == '\u{c}'
        || c == '\u{85}' || c == '\u{a0}' || c == '\u{1680}' || c == '\u{2000}'
        || c == '\u{2001}' || c == '\u{2002}' || c == '\u{2003}' || c == '\u{2004}'
        || c == '\u{2005}' || c == '\u{2006}' || c == '\u{2007}' || c == '\u{2008}'
        || c == '\u{2009}' || c == '\u{200a}' || c == '\u{2028}' || c == '\u{2029}'
        || c == '\u{202f}' || c == '\u{205f}' || c == '\u{3000}'
}

fn is_ws(c: char) -> (r: bool)
    ensures
        r == is_ws_char(c),
{
    c == ' ' || c == '\t' || c == '\n' || c == '\r' || c == '\u{b}' || c == '\u{c}'
        || c == '\u{85}' || c == '\u{a0}' || c == '\u{1680}' || c == '\u{2000}'
        || c == '\u{2001}' || c == '\u{2002}' || c == '\u{2003}' || c == '\u{2004}'
        || c == '\u{2005}' || c == '\u{2006}' || c == '\u{2007}' || c == '\u{2008}'
        || c == '\u{2009}' || c == '\u{200a}' || c == '\u{2028}' || c == '\u{2029}'
        || c == '\u{202f}' || c == '\u{205f}' || c == '\u{3000}'
}

/// Index of the first non-whitespace character at or after `i`,
/// or the length of `s` if all of the rest is whitespace.
pub open spec fn first_non_ws(s: Seq<char>, i: int) -> int
    decreases s.len() - i,
{
    if i < 0 || i >= s.len() {
        s.len() as int
    } else if is_ws_char(s[i]) {
        first_non_ws(s, i + 1)
    } else {
        i
    }
}

/// Exclusive end of the text once trailing whitespace below `i` is dropped.
pub open spec fn last_non_ws_end(s: Seq<char>, i: int) -> int
    decreases i,
{
    if i <= 0 {
        0
    } else if i > s.len() {
        last_non_ws_end(s, s.len() as int)
    } else if is_ws_char(s[i - 1]) {
        last_non_ws_end(s, i - 1)
    } else {
        i
    }
}

/// What `str::trim` leaves: the text with leading and trailing whitespace removed.
pub open spec fn trim_spec(s: Seq<char>) -> Seq<char> {
    let lo = first_non_ws(s, 0);
    if lo == s.len() {
        Seq::empty()
    } else {
        s.subrange(lo, last_non_ws_end(s, s.len() as int))
    }
}

/// Index just past every leading repetition of `"A-"` (the alternate-art prefix).
pub open spec fn alt_start(s: Seq<char>, i: int) -> int
    decreases s.len() - i,
{
    if 0 <= i && i + 2 <= s.len() && s[i] == 'A' && s[i + 1] == '-' {
        alt_start(s, i + 2)
    } else {
        i
    }
}

pub open spec fn sep_at(s: Seq<char>, i: int) -> bool {
    s[i] == ' ' && s[i + 1] == '/' && s[i + 2] == '/' && s[i + 3] == ' '
}

/// Index of the first `" // "` (the split-card separator) at or after `i`,
/// or the length of `s` if there is none.
pub open spec fn find_sep(s: Seq<char>, i: int) -> int
    decreases s.len() - i,
{
    if i < 0 || i + 4 > s.len() {
        s.len() as int
    } else if sep_at(s, i) {
        i
    } else {
        find_sep(s, i + 1)
    }
}

/// The normalized form of a card name: the alternate-art prefix `"A-"` is
/// stripped (however often it repeats) and the name is truncated at the first
/// split-card separator `" // "`.
pub open spec fn simplified_spec(s: Seq<char>) -> Seq<char> {
    let a = alt_start(s, 0);
    let e = find_sep(s, a);
    s.subrange(a, e)
}

/// Normalization applied on insertion: trim first, then simplify.
pub open spec fn norm_key(s: Seq<char>) -> Seq<char> {
    simplified_spec(trim_spec(s))
}

proof fn lemma_first_non_ws_bounds(s: Seq<char>, i: int)
    requires
        0 <= i <= s.len(),
    ensures
        i <= first_non_ws(s, i) <= s.len(),
    decreases s.len() - i,
{
    if i < s.len() && is_ws_char(s[i]) {
        lemma_first_non_ws_bounds(s, i + 1);
    }
}

proof fn lemma_last_non_ws_bounds(s: Seq<char>, i: int, lo: int)
    requires
        0 <= lo < i <= s.len(),
        !is_ws_char(s[lo]),
    ensures
        lo + 1 <= last_non_ws_end(s, i) <= i,
    decreases i,
{
    if is_ws_char(s[i - 1]) {
        if i - 1 == lo {
            assert(false);
        } else {
            lemma_last_non_ws_bounds(s, i - 1, lo);
        }
    }
}

proof fn lemma_alt_start_bounds(s: Seq<char>, i: int)
    requires
        0 <= i <= s.len(),
    ensures
        i <= alt_start(s, i) <= s.len(),
    decreases s.len() - i,
{
    if i + 2 <= s.len() && s[i] == 'A' && s[i + 1] == '-' {
        lemma_alt_start_bounds(s, i + 2);
    }
}

proof fn lemma_find_sep_bounds(s: Seq<char>, i: int)
    requires
        0 <= i <= s.len(),
    ensures
        i <= find_sep(s, i) <= s.len(),
    decreases s.len() - i,
{
    if i + 4 <= s.len() && !sep_at(s, i) {
        lemma_find_sep_bounds(s, i + 1);
    }
}

/// What `str::trim` returns on `name`.
pub fn trim_str(name: &str) -> (r: &str)
    ensures
        r@ == trim_spec(name@),
{
    let n: usize = name.unicode_len();
    let mut lo: usize = 0;
    while lo < n && is_ws(name.get_char(lo))
        invariant
            0 <= lo <= n,
            n == name@.len(),
            first_non_ws(name@, 0) == first_non_ws(name@, lo as int),
        decreases n - lo,
    {
        lo = lo + 1;
    }
    proof {
        lemma_first_non_ws_bounds(name@, lo as int);
    }
    if lo == n {
        let r = name.substring_char(0, 0);
        proof {
            assert(r@ =~= trim_spec(name@));
        }
        return r;
    }
    assert(first_non_ws(name@, 0) == lo as int);
    let mut hi: usize = n;
    while hi > lo && is_ws(name.get_char(hi - 1))
        invariant
            lo < hi <= n,
            n == name@.len(),
            lo < n,
            !is_ws_char(name@[lo as int]),
            last_non_ws_end(name@, n as int) == last_non_ws_end(name@, hi as int),
        decreases hi,
    {
        hi = hi - 1;
    }
    proof {
        assert(last_non_ws_end(name@, hi as int) == hi as int);
    }
    name.substring_char(lo, hi)
}

/// The normalized form of a card name, per `simplified_spec`: the `"A-"`
/// alternate-art prefix is stripped and the name is truncated at `" // "`.
pub fn simplified_name(name: &str) -> (r: &str)
    ensures
        r@ == simplified_spec(name@),
{
    let n: usize = name.unicode_len();
    let mut a: usize = 0;
    while n - a >= 2 && name.get_char(a) == 'A' && name.get_char(a + 1) == '-'
        invariant
            0 <= a <= n,
            n == name@.len(),
            alt_start(name@, 0) == alt_start(name@, a as int),
        decreases n - a,
    {
        a = a + 2;
    }
    assert(alt_start(name@, 0) == a as int);
    let mut e: usize = a;
    while n - e >= 4 && !(name.get_char(e) == ' ' && name.get_char(e + 1) == '/'
        && name.get_char(e + 2) == '/' && name.get_char(e + 3) == ' ')
        invariant
            a <= e <= n,
            n == name@.len(),
            find_sep(name@, a as int) == find_sep(name@, e as int),
        decreases n - e,
    {
        e = e + 1;
    }
    if n - e >= 4 {
        assert(find_sep(name@, a as int) == e as int);
        name.substring_char(a, e)
    } else {
        assert(find_sep(name@, e as int) == n as int);
        name.substring_char(a, n)
    }
}

/// Character-by-character string comparison, so that contracts can speak of
/// the character sequences of the two inputs.
pub fn str_eq(a: &str, b: &str) -> (r: bool)
    ensures
        r == (a@ == b@),
{
    let na: usize = a.unicode_len();
    let nb: usize = b.unicode_len();
    if na != nb {
        return false;
    }
    let mut i: usize = 0;
    while i < na
        invariant
            0 <= i <= na,
            na == a@.len(),
            na == b@.len(),
            forall|j: int| 0 <= j < i ==> a@[j] == b@[j],
        decreases na - i,
    {
        if a.get_char(i) != b.get_char(i) {
            return false;
        }
        i = i + 1;
    }
    proof {
        assert(a@ =~= b@);
    }
    true
}

} // verus!
