//! Locating a length-prefixed field `:<key><digits>:<value>` and searching
//! inside its value.
use vstd::prelude::*;
use crate::decimal::{is_digit, all_digits};

verus! {

/// `pat` stands in `c` starting at position `at`.
pub open spec fn occurs_at(c: Seq<u8>, pat: Seq<u8>, at: int) -> bool {
    &&& 0 <= at
    &&& at + pat.len() <= c.len()
    &&& c.subrange(at, at + pat.len()) == pat
}

/// The first position at or after `p` where `pat` stands in `v`.
pub open spec fn find_from(v: Seq<u8>, pat: Seq<u8>, p: int) -> Option<int>
    decreases v.len() + 1 - p,
{
    if p < 0 || p + pat.len() > v.len() {
        None
    } else if occurs_at(v, pat, p) {
        Some(p)
    } else {
        find_from(v, pat, p + 1)
    }
}

/// The first position where `pat` stands in `v`.
pub open spec fn first_occurrence(v: Seq<u8>, pat: Seq<u8>) -> Option<int> {
    find_from(v, pat, 0)
}

/// `find_from` returns the earliest occurrence, and `None` only when there is
/// no occurrence at all.
pub proof fn lemma_find_from(v: Seq<u8>, pat: Seq<u8>, p: int)
    requires
        0 <= p,
    ensures
        match find_from(v, pat, p) {
            Some(q) => p <= q && occurs_at(v, pat, q) && forall|t: int|
                p <= t < q ==> !occurs_at(v, pat, t),
            None => forall|t: int| p <= t ==> !occurs_at(v, pat, t),
        },
    decreases v.len() + 1 - p,
{
    if p + pat.len() <= v.len() && !occurs_at(v, pat, p) {
        lemma_find_from(v, pat, p + 1);
    }
}

/// The first position at or after `j` that does not hold a digit.
pub open spec fn digit_run_end(c: Seq<u8>, j: int) -> int
    decreases c.len() - j,
{
    if j < 0 || j >= c.len() || !is_digit(c[j]) {
        j
    } else {
        digit_run_end(c, j + 1)
    }
}

proof fn lemma_digit_run(c: Seq<u8>, j: int)
    requires
        0 <= j <= c.len(),
    ensures
        j <= digit_run_end(c, j) <= c.len(),
        all_digits(c.subrange(j, digit_run_end(c, j))),
        digit_run_end(c, j) < c.len() ==> !is_digit(c[digit_run_end(c, j)]),
    decreases c.len() - j,
{
    if j < c.len() && is_digit(c[j]) {
        lemma_digit_run(c, j + 1);
        let e = digit_run_end(c, j);
        assert forall|k: int| 0 <= k < e - j implies is_digit(#[trigger] c.subrange(j, e)[k]) by {
            if k > 0 {
                assert(c.subrange(j, e)[k] == c.subrange(j + 1, e)[k - 1]);
            }
        }
    }
}

/// A run of digits closed by a non-digit ends exactly there.
pub proof fn lemma_digit_run_exact(c: Seq<u8>, j: int, e: int)
    requires
        0 <= j <= e < c.len(),
        forall|k: int| j <= k < e ==> is_digit(#[trigger] c[k]),
        !is_digit(c[e]),
    ensures
        digit_run_end(c, j) == e,
    decreases e - j,
{
    if j < e {
        lemma_digit_run_exact(c, j + 1, e);
    }
}

/// Where the length marker of a field whose leading colon is at `i` begins.
pub open spec fn marker_start(key: Seq<u8>, i: int) -> int {
    i + 1 + key.len()
}

/// Where the length marker of a field whose leading colon is at `i` ends.
pub open spec fn marker_end(c: Seq<u8>, key: Seq<u8>, i: int) -> int {
    digit_run_end(c, marker_start(key, i))
}

/// The length marker of a field whose leading colon is at `i`.
pub open spec fn marker(c: Seq<u8>, key: Seq<u8>, i: int) -> Seq<u8> {
    c.subrange(marker_start(key, i), marker_end(c, key, i))
}

/// Position `i` opens a field header `:<key><digits>:`.
pub open spec fn header_at(c: Seq<u8>, key: Seq<u8>, i: int) -> bool {
    &&& 0 <= i < c.len()
    &&& c[i] == 58
    &&& occurs_at(c, key, i + 1)
    &&& marker_start(key, i) < marker_end(c, key, i) < c.len()
    &&& c[marker_end(c, key, i)] == 58
}

/// Whether `pat` stands in `c` at position `at`.
pub fn bytes_at(c: &[u8], at: usize, pat: &[u8]) -> (r: bool)
    ensures
        r == occurs_at(c@, pat@, at as int),
{
    if at > c.len() || pat.len() > c.len() - at {
        return false;
    }
    let mut t: usize = 0;
    while t < pat.len()
        invariant
            at + pat@.len() <= c.len(),
            t <= pat@.len(),
            forall|k: int| 0 <= k < t ==> c@[at + k] == pat@[k],
        decreases pat@.len() - t,
    {
        if c[at + t] != pat[t] {
            assert(c@.subrange(at as int, at + pat@.len())[t as int] != pat@[t as int]);
            return false;
        }
        t = t + 1;
    }
    assert(c@.subrange(at as int, at + pat@.len()) =~= pat@);
    true
}

/// The end of the header that opens at `i`: the position of the colon that
/// closes its length marker, or `None` when no header opens there.
pub fn header_end(c: &[u8], key: &[u8], i: usize) -> (r: Option<usize>)
    ensures
        match r {
            Some(e) => header_at(c@, key@, i as int) && e == marker_end(c@, key@, i as int),
            None => !header_at(c@, key@, i as int),
        },
        r.is_some() ==> all_digits(marker(c@, key@, i as int)),
{
    if i >= c.len() || c[i] != 58 || !bytes_at(c, i + 1, key) {
        return None;
    }
    let start: usize = i + 1 + key.len();
    let mut e: usize = start;
    proof {
        lemma_digit_run(c@, start as int);
    }
    while e < c.len() && 48 <= c[e] && c[e] <= 57
        invariant
            start <= e <= c@.len(),
            digit_run_end(c@, e as int) == digit_run_end(c@, start as int),
        decreases c@.len() - e,
    {
        e = e + 1;
    }
    if e == start || e >= c.len() || c[e] != 58 {
        return None;
    }
    Some(e)
}

/// The first position of `pat` inside `c[lo..hi]`, counted from `lo`.
pub fn find_in(c: &[u8], lo: usize, hi: usize, pat: &[u8]) -> (r: Option<usize>)
    requires
        lo <= hi <= c@.len(),
    ensures
        match r {
            Some(p) => first_occurrence(c@.subrange(lo as int, hi as int), pat@) == Some(p as int),
            None => first_occurrence(c@.subrange(lo as int, hi as int), pat@) is None,
        },
{
    let ghost v = c@.subrange(lo as int, hi as int);
    let mut p: usize = 0;
    while p <= hi - lo && pat.len() <= hi - lo - p
        invariant
            lo <= hi <= c@.len(),
            v == c@.subrange(lo as int, hi as int),
            find_from(v, pat@, 0) == find_from(v, pat@, p as int),
        decreases hi - lo - p + 1,
    {
        let here = bytes_at(c, lo + p, pat);
        assert(v.subrange(p as int, p + pat@.len()) =~= c@.subrange(lo + p, lo + p + pat@.len()));
        if here {
            return Some(p);
        }
        assert(find_from(v, pat@, p as int) == find_from(v, pat@, p as int + 1));
        if p == hi - lo {
            assert(find_from(v, pat@, p as int + 1) is None);
            return None;
        }
        p = p + 1;
    }
    None
}

} // verus!
