//! Laws that relate the rewrite to the format it reads and writes.
use vstd::prelude::*;
use crate::decimal::{canonical, decimal, is_digit, lemma_canonical_is_decimal, lemma_decimal_reads_back};
use crate::field::{first_occurrence, header_at, lemma_digit_run_exact, lemma_find_from, marker, marker_end, occurs_at};
use crate::rewrite::{
    declared, field_text, replace_first, rewrite_outcome, scan_from, value_end, value_start,
    RewriteError,
};

verus! {

/// Rewriting a value changes its length by exactly the difference between
/// the replacement and the search bytes, and the new length is never below
/// the replacement's length (so never negative).
pub proof fn lemma_rewritten_length(v: Seq<u8>, search: Seq<u8>, replace: Seq<u8>)
    requires
        replace_first(v, search, replace) is Some,
    ensures
        replace_first(v, search, replace)->Some_0.len() == v.len() + replace.len() - search.len(),
        replace_first(v, search, replace)->Some_0.len() >= replace.len(),
{
    lemma_find_from(v, search, 0);
}

/// A rewritten field reads back as a well-formed field wherever it stands in
/// a record: scanning the record at the field finds its header, a canonical
/// length marker that declares exactly the byte length of the new value, and
/// that value right after the header.
pub proof fn lemma_rewritten_field_reads_back(
    key: Seq<u8>,
    v: Seq<u8>,
    search: Seq<u8>,
    replace: Seq<u8>,
    before: Seq<u8>,
    after: Seq<u8>,
)
    requires
        replace_first(v, search, replace) is Some,
    ensures
        ({
            let nv = replace_first(v, search, replace)->Some_0;
            let f = field_text(key, nv);
            let c = before + f + after;
            let i = before.len() as int;
            &&& header_at(c, key, i)
            &&& canonical(marker(c, key, i))
            &&& declared(c, key, i) == nv.len()
            &&& declared(c, key, i) == v.len() + replace.len() - search.len()
            &&& value_end(c, key, i) == i + f.len()
            &&& c.subrange(value_start(c, key, i), value_end(c, key, i)) == nv
        }),
{
    lemma_rewritten_length(v, search, replace);
    let nv = replace_first(v, search, replace)->Some_0;
    let d = decimal(nv.len());
    lemma_decimal_reads_back(nv.len());
    let f = field_text(key, nv);
    let c = before + f + after;
    let i = before.len() as int;
    let k = key.len() as int;
    let e = i + 1 + k + d.len();
    assert(c[i] == f[0]);
    assert(c.subrange(i + 1, i + 1 + k) =~= key);
    assert forall|t: int| i + 1 + k <= t < e implies is_digit(#[trigger] c[t]) by {
        assert(c[t] == d[t - i - 1 - k]);
    }
    assert(c[e] == f[e - i]);
    lemma_digit_run_exact(c, i + 1 + k, e);
    assert(marker_end(c, key, i) == e);
    assert(marker(c, key, i) =~= d);
    assert(c.subrange(e + 1, e + 1 + nv.len()) =~= nv);
}

proof fn lemma_scan_keeps_bytes(c: Seq<u8>, key: Seq<u8>, search: Seq<u8>, replace: Seq<u8>, i: int)
    requires
        0 <= i <= c.len(),
    ensures
        scan_from(c, key, search, replace, i) is Ok && (search == replace || !scan_from(
            c,
            key,
            search,
            replace,
            i,
        )->Ok_0.matched) ==> scan_from(c, key, search, replace, i)->Ok_0.out == c.subrange(
            i,
            c.len() as int,
        ),
    decreases c.len() - i,
{
    if i == c.len() {
        assert(c.subrange(i, i) =~= Seq::<u8>::empty());
    } else if !header_at(c, key, i) {
        lemma_scan_keeps_bytes(c, key, search, replace, i + 1);
        assert(seq![c[i]] + c.subrange(i + 1, c.len() as int) =~= c.subrange(i, c.len() as int));
    } else if canonical(marker(c, key, i)) && value_end(c, key, i) <= c.len() {
        let ve = value_end(c, key, i);
        let vs = value_start(c, key, i);
        let v = c.subrange(vs, ve);
        lemma_scan_keeps_bytes(c, key, search, replace, ve);
        assert(c.subrange(i, ve) + c.subrange(ve, c.len() as int) =~= c.subrange(i, c.len() as int));
        if search == replace {
            if let Some(p) = first_occurrence(v, search) {
                lemma_find_from(v, search, 0);
                assert(v.subrange(0, p) + search + v.subrange(p + search.len(), v.len() as int) =~= v);
                lemma_canonical_is_decimal(marker(c, key, i));
                let k = key.len() as int;
                let me = marker_end(c, key, i);
                assert(c.subrange(i + 1, i + 1 + k) == key);
                assert(c.subrange(i, ve) =~= seq![58u8] + c.subrange(i + 1, i + 1 + k) + marker(c, key, i)
                    + seq![58u8] + v);
            }
        }
    }
}

/// When the search and replacement bytes are equal, a successful rewrite
/// hands back the record unchanged.
pub proof fn lemma_identity_replacement_keeps_record(c: Seq<u8>, key: Seq<u8>, search: Seq<u8>)
    ensures
        match rewrite_outcome(c, key, search, search) {
            Ok((_, Some(out))) => out == c,
            _ => true,
        },
{
    lemma_scan_keeps_bytes(c, key, search, search, 0);
    assert(c.subrange(0, c.len() as int) =~= c);
}

/// When no field's value contains the search bytes, the scan rebuilds the
/// record byte for byte.
pub proof fn lemma_unmatched_scan_keeps_record(c: Seq<u8>, key: Seq<u8>, search: Seq<u8>, replace: Seq<u8>)
    ensures
        scan_from(c, key, search, replace, 0) is Ok && !scan_from(c, key, search, replace, 0)->Ok_0.matched
            ==> scan_from(c, key, search, replace, 0)->Ok_0.out == c,
{
    lemma_scan_keeps_bytes(c, key, search, replace, 0);
    assert(c.subrange(0, c.len() as int) =~= c);
}

proof fn lemma_scan_unmatched(c: Seq<u8>, key: Seq<u8>, search: Seq<u8>, replace: Seq<u8>, i: int)
    requires
        0 <= i <= c.len(),
        forall|j: int|
            #![trigger header_at(c, key, j)]
            header_at(c, key, j) && value_end(c, key, j) <= c.len() ==> first_occurrence(
                c.subrange(value_start(c, key, j), value_end(c, key, j)),
                search,
            ) is None,
    ensures
        scan_from(c, key, search, replace, i) is Ok ==> !scan_from(c, key, search, replace, i)->Ok_0.matched,
    decreases c.len() - i,
{
    if i < c.len() {
        if !header_at(c, key, i) {
            lemma_scan_unmatched(c, key, search, replace, i + 1);
        } else if canonical(marker(c, key, i)) && value_end(c, key, i) <= c.len() {
            lemma_scan_unmatched(c, key, search, replace, value_end(c, key, i));
        }
    }
}

/// When no field's value contains the search bytes, a rewrite that finds
/// the key reports no match and hands back no new content, and the scan
/// rebuilds the record byte for byte.
pub proof fn lemma_no_value_contains_search(c: Seq<u8>, key: Seq<u8>, search: Seq<u8>, replace: Seq<u8>)
    requires
        forall|j: int|
            #![trigger header_at(c, key, j)]
            header_at(c, key, j) && value_end(c, key, j) <= c.len() ==> first_occurrence(
                c.subrange(value_start(c, key, j), value_end(c, key, j)),
                search,
            ) is None,
    ensures
        rewrite_outcome(c, key, search, replace) is Ok ==> rewrite_outcome(c, key, search, replace)
            == Ok::<(bool, Option<Seq<u8>>), RewriteError>((false, None)),
        scan_from(c, key, search, replace, 0) is Ok ==> scan_from(c, key, search, replace, 0)->Ok_0.out == c,
{
    lemma_scan_unmatched(c, key, search, replace, 0);
    lemma_unmatched_scan_keeps_record(c, key, search, replace);
}

proof fn lemma_scan_flags_ignore_replacement(
    c: Seq<u8>,
    key: Seq<u8>,
    search: Seq<u8>,
    r1: Seq<u8>,
    r2: Seq<u8>,
    i: int,
)
    requires
        0 <= i <= c.len(),
    ensures
        match (scan_from(c, key, search, r1, i), scan_from(c, key, search, r2, i)) {
            (Ok(a), Ok(b)) => a.found == b.found && a.matched == b.matched,
            (Err(x), Err(y)) => x == y,
            _ => false,
        },
    decreases c.len() - i,
{
    if i < c.len() {
        if !header_at(c, key, i) {
            lemma_scan_flags_ignore_replacement(c, key, search, r1, r2, i + 1);
        } else if canonical(marker(c, key, i)) && value_end(c, key, i) <= c.len() {
            lemma_scan_flags_ignore_replacement(c, key, search, r1, r2, value_end(c, key, i));
        }
    }
}

/// Whether a rewrite fails, and whether it reports a match, does not depend
/// on the replacement bytes; in particular replacing the search bytes by
/// themselves reports the same `matched` as any other replacement.
pub proof fn lemma_outcome_ignores_replacement(c: Seq<u8>, key: Seq<u8>, search: Seq<u8>, r1: Seq<u8>, r2: Seq<u8>)
    ensures
        match (rewrite_outcome(c, key, search, r1), rewrite_outcome(c, key, search, r2)) {
            (Ok(a), Ok(b)) => a.0 == b.0,
            (Err(x), Err(y)) => x == y,
            _ => false,
        },
{
    lemma_scan_flags_ignore_replacement(c, key, search, r1, r2, 0);
}

/// Of a value in which the search bytes occur twice without overlap, only
/// the first occurrence is replaced: the later one still stands in the new
/// value, shifted by the change in length.
pub proof fn lemma_only_first_occurrence_replaced(
    v: Seq<u8>,
    search: Seq<u8>,
    replace: Seq<u8>,
    p: int,
    q: int,
)
    requires
        occurs_at(v, search, p),
        occurs_at(v, search, q),
        p + search.len() <= q,
    ensures
        match first_occurrence(v, search) {
            Some(f) => {
                &&& f <= p
                &&& replace_first(v, search, replace) == Some(
                    v.subrange(0, f) + replace + v.subrange(f + search.len(), v.len() as int),
                )
                &&& occurs_at(
                    replace_first(v, search, replace)->Some_0,
                    search,
                    q - search.len() + replace.len(),
                )
            },
            None => false,
        },
{
    lemma_find_from(v, search, 0);
    let f = first_occurrence(v, search)->Some_0;
    let nv = replace_first(v, search, replace)->Some_0;
    let at = q - search.len() + replace.len();
    assert(nv.subrange(at, at + search.len()) =~= v.subrange(q, q + search.len()));
}

proof fn lemma_no_key_no_field(c: Seq<u8>, key: Seq<u8>, search: Seq<u8>, replace: Seq<u8>, i: int)
    requires
        0 <= i <= c.len(),
        forall|j: int| !occurs_at(c, seq![58u8] + key, j),
    ensures
        scan_from(c, key, search, replace, i) is Ok,
        !scan_from(c, key, search, replace, i)->Ok_0.found,
    decreases c.len() - i,
{
    if i < c.len() {
        if header_at(c, key, i) {
            let k = key.len() as int;
            assert(c.subrange(i, i + 1 + k) =~= seq![58u8] + c.subrange(i + 1, i + 1 + k));
            assert(occurs_at(c, seq![58u8] + key, i));
        }
        lemma_no_key_no_field(c, key, search, replace, i + 1);
    }
}

/// A record in which `:<key>` occurs nowhere fails with `NoSuchField`.
pub proof fn lemma_missing_key(c: Seq<u8>, key: Seq<u8>, search: Seq<u8>, replace: Seq<u8>)
    requires
        forall|j: int| !occurs_at(c, seq![58u8] + key, j),
    ensures
        rewrite_outcome(c, key, search, replace) == Err::<(bool, Option<Seq<u8>>), RewriteError>(
            RewriteError::NoSuchField,
        ),
{
    lemma_no_key_no_field(c, key, search, replace, 0);
}

} // verus!
