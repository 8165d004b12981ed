//! Rewriting the values of every field keyed by a given name, re-serialising
//! each rewritten field with a length marker that matches its new value.
use vstd::prelude::*;
use crate::decimal::{canonical, decimal, digits_value, push_decimal, read_decimal};
use crate::field::{find_in, first_occurrence, header_at, header_end, lemma_find_from, marker, marker_end};

verus! {

/// Why a record could not be rewritten.
#[derive(Debug, Clone, Copy, PartialEq, Eq, Structural)]
pub enum RewriteError {
    /// No field keyed by the requested name stands in the record.
    NoSuchField,
    /// A field's length marker is not a canonical decimal number.
    InvalidLength,
    /// A field declares more bytes than the record holds after its header.
    MalformedField,
}

/// The outcome of a successful rewrite.
pub struct RewriteResult {
    /// Some field's value contained the search bytes.
    pub matched: bool,
    /// The rebuilt record; present exactly when `matched` holds.
    pub new_content: Option<Vec<u8>>,
}

impl View for RewriteResult {
    type V = (bool, Option<Seq<u8>>);

    open spec fn view(&self) -> (bool, Option<Seq<u8>>) {
        (
            self.matched,
            match self.new_content {
                Some(v) => Some(v@),
                None => None,
            },
        )
    }
}

/// What scanning a record from some position yields: whether a field was
/// found, whether one was rewritten, and the rebuilt bytes.
pub struct Scan {
    pub found: bool,
    pub matched: bool,
    pub out: Seq<u8>,
}

/// Puts a piece scanned earlier in front of what the rest of the scan yields.
pub open spec fn combine(
    found: bool,
    matched: bool,
    prefix: Seq<u8>,
    rest: Result<Scan, RewriteError>,
) -> Result<Scan, RewriteError> {
    match rest {
        Ok(t) => Ok(Scan { found: found || t.found, matched: matched || t.matched, out: prefix + t.out }),
        Err(e) => Err(e),
    }
}

/// The value `v` with its first occurrence of `search` replaced by `replace`;
/// `None` when `search` does not occur in `v`.
pub open spec fn replace_first(v: Seq<u8>, search: Seq<u8>, replace: Seq<u8>) -> Option<Seq<u8>> {
    match first_occurrence(v, search) {
        Some(p) => Some(v.subrange(0, p) + replace + v.subrange(p + search.len(), v.len() as int)),
        None => None,
    }
}

/// A field keyed by `key` holding `value`, serialised with its exact length.
pub open spec fn field_text(key: Seq<u8>, value: Seq<u8>) -> Seq<u8> {
    seq![58u8] + key + decimal(value.len()) + seq![58u8] + value
}

/// Where the value of the field whose header opens at `i` begins.
pub open spec fn value_start(c: Seq<u8>, key: Seq<u8>, i: int) -> int {
    marker_end(c, key, i) + 1
}

/// The length that the field whose header opens at `i` declares.
pub open spec fn declared(c: Seq<u8>, key: Seq<u8>, i: int) -> nat {
    digits_value(marker(c, key, i))
}

/// Where the value of the field whose header opens at `i` ends, going by its
/// declared length.
pub open spec fn value_end(c: Seq<u8>, key: Seq<u8>, i: int) -> int {
    value_start(c, key, i) + declared(c, key, i)
}

/// Scans `c` from position `i` for fields keyed by `key`, left to right and
/// without overlap, rewriting each value that contains `search`.
pub open spec fn scan_from(
    c: Seq<u8>,
    key: Seq<u8>,
    search: Seq<u8>,
    replace: Seq<u8>,
    i: int,
) -> Result<Scan, RewriteError>
    decreases c.len() - i,
{
    if i < 0 || i >= c.len() {
        Ok(Scan { found: false, matched: false, out: Seq::empty() })
    } else if !header_at(c, key, i) {
        combine(false, false, seq![c[i]], scan_from(c, key, search, replace, i + 1))
    } else if !canonical(marker(c, key, i)) {
        Err(RewriteError::InvalidLength)
    } else if value_end(c, key, i) > c.len() {
        Err(RewriteError::MalformedField)
    } else {
        let v = c.subrange(value_start(c, key, i), value_end(c, key, i));
        let rest = scan_from(c, key, search, replace, value_end(c, key, i));
        match replace_first(v, search, replace) {
            Some(nv) => combine(true, true, field_text(key, nv), rest),
            None => combine(true, false, c.subrange(i, value_end(c, key, i)), rest),
        }
    }
}

/// The result of rewriting the record `c`.
pub open spec fn rewrite_outcome(c: Seq<u8>, key: Seq<u8>, search: Seq<u8>, replace: Seq<u8>) -> Result<
    (bool, Option<Seq<u8>>),
    RewriteError,
> {
    match scan_from(c, key, search, replace, 0) {
        Err(e) => Err(e),
        Ok(t) => if !t.found {
            Err(RewriteError::NoSuchField)
        } else if t.matched {
            Ok((true, Some(t.out)))
        } else {
            Ok((false, None))
        },
    }
}

/// The abstract value of what `rewrite` returns.
pub open spec fn outcome_of(res: Result<RewriteResult, RewriteError>) -> Result<
    (bool, Option<Seq<u8>>),
    RewriteError,
> {
    match res {
        Ok(r) => Ok(r@),
        Err(e) => Err(e),
    }
}

proof fn lemma_combine_assoc(
    f1: bool,
    m1: bool,
    p1: Seq<u8>,
    f2: bool,
    m2: bool,
    p2: Seq<u8>,
    rest: Result<Scan, RewriteError>,
)
    ensures
        combine(f1, m1, p1, combine(f2, m2, p2, rest)) == combine(f1 || f2, m1 || m2, p1 + p2, rest),
{
    if let Ok(t) = rest {
        assert((p1 + p2) + t.out =~= p1 + (p2 + t.out));
    }
}

/// Appends `src[lo..hi]` to `out`.
fn append_range(out: &mut Vec<u8>, src: &[u8], lo: usize, hi: usize)
    requires
        lo <= hi <= src@.len(),
    ensures
        final(out)@ == old(out)@ + src@.subrange(lo as int, hi as int),
{
    let mut k: usize = lo;
    while k < hi
        invariant
            lo <= k <= hi <= src@.len(),
            out@ == old(out)@ + src@.subrange(lo as int, k as int),
        decreases hi - k,
    {
        out.push(src[k]);
        k = k + 1;
        assert(out@ =~= old(out)@ + src@.subrange(lo as int, k as int));
    }
}

/// Unfolds the scan at a well-formed field.
proof fn lemma_scan_at_field(c: Seq<u8>, key: Seq<u8>, search: Seq<u8>, replace: Seq<u8>, i: int)
    requires
        0 <= i < c.len(),
        header_at(c, key, i),
        canonical(marker(c, key, i)),
        value_end(c, key, i) <= c.len(),
    ensures
        scan_from(c, key, search, replace, i) == ({
            let v = c.subrange(value_start(c, key, i), value_end(c, key, i));
            let rest = scan_from(c, key, search, replace, value_end(c, key, i));
            match replace_first(v, search, replace) {
                Some(nv) => combine(true, true, field_text(key, nv), rest),
                None => combine(true, false, c.subrange(i, value_end(c, key, i)), rest),
            }
        }),
{
}

/// Appends to `out` the field keyed by `key` whose value is `content[vs..ve]`
/// with its first occurrence of `search`, at `p`, replaced by `replace`.
fn emit_rewritten(
    out: &mut Vec<u8>,
    key: &[u8],
    content: &[u8],
    vs: usize,
    ve: usize,
    p: usize,
    search: &[u8],
    replace: &[u8],
)
    requires
        vs <= ve <= content@.len(),
        content@.len() + replace@.len() <= usize::MAX,
        first_occurrence(content@.subrange(vs as int, ve as int), search@) == Some(p as int),
    ensures
        replace_first(content@.subrange(vs as int, ve as int), search@, replace@) is Some,
        final(out)@ == old(out)@ + field_text(
            key@,
            replace_first(content@.subrange(vs as int, ve as int), search@, replace@)->Some_0,
        ),
{
    let ghost v = content@.subrange(vs as int, ve as int);
    proof {
        lemma_find_from(v, search@, 0);
    }
    let new_len: usize = (ve - vs) - search.len() + replace.len();
    let ghost before = out@;
    out.push(58);
    append_range(out, key, 0, key.len());
    push_decimal(out, new_len);
    out.push(58);
    append_range(out, content, vs, vs + p);
    append_range(out, replace, 0, replace.len());
    append_range(out, content, vs + p + search.len(), ve);
    proof {
        let nv = v.subrange(0, p as int) + replace@ + v.subrange(p + search@.len(), v.len() as int);
        assert(key@.subrange(0, key@.len() as int) =~= key@);
        assert(replace@.subrange(0, replace@.len() as int) =~= replace@);
        assert(v.subrange(0, p as int) =~= content@.subrange(vs as int, vs + p));
        assert(v.subrange(p + search@.len(), v.len() as int) =~= content@.subrange(
            vs + p + search@.len(),
            ve as int,
        ));
        assert(nv.len() == new_len);
        assert(final(out)@ =~= before + field_text(key@, nv));
    }
}

/// Rewrites every field `:<key><length>:<value>` of `content` whose value
/// contains `search`: the first occurrence of `search` in that value becomes
/// `replace`, and the length marker is set to the new value's length.
pub fn rewrite(content: &[u8], key: &[u8], search: &[u8], replace: &[u8]) -> (res: Result<
    RewriteResult,
    RewriteError,
>)
    requires
        content@.len() + replace@.len() <= usize::MAX,
    ensures
        outcome_of(res) == rewrite_outcome(content@, key@, search@, replace@),
{
    let ghost c = content@;
    let ghost whole = scan_from(c, key@, search@, replace@, 0);
    let n = content.len();
    let mut out: Vec<u8> = Vec::new();
    let mut found = false;
    let mut matched = false;
    let mut i: usize = 0;
    proof {
        if let Ok(t) = whole {
            assert(Seq::<u8>::empty() + t.out =~= t.out);
        }
    }
    while i < n
        invariant
            n == c.len(),
            c == content@,
            i <= n,
            n + replace@.len() <= usize::MAX,
            whole == scan_from(c, key@, search@, replace@, 0),
            combine(found, matched, out@, scan_from(c, key@, search@, replace@, i as int)) == whole,
        decreases n - i,
    {
        match header_end(content, key, i) {
            None => {
                proof {
                    lemma_combine_assoc(found, matched, out@, false, false, seq![c[i as int]],
                        scan_from(c, key@, search@, replace@, i + 1));
                }
                let ghost before = out@;
                out.push(content[i]);
                assert(out@ =~= before + seq![c[i as int]]);
                i = i + 1;
            },
            Some(e) => {
                let ms: usize = i + 1 + key.len();
                if e - ms > 1 && content[ms] == 48 {
                    return Err(RewriteError::InvalidLength);
                }
                let vs: usize = e + 1;
                let len = match read_decimal(content, ms, e, n - vs) {
                    None => {
                        return Err(RewriteError::MalformedField);
                    },
                    Some(l) => l,
                };
                let ve: usize = vs + len;
                let ghost v = c.subrange(vs as int, ve as int);
                let ghost rest = scan_from(c, key@, search@, replace@, ve as int);
                assert(marker(c, key@, i as int) == c.subrange(ms as int, e as int));
                assert(canonical(marker(c, key@, i as int)));
                assert(ve == value_end(c, key@, i as int));
                proof {
                    lemma_scan_at_field(c, key@, search@, replace@, i as int);
                }
                let ghost before = out@;
                match find_in(content, vs, ve, search) {
                    Some(p) => {
                        emit_rewritten(&mut out, key, content, vs, ve, p, search, replace);
                        proof {
                            let nv = replace_first(v, search@, replace@)->Some_0;
                            lemma_combine_assoc(found, matched, before, true, true, field_text(key@, nv), rest);
                        }
                        matched = true;
                    },
                    None => {
                        append_range(&mut out, content, i, ve);
                        proof {
                            lemma_combine_assoc(found, matched, before, true, false, c.subrange(i as int, ve as int), rest);
                        }
                    },
                }
                found = true;
                i = ve;
            },
        }
    }
    proof {
        assert(out@ + Seq::<u8>::empty() =~= out@);
    }
    if !found {
        return Err(RewriteError::NoSuchField);
    }
    if matched {
        Ok(RewriteResult { matched: true, new_content: Some(out) })
    } else {
        Ok(RewriteResult { matched: false, new_content: None })
    }
}

} // verus!
