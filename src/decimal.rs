//! Decimal length markers: the digits that declare how many bytes a field's
//! value holds.
use vstd::prelude::*;

verus! {

/// An ASCII decimal digit.
pub open spec fn is_digit(b: u8) -> bool {
    48 <= b && b <= 57
}

/// Every byte of `d` is a decimal digit.
pub open spec fn all_digits(d: Seq<u8>) -> bool {
    forall|k: int| 0 <= k < d.len() ==> is_digit(#[trigger] d[k])
}

/// The number that a run of decimal digits denotes (most significant first).
pub open spec fn digits_value(d: Seq<u8>) -> nat
    decreases d.len(),
{
    if d.len() == 0 {
        0
    } else {
        digits_value(d.drop_last()) * 10 + (d.last() - 48) as nat
    }
}

/// A length marker as this format writes it: at least one digit, and no
/// leading zero unless the marker is the single digit `0`.
pub open spec fn canonical(d: Seq<u8>) -> bool {
    &&& d.len() > 0
    &&& all_digits(d)
    &&& (d.len() == 1 || d[0] != 48)
}

/// The shortest decimal rendering of `n`.
pub open spec fn decimal(n: nat) -> Seq<u8>
    decreases n,
{
    if n < 10 {
        seq![(n + 48) as u8]
    } else {
        decimal(n / 10).push((n % 10 + 48) as u8)
    }
}

/// Rendering a number gives a canonical marker that reads back as that number.
pub proof fn lemma_decimal_reads_back(n: nat)
    ensures
        canonical(decimal(n)),
        digits_value(decimal(n)) == n,
        n >= 1 ==> decimal(n)[0] != 48,
    decreases n,
{
    if n < 10 {
        let d = decimal(n);
        assert(d.drop_last() =~= Seq::<u8>::empty());
        assert(digits_value(d.drop_last()) == 0);
        assert(d.last() == (n + 48) as u8);
    } else {
        let m = n / 10;
        lemma_decimal_reads_back(m);
        let d = decimal(n);
        assert(d.drop_last() =~= decimal(m));
        assert forall|k: int| 0 <= k < d.len() implies is_digit(#[trigger] d[k]) by {
            if k < d.len() - 1 {
                assert(d[k] == decimal(m)[k]);
            }
        }
        assert(m >= 1);
        assert(d[0] == decimal(m)[0]);
        assert(d.last() == (n % 10 + 48) as u8);
        assert(n == m * 10 + n % 10) by (nonlinear_arith)
            requires
                m == n / 10,
        ;
        assert(digits_value(d) == digits_value(decimal(m)) * 10 + n % 10);
    }
}

/// A marker that starts with a non-zero digit denotes a positive number.
pub proof fn lemma_leading_digit_positive(d: Seq<u8>)
    requires
        d.len() > 0,
        all_digits(d),
        d[0] != 48,
    ensures
        digits_value(d) >= 1,
    decreases d.len(),
{
    if d.len() > 1 {
        let p = d.drop_last();
        assert(p[0] == d[0]);
        assert forall|k: int| 0 <= k < p.len() implies is_digit(#[trigger] p[k]) by {
            assert(p[k] == d[k]);
        }
        lemma_leading_digit_positive(p);
    }
}

/// A canonical marker is exactly the rendering of the number it denotes.
pub proof fn lemma_canonical_is_decimal(d: Seq<u8>)
    requires
        canonical(d),
    ensures
        decimal(digits_value(d)) == d,
    decreases d.len(),
{
    if d.len() == 1 {
        assert(d.drop_last() =~= Seq::<u8>::empty());
        assert(is_digit(d[0]));
        assert(decimal(digits_value(d)) =~= d);
    } else {
        let p = d.drop_last();
        assert(p[0] == d[0]);
        assert forall|k: int| 0 <= k < p.len() implies is_digit(#[trigger] p[k]) by {
            assert(p[k] == d[k]);
        }
        lemma_canonical_is_decimal(p);
        lemma_leading_digit_positive(p);
        let v = digits_value(p);
        let x = (d.last() - 48) as nat;
        assert(is_digit(d[d.len() - 1]));
        let n = v * 10 + x;
        assert(n >= 10);
        assert(n / 10 == v && n % 10 == x) by (nonlinear_arith)
            requires
                n == v * 10 + x,
                x < 10,
        ;
        assert(decimal(n) =~= d);
    }
}

/// Reading a longer run of digits never gives a smaller number.
pub proof fn lemma_prefix_value_le(d: Seq<u8>, k: int)
    requires
        0 <= k <= d.len(),
        all_digits(d),
    ensures
        digits_value(d.subrange(0, k)) <= digits_value(d),
    decreases d.len(),
{
    if k < d.len() {
        let p = d.drop_last();
        assert forall|t: int| 0 <= t < p.len() implies is_digit(#[trigger] p[t]) by {
            assert(p[t] == d[t]);
        }
        lemma_prefix_value_le(p, k);
        assert(p.subrange(0, k) =~= d.subrange(0, k));
    } else {
        assert(d.subrange(0, k) =~= d);
    }
}

/// Appends the decimal rendering of `n` to `out`.
pub fn push_decimal(out: &mut Vec<u8>, n: usize)
    ensures
        final(out)@ == old(out)@ + decimal(n as nat),
    decreases n,
{
    if n >= 10 {
        push_decimal(out, n / 10);
    }
    let digit: u8 = (n % 10) as u8 + 48;
    out.push(digit);
    assert(final(out)@ =~= old(out)@ + decimal(n as nat));
}

/// Reads the digits `c[lo..hi]` as a number, provided that number does not
/// exceed `bound`; `None` when it does.
pub fn read_decimal(c: &[u8], lo: usize, hi: usize, bound: usize) -> (r: Option<usize>)
    requires
        lo <= hi <= c@.len(),
        all_digits(c@.subrange(lo as int, hi as int)),
    ensures
        match r {
            Some(v) => v as nat == digits_value(c@.subrange(lo as int, hi as int)) && v <= bound,
            None => digits_value(c@.subrange(lo as int, hi as int)) > bound,
        },
{
    let ghost d = c@.subrange(lo as int, hi as int);
    let mut acc: usize = 0;
    let mut k: usize = lo;
    assert(c@.subrange(lo as int, lo as int) =~= Seq::<u8>::empty());
    while k < hi
        invariant
            lo <= k <= hi <= c@.len(),
            d == c@.subrange(lo as int, hi as int),
            all_digits(d),
            acc <= bound,
            acc as nat == digits_value(c@.subrange(lo as int, k as int)),
        decreases hi - k,
    {
        assert(c@.subrange(lo as int, k as int + 1).drop_last() =~= c@.subrange(lo as int, k as int));
        assert(d[k - lo] == c@[k as int]);
        let digit: u8 = c[k] - 48;
        let next: u128 = acc as u128 * 10 + digit as u128;
        if next > bound as u128 {
            assert(d.subrange(0, (k - lo) as int + 1) =~= c@.subrange(lo as int, k as int + 1));
            proof { lemma_prefix_value_le(d, (k - lo) as int + 1); }
            return None;
        }
        acc = next as usize;
        k = k + 1;
    }
    assert(c@.subrange(lo as int, hi as int) =~= d);
    Some(acc)
}

} // verus!
