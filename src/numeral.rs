use vstd::prelude::*;
use vstd::slice::slice_subrange;

verus! {

/// An ASCII decimal digit.
pub open spec fn is_digit(c: u8) -> bool {
    48 <= c <= 57
}

/// Every byte of `t` is a decimal digit.
pub open spec fn all_digits(t: Seq<u8>) -> bool {
    forall|i: int| 0 <= i < t.len() ==> is_digit(#[trigger] t[i])
}

/// The number that the digits `t` spell in base ten (most significant first).
pub open spec fn digits_value(t: Seq<u8>) -> nat
    decreases t.len(),
{
    if t.len() == 0 {
        0
    } else {
        digits_value(t.drop_last()) * 10 + (t.last() - 48) as nat
    }
}

/// A decimal number written without exponent: `mantissa / 10^scale`,
/// negated when `negative` holds.
#[derive(Clone, Copy, Debug, PartialEq, Eq, Structural)]
pub struct Decimal {
    pub negative: bool,
    pub mantissa: u64,
    pub scale: u32,
}

/// Reads a numeral made of digits and at most one `.`, left to right.
/// The state after the bytes `t` is `(mantissa, scale, seen a digit, seen the dot)`,
/// or `None` once a byte breaks that shape.
pub open spec fn scan_numeral(t: Seq<u8>) -> Option<(nat, nat, bool, bool)>
    decreases t.len(),
{
    if t.len() == 0 {
        Some((0, 0, false, false))
    } else {
        match scan_numeral(t.drop_last()) {
            None => None,
            Some((m, k, any, dot)) => {
                let c = t.last();
                if is_digit(c) {
                    Some((m * 10 + (c - 48) as nat, if dot { k + 1 } else { k }, true, dot))
                } else if c == 46 && !dot {
                    Some((m, k, any, true))
                } else {
                    None
                }
            },
        }
    }
}

/// An unsigned numeral such as `054.7`, `12.` or `.5`: digits with at most one
/// `.`, at least one digit, and a mantissa and scale that fit their types.
pub open spec fn unsigned_decimal_of(t: Seq<u8>) -> Option<Decimal> {
    match scan_numeral(t) {
        Some((m, k, any, _dot)) => if any && m <= u64::MAX && k <= u32::MAX {
            Some(Decimal { negative: false, mantissa: m as u64, scale: k as u32 })
        } else {
            None
        },
        None => None,
    }
}

/// A numeral as `unsigned_decimal_of` reads it, after an optional `+` or `-`.
pub open spec fn decimal_of(t: Seq<u8>) -> Option<Decimal> {
    if t.len() > 0 && (t[0] == 43 || t[0] == 45) {
        match unsigned_decimal_of(t.subrange(1, t.len() as int)) {
            Some(d) => Some(Decimal { negative: t[0] == 45, ..d }),
            None => None,
        }
    } else {
        unsigned_decimal_of(t)
    }
}

proof fn lemma_scan_prefix(t: Seq<u8>, j: int)
    requires
        0 <= j <= t.len(),
        scan_numeral(t) is Some,
    ensures
        match (scan_numeral(t.take(j)), scan_numeral(t)) {
            (Some((m1, k1, _, _)), Some((m, k, _, _))) => m1 <= m && k1 <= k,
            _ => false,
        },
    decreases t.len(),
{
    if j < t.len() {
        lemma_scan_prefix(t.drop_last(), j);
        assert(t.drop_last().take(j) =~= t.take(j));
    } else {
        assert(t.take(j) =~= t);
    }
}

/// Reads an unsigned numeral (see `unsigned_decimal_of`).
pub fn parse_unsigned_decimal(t: &[u8]) -> (r: Option<Decimal>)
    ensures
        r == unsigned_decimal_of(t@),
{
    let mut i: usize = 0;
    let mut m: u64 = 0;
    let mut k: u32 = 0;
    let mut any = false;
    let mut dot = false;
    while i < t.len()
        invariant
            0 <= i <= t@.len(),
            scan_numeral(t@.take(i as int)) == Some((m as nat, k as nat, any, dot)),
        decreases t@.len() - i,
    {
        let c = t[i];
        assert(t@.take(i + 1).drop_last() =~= t@.take(i as int));
        if 48 <= c && c <= 57 {
            let d = (c - 48) as u64;
            let overflows = m > 1844674407370955161 || (m == 1844674407370955161 && d > 5);
            if overflows || (dot && k == u32::MAX) {
                proof {
                    if scan_numeral(t@) is Some {
                        lemma_scan_prefix(t@, i + 1);
                    }
                }
                return None;
            }
            m = m * 10 + d;
            if dot {
                k = k + 1;
            }
            any = true;
        } else if c == 46 && !dot {
            dot = true;
        } else {
            proof {
                if scan_numeral(t@) is Some {
                    lemma_scan_prefix(t@, i + 1);
                }
            }
            return None;
        }
        i = i + 1;
    }
    assert(t@.take(i as int) =~= t@);
    if any {
        Some(Decimal { negative: false, mantissa: m, scale: k })
    } else {
        None
    }
}

/// Reads a numeral with an optional sign (see `decimal_of`).
pub fn parse_decimal(t: &[u8]) -> (r: Option<Decimal>)
    ensures
        r == decimal_of(t@),
{
    if t.len() > 0 && (t[0] == 43 || t[0] == 45) {
        let body = slice_subrange(t, 1, t.len());
        match parse_unsigned_decimal(body) {
            Some(d) => Some(Decimal { negative: t[0] == 45, ..d }),
            None => None,
        }
    } else {
        parse_unsigned_decimal(t)
    }
}

/// Reads a field made of digits alone, as the number they spell; `None` for an
/// empty field, any other byte, or a value over `u32::MAX`.
pub fn parse_digits(t: &[u8]) -> (r: Option<u32>)
    ensures
        r is Some <==> (t@.len() > 0 && all_digits(t@) && digits_value(t@) <= u32::MAX),
        r is Some ==> r->0 == digits_value(t@),
{
    if t.len() == 0 {
        return None;
    }
    let mut i: usize = 0;
    let mut v: u32 = 0;
    while i < t.len()
        invariant
            0 <= i <= t@.len(),
            all_digits(t@.take(i as int)),
            v == digits_value(t@.take(i as int)),
        decreases t@.len() - i,
    {
        let c = t[i];
        assert(t@.take(i + 1).drop_last() =~= t@.take(i as int));
        if !(48 <= c && c <= 57) {
            return None;
        }
        let d = (c - 48) as u32;
        if v > 429496729 || (v == 429496729 && d > 5) {
            proof {
                lemma_digits_prefix(t@, i + 1);
            }
            return None;
        }
        v = v * 10 + d;
        i = i + 1;
    }
    assert(t@.take(i as int) =~= t@);
    Some(v)
}

proof fn lemma_digits_prefix(t: Seq<u8>, j: int)
    requires
        0 <= j <= t.len(),
    ensures
        digits_value(t.take(j)) <= digits_value(t),
    decreases t.len(),
{
    if j < t.len() {
        lemma_digits_prefix(t.drop_last(), j);
        assert(t.drop_last().take(j) =~= t.take(j));
    } else {
        assert(t.take(j) =~= t);
    }
}

} // verus!
