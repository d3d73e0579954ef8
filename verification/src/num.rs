//! Decimal integer text: the grammar of the signed decimal lines the wire
//! format carries, a verified parser and a verified formatter.

use vstd::prelude::*;

verus! {

/// The ASCII code of `0`.
pub const DIGIT_ZERO: u8 = 48;

/// The ASCII code of `-`.
pub const MINUS: u8 = 45;

/// Is `b` the ASCII code of a decimal digit?
pub open spec fn is_digit(b: u8) -> bool {
    DIGIT_ZERO <= b <= DIGIT_ZERO + 9
}

/// Does `s` consist of decimal digits only?
pub open spec fn all_digits(s: Seq<u8>) -> bool {
    forall|i: int| 0 <= i < s.len() ==> is_digit(#[trigger] s[i])
}

/// The value of a digit string, most significant digit first.
pub open spec fn digits_val(s: Seq<u8>) -> int
    decreases s.len(),
{
    if s.len() == 0 {
        0
    } else {
        digits_val(s.drop_last()) * 10 + (s.last() - DIGIT_ZERO)
    }
}

/// A signed decimal integer: an optional minus sign, then one or more digits.
pub open spec fn is_int_text(s: Seq<u8>) -> bool {
    if s.len() > 0 && s[0] == MINUS {
        s.len() >= 2 && all_digits(s.skip(1))
    } else {
        s.len() >= 1 && all_digits(s)
    }
}

/// The value a signed decimal integer denotes.
pub open spec fn int_text_val(s: Seq<u8>) -> int {
    if s.len() > 0 && s[0] == MINUS {
        -digits_val(s.skip(1))
    } else {
        digits_val(s)
    }
}

/// The value of a digit string is never negative.
pub proof fn lemma_digits_val_nonneg(s: Seq<u8>)
    requires
        all_digits(s),
    ensures
        digits_val(s) >= 0,
    decreases s.len(),
{
    if s.len() > 0 {
        assert(all_digits(s.drop_last()));
        lemma_digits_val_nonneg(s.drop_last());
    }
}

/// Appending digits never shrinks the value of a digit string.
pub proof fn lemma_digits_val_prefix(s: Seq<u8>, k: int)
    requires
        all_digits(s),
        0 <= k <= s.len(),
    ensures
        digits_val(s.subrange(0, k)) <= digits_val(s),
    decreases s.len() - k,
{
    if k < s.len() {
        let t = s.subrange(0, k + 1);
        assert(t.drop_last() =~= s.subrange(0, k));
        assert(all_digits(s.subrange(0, k)));
        lemma_digits_val_nonneg(s.subrange(0, k));
        assert(digits_val(t) == digits_val(s.subrange(0, k)) * 10 + (s[k] - DIGIT_ZERO));
        lemma_digits_val_prefix(s, k + 1);
    } else {
        assert(s.subrange(0, k) =~= s);
    }
}

/// Parses a signed decimal integer.
///
/// Returns `Some` exactly when the bytes are well-formed integer text whose
/// value fits in an `i64`, and then returns that value.
pub fn parse_i64(s: &[u8]) -> (r: Option<i64>)
    ensures
        r is Some <==> is_int_text(s@) && i64::MIN <= int_text_val(s@) <= i64::MAX,
        r matches Some(v) ==> v == int_text_val(s@),
{
    let n = s.len();
    let neg = n > 0 && s[0] == MINUS;
    let start: usize = if neg { 1 } else { 0 };
    if n == start {
        return None;
    }
    let ghost digits = s@.subrange(start as int, n as int);
    let mut acc: u64 = 0;
    let mut j: usize = start;
    while j < n
        invariant
            start <= j <= n,
            n == s@.len(),
            start == 1 <==> (s@.len() > 0 && s@[0] == MINUS),
            start == 0 || start == 1,
            digits == s@.subrange(start as int, n as int),
            all_digits(s@.subrange(start as int, j as int)),
            acc == digits_val(s@.subrange(start as int, j as int)),
        decreases n - j,
    {
        let b = s[j];
        if b < DIGIT_ZERO || b > DIGIT_ZERO + 9 {
            // A non-digit after the optional sign: not integer text at all.
            proof {
                assert(!is_digit(digits[j - start]));
            }
            return None;
        }
        let d = (b - DIGIT_ZERO) as u64;
        let ghost pre = s@.subrange(start as int, j as int);
        let ghost ext = s@.subrange(start as int, j + 1 as int);
        proof {
            assert(ext.drop_last() =~= pre);
            assert(digits_val(ext) == acc * 10 + d);
        }
        if acc > (u64::MAX - d) / 10 {
            // The digits read so far already exceed every i64; more digits
            // only grow the value, so the text cannot fit.
            proof {
                if is_int_text(s@) {
                    assert(all_digits(digits));
                    assert(ext =~= digits.subrange(0, j + 1 - start));
                    lemma_digits_val_prefix(digits, j + 1 - start);
                    assert(digits_val(ext) > u64::MAX);
                    assert(digits_val(digits) > u64::MAX);
                    if start == 1 {
                        assert(s@.skip(1) =~= digits);
                    } else {
                        assert(digits =~= s@);
                    }
                }
            }
            return None;
        }
        acc = acc * 10 + d;
        j += 1;
        proof {
            assert(s@.subrange(start as int, j as int) =~= ext);
        }
    }
    proof {
        assert(digits =~= s@.subrange(start as int, j as int));
        if start == 1 {
            assert(s@.skip(1) =~= digits);
        } else {
            assert(digits =~= s@);
        }
        assert(is_int_text(s@));
    }
    if neg {
        if acc > 0x8000_0000_0000_0000u64 {
            None
        } else if acc == 0x8000_0000_0000_0000u64 {
            Some(i64::MIN)
        } else {
            Some(-(acc as i64))
        }
    } else {
        if acc > i64::MAX as u64 {
            None
        } else {
            Some(acc as i64)
        }
    }
}

/// The canonical decimal digits of a non-negative value: no sign, and no
/// leading zero except for the value zero itself.
pub open spec fn dec_digits(v: int) -> Seq<u8>
    decreases v,
{
    if v <= 9 {
        seq![(DIGIT_ZERO + if v < 0 { 0 } else { v }) as u8]
    } else {
        dec_digits(v / 10).push((DIGIT_ZERO + v % 10) as u8)
    }
}

/// The canonical digits denote the value they were built from.
pub proof fn lemma_dec_digits_val(v: int)
    requires
        v >= 0,
    ensures
        all_digits(dec_digits(v)),
        digits_val(dec_digits(v)) == v,
        dec_digits(v).len() >= 1,
    decreases v,
{
    if v > 9 {
        lemma_dec_digits_val(v / 10);
        let s = dec_digits(v);
        assert(s == dec_digits(v / 10).push((DIGIT_ZERO + v % 10) as u8));
        assert(s.drop_last() =~= dec_digits(v / 10));
        assert(s.last() == (DIGIT_ZERO + v % 10) as u8);
        assert(digits_val(s) == digits_val(s.drop_last()) * 10 + (s.last() - DIGIT_ZERO));
        assert(digits_val(s) == (v / 10) * 10 + v % 10);
    } else {
        let s = dec_digits(v);
        assert(s == seq![(DIGIT_ZERO + v) as u8]);
        assert(s.drop_last() =~= Seq::<u8>::empty());
        assert(digits_val(s) == digits_val(s.drop_last()) * 10 + (s.last() - DIGIT_ZERO));
    }
}

/// Formats a value as its canonical decimal digits.
pub fn format_u64(v: u64) -> (r: Vec<u8>)
    ensures
        r@ == dec_digits(v as int),
{
    let mut rev: Vec<u8> = Vec::new();
    let mut x: u64 = v;
    while x > 9
        invariant
            dec_digits(v as int) =~= dec_digits(x as int) + rev@.reverse(),
        decreases x,
    {
        let ghost oldrev = rev@;
        rev.push(DIGIT_ZERO + (x % 10) as u8);
        proof {
            assert(rev@.reverse() =~= seq![(DIGIT_ZERO + (x as int) % 10) as u8] + oldrev.reverse());
            assert(dec_digits(x as int) =~= dec_digits((x as int) / 10).push(
                (DIGIT_ZERO + (x as int) % 10) as u8,
            ));
            assert(dec_digits((x as int) / 10) + rev@.reverse() =~= dec_digits(x as int)
                + oldrev.reverse());
        }
        x = x / 10;
    }
    let ghost oldrev = rev@;
    rev.push(DIGIT_ZERO + x as u8);
    proof {
        assert(rev@.reverse() =~= seq![(DIGIT_ZERO + x as int) as u8] + oldrev.reverse());
        assert(dec_digits(x as int) =~= seq![(DIGIT_ZERO + x as int) as u8]);
        assert(dec_digits(v as int) =~= rev@.reverse());
    }
    let mut out: Vec<u8> = Vec::new();
    let m = rev.len();
    let mut k: usize = 0;
    while k < m
        invariant
            m == rev@.len(),
            0 <= k <= m,
            out@ =~= rev@.reverse().subrange(0, k as int),
        decreases m - k,
    {
        out.push(rev[m - 1 - k]);
        k += 1;
        proof {
            assert(out@ =~= rev@.reverse().subrange(0, k as int));
        }
    }
    proof {
        assert(out@ =~= rev@.reverse());
    }
    out
}

} // verus!
