//! Decimal numerals in fixed point.
//!
//! A height-map token is a plain decimal numeral: an optional sign, then
//! digits with at most one decimal point and at least one digit.  That is
//! the whole grammar — exponent forms such as `1e3`, infinities and NaN
//! are not elevations this renderer can hold and are rejected as
//! unreadable, as is a numeral whose integer part exceeds the
//! representable sample range.  The value is read into fixed-point units,
//! rounding to the nearest unit; fraction digits beyond the eighth cannot
//! move the result by a unit and are ignored.

use crate::fixed::{spec_round_div, round_div, SCALE};
use vstd::prelude::*;

verus! {

/// Largest admissible integer part of a sample numeral (500000).
pub const NUMERAL_INT_MAX: i64 = 500_000;

/// Largest magnitude a sample numeral can denote, in fixed-point units.
pub const SAMPLE_LIMIT: i64 = 5_000_010_000;

/// Blank bytes that separate tokens within a row.
pub open spec fn is_ws(b: u8) -> bool {
    b == 32u8 || b == 9u8
}

/// ASCII decimal digit.
pub open spec fn is_digit(b: u8) -> bool {
    48 <= b && b <= 57
}

/// Every byte of `s` is a decimal digit.
pub open spec fn all_digits(s: Seq<u8>) -> bool {
    forall|i: int| 0 <= i < s.len() ==> is_digit(s[i])
}

/// Value of a digit string read most-significant first.
pub open spec fn digits_val(s: Seq<u8>) -> int
    decreases s.len(),
{
    if s.len() == 0 {
        0
    } else {
        digits_val(s.drop_last()) * 10 + (s.last() - 48)
    }
}

/// `10^n`.
pub open spec fn pow10(n: nat) -> int
    decreases n,
{
    if n == 0 {
        1
    } else {
        10 * pow10((n - 1) as nat)
    }
}

/// Index of the first decimal point of `s`, or `s.len()` if there is none.
pub open spec fn find_dot(s: Seq<u8>) -> int
    decreases s.len(),
{
    if s.len() == 0 {
        0
    } else if s[0] == 46u8 {
        0
    } else {
        1 + find_dot(s.skip(1))
    }
}

/// Index of the first blank byte of `s`, or `s.len()` if there is none:
/// where the token at the head of a row ends.
pub open spec fn row_token_sep(s: Seq<u8>) -> nat
    decreases s.len(),
{
    if s.len() == 0 {
        0
    } else if is_ws(s[0]) {
        0
    } else {
        1 + row_token_sep(s.skip(1))
    }
}

/// The token at the head of a row ends within the row.
pub proof fn lemma_token_sep_le(s: Seq<u8>)
    ensures
        row_token_sep(s) <= s.len(),
    decreases s.len(),
{
    if s.len() > 0 && !is_ws(s[0]) {
        lemma_token_sep_le(s.skip(1));
    }
}

/// `row_token_sep` is pinned by its characterization: nothing blank before
/// `i`, and a blank (or the end) at `i`.
pub proof fn lemma_token_sep_char(s: Seq<u8>, i: int)
    requires
        0 <= i <= s.len(),
        forall|j: int| 0 <= j < i ==> !is_ws(s[j]),
        i == s.len() || is_ws(s[i]),
    ensures
        row_token_sep(s) == i,
    decreases s.len(),
{
    if s.len() == 0 || is_ws(s[0]) {
    } else {
        let t = s.skip(1);
        assert(forall|j: int| 0 <= j < i - 1 ==> t[j] == s[j + 1] && !is_ws(t[j]));
        lemma_token_sep_char(t, i - 1);
    }
}

/// Scan `[from, hi)` of `line` for the first blank byte.
pub fn scan_token_end(line: &[u8], from: usize, hi: usize) -> (r: usize)
    requires
        from <= hi <= line@.len(),
    ensures
        from <= r <= hi,
        forall|j: int| from <= j < r ==> !is_ws(line@[j]),
        r < hi ==> is_ws(line@[r as int]),
{
    let mut i: usize = from;
    while i < hi
        invariant
            from <= i <= hi <= line@.len(),
            forall|j: int| from <= j < i ==> !is_ws(line@[j]),
        decreases hi - i,
    {
        let b = line[i];
        if b == 32u8 || b == 9u8 {
            return i;
        }
        i = i + 1;
    }
    i
}

/// The fixed-point value a token denotes, or `None` for a token that is not
/// a representable decimal numeral.
pub open spec fn spec_token_value(s: Seq<u8>) -> Option<i64> {
    if s.len() == 0 {
        None
    } else {
        let neg = s[0] == 45u8;
        let body = if s[0] == 45u8 || s[0] == 43u8 {
            s.skip(1)
        } else {
            s
        };
        spec_body_value(body, neg)
    }
}

/// Value of a token body (sign removed).
pub open spec fn spec_body_value(body: Seq<u8>, neg: bool) -> Option<i64> {
    let p = find_dot(body);
    let ip = body.take(p);
    let fr = if p < body.len() {
        body.skip(p + 1)
    } else {
        Seq::<u8>::empty()
    };
    let fr8 = fr.take(if fr.len() <= 8 {
        fr.len() as int
    } else {
        8
    });
    if body.len() == 0 {
        None
    } else if !all_digits(ip) || !all_digits(fr) {
        None
    } else if ip.len() + fr.len() == 0 {
        None
    } else if digits_val(ip) > NUMERAL_INT_MAX {
        None
    } else {
        let mag = digits_val(ip) * SCALE + spec_round_div(
            digits_val(fr8) * SCALE,
            pow10(fr8.len() as nat),
        );
        Some(
            if neg {
                (-mag) as i64
            } else {
                mag as i64
            },
        )
    }
}

/// A digit string's value is nonnegative.
pub proof fn lemma_digits_val_nonneg(s: Seq<u8>)
    requires
        all_digits(s),
    ensures
        digits_val(s) >= 0,
    decreases s.len(),
{
    if s.len() > 0 {
        assert(all_digits(s.drop_last()));
        lemma_digits_val_nonneg(s.drop_last());
        assert(digits_val(s.drop_last()) * 10 >= 0) by (nonlinear_arith)
            requires
                digits_val(s.drop_last()) >= 0,
        ;
    }
}

/// A prefix of a digit string never denotes more than the whole string.
pub proof fn lemma_digits_val_prefix_le(s: Seq<u8>, i: int)
    requires
        all_digits(s),
        0 <= i <= s.len(),
    ensures
        digits_val(s.take(i)) <= digits_val(s),
    decreases s.len(),
{
    if i == s.len() {
        assert(s.take(i) =~= s);
    } else {
        let d = s.drop_last();
        assert(all_digits(d));
        assert(s.take(i) =~= d.take(i));
        lemma_digits_val_prefix_le(d, i);
        lemma_digits_val_nonneg(d);
        assert(digits_val(d) * 10 >= digits_val(d)) by (nonlinear_arith)
            requires
                digits_val(d) >= 0,
        ;
    }
}

/// A digit string of length `n` denotes less than `10^n`.
pub proof fn lemma_digits_val_bound(s: Seq<u8>)
    requires
        all_digits(s),
    ensures
        digits_val(s) < pow10(s.len()),
    decreases s.len(),
{
    if s.len() > 0 {
        let d = s.drop_last();
        assert(all_digits(d));
        lemma_digits_val_bound(d);
        assert(pow10(s.len()) == 10 * pow10(d.len()));
        assert(digits_val(d) * 10 + 9 < 10 * pow10(d.len())) by (nonlinear_arith)
            requires
                digits_val(d) < pow10(d.len()),
        ;
    }
}

/// Scan `[from, hi)` of `line` for the first decimal point.
fn scan_dot(line: &[u8], from: usize, hi: usize) -> (r: usize)
    requires
        from <= hi <= line@.len(),
    ensures
        from <= r <= hi,
        forall|j: int| from <= j < r ==> line@[j] != 46u8,
        r < hi ==> line@[r as int] == 46u8,
{
    let mut i: usize = from;
    while i < hi
        invariant
            from <= i <= hi <= line@.len(),
            forall|j: int| from <= j < i ==> line@[j] != 46u8,
        decreases hi - i,
    {
        if line[i] == 46u8 {
            return i;
        }
        i = i + 1;
    }
    i
}

/// `find_dot` is pinned by its characterization: no dot before `i`, and a
/// dot (or the end) at `i`.
proof fn lemma_find_dot_char(s: Seq<u8>, i: int)
    requires
        0 <= i <= s.len(),
        forall|j: int| 0 <= j < i ==> s[j] != 46u8,
        i == s.len() || s[i] == 46u8,
    ensures
        find_dot(s) == i,
    decreases s.len(),
{
    if s.len() == 0 {
    } else if s[0] == 46u8 {
    } else {
        let t = s.skip(1);
        assert(forall|j: int| 0 <= j < i - 1 ==> t[j] == s[j + 1] && t[j] != 46u8);
        lemma_find_dot_char(t, i - 1);
    }
}

/// Read the token at `line[lo..hi]`: exactly its spec value, bounded by the
/// sample range.
#[verifier::loop_isolation(false)]
#[verifier::rlimit(60)]
pub fn parse_token(line: &[u8], lo: usize, hi: usize) -> (r: Option<i64>)
    requires
        lo <= hi <= line@.len(),
    ensures
        r == spec_token_value(line@.subrange(lo as int, hi as int)),
        r is Some ==> -SAMPLE_LIMIT <= r.unwrap() <= SAMPLE_LIMIT,
{
    let ghost s = line@.subrange(lo as int, hi as int);
    if lo == hi {
        return None;
    }
    let first = line[lo];
    proof {
        assert(s[0] == line@[lo as int]);
    }
    let neg = first == 45u8;
    let blo: usize = if first == 45u8 || first == 43u8 {
        lo + 1
    } else {
        lo
    };
    let ghost body = line@.subrange(blo as int, hi as int);
    proof {
        if first == 45u8 || first == 43u8 {
            assert(body =~= s.skip(1));
        } else {
            assert(body =~= s);
        }
    }
    if blo == hi {
        return None;
    }
    // Locate the decimal point.
    let dot = scan_dot(line, blo, hi);
    let ghost p = find_dot(body);
    proof {
        lemma_find_dot_char(body, dot - blo);
        assert(p == dot - blo);
    }
    let ghost ip = body.take(p);
    let ghost fr = if p < body.len() {
        body.skip(p + 1)
    } else {
        Seq::<u8>::empty()
    };
    // Integer part: validate and accumulate, bailing out once over the cap.
    let mut ival: i64 = 0;
    let mut i: usize = blo;
    while i < dot
        invariant
            blo <= i <= dot <= hi <= line@.len(),
            ip == body.take(p),
            body == line@.subrange(blo as int, hi as int),
            p == dot - blo,
            p == find_dot(body),
            all_digits(ip.take(i - blo)),
            ival == digits_val(ip.take(i - blo)),
            0 <= ival <= NUMERAL_INT_MAX,
        decreases dot - i,
    {
        let b = line[i];
        if b < 48u8 || b > 57u8 {
            proof {
                assert(ip[i - blo] == b);
                assert(!is_digit(ip[i - blo]));
                assert(!all_digits(ip));
            }
            return None;
        }
        proof {
            assert(ip.take(i + 1 - blo).drop_last() =~= ip.take(i - blo));
            assert(ip.take(i + 1 - blo).last() == b);
        }
        ival = ival * 10 + ((b - 48u8) as i64);
        i = i + 1;
        if ival > NUMERAL_INT_MAX {
            // Whatever the rest of the token holds, its value is out of
            // range or it is no numeral at all.
            proof {
                if all_digits(ip) {
                    lemma_digits_val_prefix_le(ip, i - blo);
                }
            }
            return None;
        }
    }
    proof {
        assert(ip.take(i - blo) =~= ip);
    }
    // Fraction part: validate every digit, accumulate the first eight.
    let flo: usize = if dot < hi {
        dot + 1
    } else {
        hi
    };
    let ghost fr_c = line@.subrange(flo as int, hi as int);
    proof {
        assert(fr_c =~= fr);
    }
    let mut fval: i64 = 0;
    let mut fcount: usize = 0;
    let mut j: usize = flo;
    while j < hi
        invariant
            flo <= j <= hi <= line@.len(),
            fr == line@.subrange(flo as int, hi as int),
            all_digits(fr.take(j - flo)),
            fcount == if j - flo <= 8 {
                j - flo
            } else {
                8
            },
            fval == digits_val(fr.take(fcount as int)),
            0 <= fval < 100_000_000,
        decreases hi - j,
    {
        let b = line[j];
        if b < 48u8 || b > 57u8 {
            proof {
                assert(fr[j - flo] == b);
                assert(!is_digit(fr[j - flo]));
                assert(!all_digits(fr));
            }
            return None;
        }
        proof {
            assert(fr.take(j + 1 - flo).drop_last() =~= fr.take(j - flo));
        }
        if fcount < 8 {
            proof {
                assert(fr.take(fcount + 1).drop_last() =~= fr.take(fcount as int));
                assert(fr.take(fcount + 1).last() == b);
                lemma_digits_val_bound(fr.take(fcount as int));
                pow10_le_8(fcount as nat);
            }
            fval = fval * 10 + ((b - 48u8) as i64);
            fcount = fcount + 1;
        }
        j = j + 1;
    }
    proof {
        assert(fr.take(j - flo) =~= fr);
    }
    if i == blo && flo == hi {
        // No digit anywhere.
        return None;
    }
    // Assemble the fixed-point magnitude.
    let mut p10: i64 = 1;
    let mut k: usize = 0;
    while k < fcount
        invariant
            0 <= k <= fcount <= 8,
            p10 == pow10(k as nat),
            1 <= p10 <= 100_000_000,
        decreases fcount - k,
    {
        proof {
            pow10_le_8((k + 1) as nat);
        }
        p10 = p10 * 10;
        k = k + 1;
    }
    let ghost fr8 = fr.take(
        if fr.len() <= 8 {
            fr.len() as int
        } else {
            8
        },
    );
    proof {
        assert(fr8 =~= fr.take(fcount as int));
        lemma_digits_val_bound(fr8);
        lemma_digits_val_nonneg(fr8);
    }
    let fpart: i64 = round_div((fval as i128) * (SCALE as i128), p10 as i128) as i64;
    proof {
        lemma_frac_le_scale(fval as int, p10 as int);
    }
    let mag: i64 = ival * SCALE + fpart;
    if neg {
        Some(-mag)
    } else {
        Some(mag)
    }
}

/// `10^n` for the digit counts the fraction scan can reach.
proof fn pow10_le_8(n: nat)
    requires
        n <= 8,
    ensures
        1 <= pow10(n) <= 100_000_000,
        n <= 7 ==> pow10(n) <= 10_000_000,
{
    assert(pow10(0) == 1);
    assert(pow10(1) == 10);
    assert(pow10(2) == 100);
    assert(pow10(3) == 1000);
    assert(pow10(4) == 10000);
    assert(pow10(5) == 100000);
    assert(pow10(6) == 1000000);
    assert(pow10(7) == 10000000);
    assert(pow10(8) == 100000000);
}

/// A fraction of fewer than `b` parts rounds to at most one whole unit.
proof fn lemma_frac_le_scale(a: int, b: int)
    requires
        0 <= a < b,
        1 <= b,
    ensures
        0 <= spec_round_div(a * SCALE, b) <= SCALE,
{
    let h = b / 2;
    assert(0 <= a * SCALE) by (nonlinear_arith)
        requires
            0 <= a,
    ;
    assert(a * SCALE + h < b * SCALE + b) by (nonlinear_arith)
        requires
            0 <= a < b,
            1 <= b,
            h == b / 2,
    ;
    assert((a * SCALE + h) / b <= SCALE) by (nonlinear_arith)
        requires
            a * SCALE + h < b * SCALE + b,
            0 <= a * SCALE + h,
            1 <= b,
    ;
    assert((a * SCALE + h) / b >= 0) by (nonlinear_arith)
        requires
            0 <= a * SCALE + h,
            1 <= b,
    ;
}

} // verus!
