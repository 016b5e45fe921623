//! Parsing of numeric command-line tokens into exact rationals.
//!
//! A token is an optional sign (`+` or `-`), a significand (decimal digits
//! with at most one decimal point anywhere among them, at least one digit),
//! and an optional exponent (`e` or `E`, an optional sign, one or more
//! digits). Its value is the significand's digits with the point removed,
//! scaled by ten to the exponent minus the number of fraction digits; the
//! scaling is kept exact in the numerator or the denominator, whichever side
//! it falls on.

use vstd::prelude::*;

use crate::rat::Rational;

verus! {

/// Byte value of the decimal point `.`.
pub const POINT: u8 = 46;

/// Byte value of the minus sign `-`.
pub const MINUS: u8 = 45;

/// Byte value of the plus sign `+`.
pub const PLUS: u8 = 43;

/// Byte value of the exponent mark `e`.
pub const EXP_LOWER: u8 = 101;

/// Byte value of the exponent mark `E`.
pub const EXP_UPPER: u8 = 69;

/// Exponent magnitudes are accumulated exactly up to this bound and only
/// counted as "larger" beyond it; it exceeds any possible count of fraction
/// digits, so the sign of the net scale is still decided exactly.
const EXP_SAT: i128 = 100_000_000_000_000_000_000;

/// Is `c` an ASCII decimal digit?
pub open spec fn is_digit(c: u8) -> bool {
    48 <= c <= 57
}

/// Is `c` an exponent mark (`e` or `E`)?
pub open spec fn is_exp_mark(c: u8) -> bool {
    c == EXP_LOWER || c == EXP_UPPER
}

/// The numeric value of the digit `c`.
pub open spec fn digit_val(c: u8) -> int {
    c - 48
}

/// The value of a string of decimal digits, most significant first.
pub open spec fn digits_val(s: Seq<u8>) -> int
    decreases s.len(),
{
    if s.len() == 0 {
        0
    } else {
        digits_val(s.drop_last()) * 10 + digit_val(s.last())
    }
}

/// Every byte of `s` is a decimal digit.
pub open spec fn all_digits(s: Seq<u8>) -> bool {
    forall|k: int| 0 <= k < s.len() ==> is_digit(#[trigger] s[k])
}

/// Ten to the power `n`.
pub open spec fn pow10(n: nat) -> int
    decreases n,
{
    if n == 0 {
        1
    } else {
        10 * pow10((n - 1) as nat)
    }
}

/// `s` is digits with a single decimal point at `p` and at least one digit;
/// the point may stand first or last.
pub open spec fn point_split(s: Seq<u8>, p: int) -> bool {
    s.len() >= 2 && 0 <= p < s.len() && s[p] == POINT && all_digits(s.take(p)) && all_digits(
        s.skip(p + 1),
    )
}

/// A significand: digits, or digits with a single decimal point among them,
/// with at least one digit either way.
pub open spec fn sig_wf(s: Seq<u8>) -> bool {
    (s.len() > 0 && all_digits(s)) || (exists|p: int| point_split(s, p))
}

/// The digits of a significand with the decimal point removed.
pub open spec fn sig_mantissa(s: Seq<u8>) -> Seq<u8> {
    if exists|p: int| point_split(s, p) {
        let p = choose|p: int| point_split(s, p);
        s.take(p) + s.skip(p + 1)
    } else {
        s
    }
}

/// The number of fraction digits of a significand.
pub open spec fn sig_scale(s: Seq<u8>) -> nat {
    if exists|p: int| point_split(s, p) {
        let p = choose|p: int| point_split(s, p);
        (s.len() - p - 1) as nat
    } else {
        0
    }
}

/// The digits of an exponent part, its optional sign removed.
pub open spec fn exp_tail_digits(s: Seq<u8>) -> Seq<u8> {
    if s.len() > 0 && (s[0] == MINUS || s[0] == PLUS) {
        s.skip(1)
    } else {
        s
    }
}

/// An exponent part after the mark: an optional sign and one or more digits.
pub open spec fn exp_tail_wf(s: Seq<u8>) -> bool {
    exp_tail_digits(s).len() > 0 && all_digits(exp_tail_digits(s))
}

/// The exponent part is negative.
pub open spec fn exp_tail_neg(s: Seq<u8>) -> bool {
    s.len() > 0 && s[0] == MINUS
}

/// The magnitude of the exponent part.
pub open spec fn exp_tail_mag(s: Seq<u8>) -> int {
    digits_val(exp_tail_digits(s))
}

/// The signed value of the exponent part.
pub open spec fn exp_tail_val(s: Seq<u8>) -> int {
    if exp_tail_neg(s) {
        -exp_tail_mag(s)
    } else {
        exp_tail_mag(s)
    }
}

/// `s` is a significand, an exponent mark at `q`, and an exponent part.
pub open spec fn exp_split(s: Seq<u8>, q: int) -> bool {
    0 <= q < s.len() && is_exp_mark(s[q]) && sig_wf(s.take(q)) && exp_tail_wf(s.skip(q + 1))
}

/// An unsigned token: a significand with an optional exponent.
pub open spec fn unsigned_wf(s: Seq<u8>) -> bool {
    sig_wf(s) || (exists|q: int| exp_split(s, q))
}

/// The significand of an unsigned token.
pub open spec fn sig_of(s: Seq<u8>) -> Seq<u8> {
    if exists|q: int| exp_split(s, q) {
        let q = choose|q: int| exp_split(s, q);
        s.take(q)
    } else {
        s
    }
}

/// The exponent of an unsigned token; zero where none is written.
pub open spec fn expo_of(s: Seq<u8>) -> int {
    if exists|q: int| exp_split(s, q) {
        let q = choose|q: int| exp_split(s, q);
        exp_tail_val(s.skip(q + 1))
    } else {
        0
    }
}

/// The net scale of an unsigned token: fraction digits minus the exponent.
/// Positive net scale divides, the rest multiplies.
pub open spec fn net_scale(s: Seq<u8>) -> int {
    sig_scale(sig_of(s)) - expo_of(s)
}

/// The exact numerator of an unsigned token: its digits with the point
/// removed, times ten to the surplus of the exponent over the fraction
/// digits.
pub open spec fn unsigned_num(s: Seq<u8>) -> int {
    if net_scale(s) >= 1 {
        digits_val(sig_mantissa(sig_of(s)))
    } else {
        digits_val(sig_mantissa(sig_of(s))) * pow10((0 - net_scale(s)) as nat)
    }
}

/// The exact denominator of an unsigned token: ten to the positive net
/// scale, or one.
pub open spec fn unsigned_den(s: Seq<u8>) -> int {
    if net_scale(s) >= 1 {
        pow10(net_scale(s) as nat)
    } else {
        1
    }
}

/// Does `s` start with a sign byte?
pub open spec fn has_sign(s: Seq<u8>) -> bool {
    s.len() > 0 && (s[0] == MINUS || s[0] == PLUS)
}

/// `s` without its sign byte, if any.
pub open spec fn token_body(s: Seq<u8>) -> Seq<u8> {
    if has_sign(s) {
        s.skip(1)
    } else {
        s
    }
}

/// The sign of the token: `-1` under a minus sign, else `1`.
pub open spec fn token_sign(s: Seq<u8>) -> int {
    if s.len() > 0 && s[0] == MINUS {
        -1
    } else {
        1
    }
}

/// A well-formed token: an optional sign and a well-formed unsigned token.
pub open spec fn token_wf(s: Seq<u8>) -> bool {
    unsigned_wf(token_body(s))
}

/// The token's exact numerator.
pub open spec fn token_num(s: Seq<u8>) -> int {
    token_sign(s) * unsigned_num(token_body(s))
}

/// The token's exact denominator.
pub open spec fn token_den(s: Seq<u8>) -> int {
    unsigned_den(token_body(s))
}

/// The token's numerator and denominator both fit in `i128`.
pub open spec fn token_fits(s: Seq<u8>) -> bool {
    unsigned_num(token_body(s)) <= i128::MAX && unsigned_den(token_body(s)) <= i128::MAX
}

/// The value of a digit string is never negative.
proof fn lemma_digits_val_nonneg(s: Seq<u8>)
    requires
        all_digits(s),
    ensures
        digits_val(s) >= 0,
    decreases s.len(),
{
    if s.len() > 0 {
        assert(all_digits(s.drop_last()));
        lemma_digits_val_nonneg(s.drop_last());
    }
}

/// A prefix of a digit string is worth no more than the whole.
proof fn lemma_digits_val_take_le(s: Seq<u8>, m: int)
    requires
        all_digits(s),
        0 <= m <= s.len(),
    ensures
        digits_val(s.take(m)) <= digits_val(s),
    decreases s.len(),
{
    if m == s.len() {
        assert(s.take(m) =~= s);
    } else {
        assert(all_digits(s.drop_last()));
        assert(s.drop_last().take(m) =~= s.take(m));
        lemma_digits_val_take_le(s.drop_last(), m);
        lemma_digits_val_nonneg(s.drop_last());
    }
}

/// Ten to any power is positive.
proof fn lemma_pow10_pos(n: nat)
    ensures
        pow10(n) >= 1,
    decreases n,
{
    if n > 0 {
        lemma_pow10_pos((n - 1) as nat);
    }
}

/// `pow10` is monotonic.
proof fn lemma_pow10_mono(a: nat, b: nat)
    requires
        a <= b,
    ensures
        pow10(a) <= pow10(b),
    decreases b,
{
    if a < b {
        lemma_pow10_mono(a, (b - 1) as nat);
        lemma_pow10_pos((b - 1) as nat);
    }
}

/// Ten to the 38th fits in `i128`; ten to the 39th does not.
proof fn lemma_pow10_bounds()
    ensures
        pow10(38) <= i128::MAX,
        pow10(39) > i128::MAX,
{
    reveal_with_fuel(pow10, 41);
}

/// A nonnegative number grows when multiplied by at least one, and a number
/// at least one keeps the other factor.
proof fn lemma_mul_bounds(m: int, p: int)
    requires
        m >= 0,
        p >= 1,
    ensures
        m * p >= m,
        m * p >= 0,
        m >= 1 ==> m * p >= p,
        m == 0 ==> m * p == 0,
{
    assert(m * p >= m && m * p >= 0 && (m >= 1 ==> m * p >= p) && (m == 0 ==> m * p == 0))
        by (nonlinear_arith)
        requires
            m >= 0,
            p >= 1,
    ;
}

/// A significand has only one decimal point.
proof fn lemma_point_split_unique(s: Seq<u8>, p1: int, p2: int)
    requires
        point_split(s, p1),
        point_split(s, p2),
    ensures
        p1 == p2,
{
    if p1 < p2 {
        assert(is_digit(s.skip(p1 + 1)[p2 - p1 - 1]));
    }
    if p2 < p1 {
        assert(is_digit(s.skip(p2 + 1)[p1 - p2 - 1]));
    }
}

/// A significand is nonempty, holds only digits and at most one point, and
/// holds at least one digit.
proof fn lemma_sig_wf_facts(s: Seq<u8>)
    requires
        sig_wf(s),
    ensures
        s.len() > 0,
        forall|k: int| 0 <= k < s.len() ==> is_digit(#[trigger] s[k]) || s[k] == POINT,
        exists|k: int| 0 <= k < s.len() && is_digit(#[trigger] s[k]),
{
    if s.len() > 0 && all_digits(s) {
        assert(is_digit(s[0]));
    } else {
        let p = choose|p: int| point_split(s, p);
        assert(point_split(s, p));
        assert forall|k: int| 0 <= k < s.len() implies is_digit(#[trigger] s[k]) || s[k]
            == POINT by {
            if k < p {
                assert(is_digit(s.take(p)[k]));
            } else if k > p {
                assert(is_digit(s.skip(p + 1)[k - p - 1]));
            }
        }
        if p == 0 {
            assert(s[1] == s.skip(1)[0]);
            assert(is_digit(s[1]));
        } else {
            assert(s[0] == s.take(p)[0]);
            assert(is_digit(s[0]));
        }
    }
}

/// The digits of a significand, point removed, are nonempty digits.
proof fn lemma_sig_mantissa_digits(s: Seq<u8>)
    requires
        sig_wf(s),
    ensures
        all_digits(sig_mantissa(s)),
        sig_mantissa(s).len() > 0,
{
    if exists|p: int| point_split(s, p) {
        let p = choose|p: int| point_split(s, p);
        assert(point_split(s, p));
        let m = s.take(p) + s.skip(p + 1);
        assert forall|k: int| 0 <= k < m.len() implies is_digit(#[trigger] m[k]) by {
            if k < p {
                assert(m[k] == s.take(p)[k]);
            } else {
                assert(m[k] == s.skip(p + 1)[k - p]);
            }
        }
    }
}

/// What a scanner has read of a significand bounds the whole: the digits
/// read so far (point removed) are worth no more than the full mantissa.
/// `dq` is the position of the decimal point among the first `j` bytes, if
/// one was read.
proof fn lemma_processed_le(b: Seq<u8>, j: int, dq: Option<int>)
    requires
        sig_wf(b),
        0 <= j <= b.len(),
        dq matches Some(q) ==> 0 <= q < j && b[q] == POINT && all_digits(b.take(q)) && all_digits(
            b.subrange(q + 1, j),
        ),
        dq is None ==> all_digits(b.take(j)),
    ensures
        dq is None ==> digits_val(b.take(j)) <= digits_val(sig_mantissa(b)),
        dq matches Some(q) ==> digits_val(b.take(q) + b.subrange(q + 1, j)) <= digits_val(
            sig_mantissa(b),
        ),
{
    lemma_sig_mantissa_digits(b);
    let m = sig_mantissa(b);
    if exists|p: int| point_split(b, p) {
        let p = choose|p: int| point_split(b, p);
        assert(point_split(b, p));
        match dq {
            None => {
                assert(p >= j) by {
                    if p < j {
                        assert(is_digit(b.take(j)[p]));
                    }
                }
                assert(m.take(j) =~= b.take(j));
                lemma_digits_val_take_le(m, j);
            },
            Some(q) => {
                assert(q == p) by {
                    if q < p {
                        assert(is_digit(b.take(p)[q]));
                    }
                    if q > p {
                        assert(is_digit(b.skip(p + 1)[q - p - 1]));
                    }
                }
                assert(m.take(j - 1) =~= b.take(q) + b.subrange(q + 1, j));
                lemma_digits_val_take_le(m, j - 1);
            },
        }
    } else {
        match dq {
            None => {
                lemma_digits_val_take_le(b, j);
            },
            Some(q) => {
                assert(is_digit(b[q]));
            },
        }
    }
}

/// Scan the bytes of `t` from `start` to `end` as a significand. Returns the
/// mantissa (the digits with the point removed) and the number of fraction
/// digits; `None` exactly when those bytes are not a significand or the
/// mantissa does not fit in `i128`.
fn scan_sig(t: &[u8], start: usize, end: usize) -> (r: Option<(i128, usize)>)
    requires
        start <= end <= t@.len(),
    ensures
        r is Some <==> sig_wf(t@.subrange(start as int, end as int)) && digits_val(
            sig_mantissa(t@.subrange(start as int, end as int)),
        ) <= i128::MAX,
        r matches Some(mf) ==> 0 <= mf.0 && mf.0 as int == digits_val(
            sig_mantissa(t@.subrange(start as int, end as int)),
        ) && mf.1 as int == sig_scale(t@.subrange(start as int, end as int)) && mf.1 <= end - start,
{
    let ghost s = t@.subrange(start as int, end as int);
    let mut i: usize = start;
    let mut acc: i128 = 0;
    let mut seen_dot = false;
    let mut dot_idx: usize = 0;
    while i < end
        invariant
            start <= i <= end,
            end <= t@.len(),
            s == t@.subrange(start as int, end as int),
            0 <= acc,
            !seen_dot ==> all_digits(t@.subrange(start as int, i as int)) && acc as int
                == digits_val(t@.subrange(start as int, i as int)),
            seen_dot ==> start <= dot_idx < i && t@[dot_idx as int] == POINT && all_digits(
                t@.subrange(start as int, dot_idx as int),
            ) && all_digits(t@.subrange(dot_idx as int + 1, i as int)) && acc as int == digits_val(
                t@.subrange(start as int, dot_idx as int) + t@.subrange(
                    dot_idx as int + 1,
                    i as int,
                ),
            ),
        decreases end - i,
    {
        let c = t[i];
        proof {
            assert(s[i - start] == c);
        }
        if 48 <= c && c <= 57 {
            let d: i128 = (c - 48) as i128;
            let ghost processed = if seen_dot {
                t@.subrange(start as int, dot_idx as int) + t@.subrange(
                    dot_idx as int + 1,
                    i as int,
                )
            } else {
                t@.subrange(start as int, i as int)
            };
            let ghost processed1 = processed.push(c);
            proof {
                assert(processed1.drop_last() =~= processed);
                assert(digits_val(processed1) == acc * 10 + d);
                if seen_dot {
                    assert(processed1 =~= t@.subrange(start as int, dot_idx as int) + t@.subrange(
                        dot_idx as int + 1,
                        i as int + 1,
                    ));
                } else {
                    assert(processed1 =~= t@.subrange(start as int, i as int + 1));
                }
            }
            let acc10 = match acc.checked_mul(10) {
                Some(a) => a,
                None => {
                    proof {
                        if sig_wf(s) {
                            let dq: Option<int> = if seen_dot {
                                Some(dot_idx - start as int)
                            } else {
                                None
                            };
                            assert(s.take(i + 1 - start) =~= t@.subrange(
                                start as int,
                                i as int + 1,
                            ));
                            if seen_dot {
                                assert(s.take(dot_idx - start) =~= t@.subrange(
                                    start as int,
                                    dot_idx as int,
                                ));
                                assert(s.subrange(dot_idx - start + 1, i + 1 - start) =~= t@
                                    .subrange(dot_idx as int + 1, i as int + 1));
                                assert(s.take(dot_idx - start) + s.subrange(
                                    dot_idx - start + 1,
                                    i + 1 - start,
                                ) =~= processed1);
                            }
                            lemma_processed_le(s, i + 1 - start, dq);
                            assert(digit_val(c) >= 0);
                            assert(digits_val(processed1) > i128::MAX);
                        }
                    }
                    return None;
                },
            };
            acc = match acc10.checked_add(d) {
                Some(a) => a,
                None => {
                    proof {
                        if sig_wf(s) {
                            let dq: Option<int> = if seen_dot {
                                Some(dot_idx - start as int)
                            } else {
                                None
                            };
                            assert(s.take(i + 1 - start) =~= t@.subrange(
                                start as int,
                                i as int + 1,
                            ));
                            if seen_dot {
                                assert(s.take(dot_idx - start) =~= t@.subrange(
                                    start as int,
                                    dot_idx as int,
                                ));
                                assert(s.subrange(dot_idx - start + 1, i + 1 - start) =~= t@
                                    .subrange(dot_idx as int + 1, i as int + 1));
                                assert(s.take(dot_idx - start) + s.subrange(
                                    dot_idx - start + 1,
                                    i + 1 - start,
                                ) =~= processed1);
                            }
                            lemma_processed_le(s, i + 1 - start, dq);
                            assert(digits_val(processed1) > i128::MAX);
                        }
                    }
                    return None;
                },
            };
        } else if c == POINT && !seen_dot {
            seen_dot = true;
            dot_idx = i;
            proof {
                assert(t@.subrange(dot_idx as int + 1, i as int + 1) =~= Seq::<u8>::empty());
                assert(t@.subrange(start as int, dot_idx as int) + t@.subrange(
                    dot_idx as int + 1,
                    i as int + 1,
                ) =~= t@.subrange(start as int, i as int));
            }
        } else {
            proof {
                if sig_wf(s) {
                    lemma_sig_wf_facts(s);
                    assert(is_digit(s[i - start]) || s[i - start] == POINT);
                    if c == POINT && seen_dot {
                        if s.len() > 0 && all_digits(s) {
                            assert(is_digit(s[i - start]));
                        } else {
                            let p = choose|p: int| point_split(s, p);
                            assert(point_split(s, p));
                            assert(s[dot_idx - start] == POINT);
                            if dot_idx - start < p {
                                assert(is_digit(s.take(p)[dot_idx - start]));
                            }
                            if dot_idx - start > p {
                                assert(is_digit(s.skip(p + 1)[dot_idx - start - p - 1]));
                            }
                            if (i - start) < p {
                                assert(is_digit(s.take(p)[i - start]));
                            }
                            if (i - start) > p {
                                assert(is_digit(s.skip(p + 1)[i - start - p - 1]));
                            }
                        }
                    }
                }
            }
            return None;
        }
        i = i + 1;
    }
    // The whole range has been read.
    proof {
        if seen_dot {
            assert(s.take(dot_idx - start) =~= t@.subrange(start as int, dot_idx as int));
            assert(s.skip(dot_idx - start + 1) =~= t@.subrange(dot_idx as int + 1, end as int));
        } else {
            assert(s =~= t@.subrange(start as int, end as int));
        }
    }
    if seen_dot {
        if end - start < 2 {
            // A lone point: no digit.
            proof {
                if sig_wf(s) {
                    lemma_sig_wf_facts(s);
                    assert(s.len() == 1 && s[0] == POINT);
                }
            }
            return None;
        }
        proof {
            let p = dot_idx - start as int;
            assert(point_split(s, p));
            assert(sig_wf(s));
            let pc = choose|q: int| point_split(s, q);
            assert(point_split(s, pc));
            lemma_point_split_unique(s, p, pc);
            assert(sig_mantissa(s) == s.take(p) + s.skip(p + 1));
            assert(s.take(p) + s.skip(p + 1) =~= t@.subrange(start as int, dot_idx as int)
                + t@.subrange(dot_idx as int + 1, end as int));
            assert(sig_scale(s) == (end - dot_idx - 1) as nat);
        }
        Some((acc, end - dot_idx - 1))
    } else {
        if i == start {
            // Empty: no digit.
            proof {
                if sig_wf(s) {
                    lemma_sig_wf_facts(s);
                }
            }
            return None;
        }
        proof {
            assert(s.len() > 0 && all_digits(s));
            assert(!(exists|p: int| point_split(s, p))) by {
                if exists|p: int| point_split(s, p) {
                    let p = choose|p: int| point_split(s, p);
                    assert(point_split(s, p));
                    assert(is_digit(s[p]));
                }
            }
            assert(sig_mantissa(s) == s);
            assert(sig_scale(s) == 0);
        }
        Some((acc, 0))
    }
}

/// Scan the bytes of `t` from `start` on as an exponent part. Returns the
/// sign and the magnitude, the latter exact up to `EXP_SAT` and only known
/// to exceed `EXP_SAT` beyond it; `None` exactly when the bytes are not an
/// exponent part.
fn scan_exp_tail(t: &[u8], start: usize) -> (r: Option<(bool, i128)>)
    requires
        start <= t@.len(),
    ensures
        r is Some <==> exp_tail_wf(t@.skip(start as int)),
        r matches Some(ne) ==> ne.0 == exp_tail_neg(t@.skip(start as int)) && 0 <= ne.1 <= EXP_SAT
            * 10 + 9 && (exp_tail_mag(t@.skip(start as int)) <= EXP_SAT ==> ne.1 as int
            == exp_tail_mag(t@.skip(start as int))) && (exp_tail_mag(t@.skip(start as int))
            > EXP_SAT ==> ne.1 > EXP_SAT),
{
    let ghost s = t@.skip(start as int);
    let n = t.len();
    if start >= n {
        return None;
    }
    let mut j = start;
    let mut neg = false;
    let c0 = t[j];
    proof {
        assert(s[0] == c0);
    }
    if c0 == MINUS {
        neg = true;
        j = j + 1;
    } else if c0 == PLUS {
        j = j + 1;
    }
    let dstart = j;
    if dstart >= n {
        // A sign alone: no digit.
        proof {
            assert(exp_tail_digits(s) =~= Seq::<u8>::empty());
        }
        return None;
    }
    proof {
        assert(exp_tail_digits(s) =~= t@.subrange(dstart as int, n as int));
    }
    let mut eval: i128 = 0;
    while j < n
        invariant
            dstart <= j <= n,
            n == t@.len(),
            s == t@.skip(start as int),
            dstart >= start,
            dstart - start <= 1,
            exp_tail_digits(s) =~= t@.subrange(dstart as int, n as int),
            all_digits(t@.subrange(dstart as int, j as int)),
            0 <= eval <= EXP_SAT * 10 + 9,
            digits_val(t@.subrange(dstart as int, j as int)) <= EXP_SAT ==> eval as int
                == digits_val(t@.subrange(dstart as int, j as int)),
            digits_val(t@.subrange(dstart as int, j as int)) > EXP_SAT ==> eval > EXP_SAT,
        decreases n - j,
    {
        let c = t[j];
        if 48 <= c && c <= 57 {
            let d: i128 = (c - 48) as i128;
            let ghost dv = digits_val(t@.subrange(dstart as int, j as int));
            proof {
                lemma_digits_val_nonneg(t@.subrange(dstart as int, j as int));
                assert(t@.subrange(dstart as int, j as int + 1).drop_last() =~= t@.subrange(
                    dstart as int,
                    j as int,
                ));
                assert(digits_val(t@.subrange(dstart as int, j as int + 1)) == dv * 10 + d);
            }
            if eval <= EXP_SAT {
                eval = eval * 10 + d;
            }
        } else {
            // Not a digit where the exponent's digits must stand.
            proof {
                if exp_tail_wf(s) {
                    assert(exp_tail_digits(s)[j - dstart] == c);
                    assert(is_digit(c));
                }
            }
            return None;
        }
        j = j + 1;
    }
    proof {
        assert(t@.subrange(dstart as int, n as int).len() > 0);
        assert(exp_tail_wf(s));
        assert(exp_tail_neg(s) == (c0 == MINUS));
    }
    Some((neg, eval))
}

/// Ten to the power `k`, executable.
fn ten_pow(k: i128) -> (r: i128)
    requires
        0 <= k <= 38,
    ensures
        r as int == pow10(k as nat),
        1 <= r,
{
    let mut j: i128 = 0;
    let mut d: i128 = 1;
    while j < k
        invariant
            0 <= j <= k <= 38,
            d as int == pow10(j as nat),
            1 <= d,
        decreases k - j,
    {
        proof {
            lemma_pow10_bounds();
            lemma_pow10_mono((j + 1) as nat, 38);
            assert(pow10((j + 1) as nat) == 10 * pow10(j as nat));
        }
        d = d * 10;
        j = j + 1;
    }
    d
}

/// Parse the unsigned part of a token, the bytes of `t` from `start` on.
/// Returns the exact numerator and denominator; `None` exactly when those
/// bytes are not a well-formed unsigned token or a part does not fit in
/// `i128`.
fn parse_unsigned(t: &[u8], start: usize) -> (r: Option<(i128, i128)>)
    requires
        start <= t@.len(),
    ensures
        r is Some <==> unsigned_wf(t@.skip(start as int)) && unsigned_num(t@.skip(start as int))
            <= i128::MAX && unsigned_den(t@.skip(start as int)) <= i128::MAX,
        r matches Some(nd) ==> 0 <= nd.0 && 1 <= nd.1 && nd.0 as int == unsigned_num(
            t@.skip(start as int),
        ) && nd.1 as int == unsigned_den(t@.skip(start as int)),
{
    let ghost b = t@.skip(start as int);
    let n = t.len();
    // Find the first exponent mark, if any.
    let mut epos = start;
    while epos < n && t[epos] != EXP_LOWER && t[epos] != EXP_UPPER
        invariant
            start <= epos <= n,
            n == t@.len(),
            forall|k: int| start <= k < epos ==> !is_exp_mark(#[trigger] t@[k]),
        decreases n - epos,
    {
        epos = epos + 1;
    }
    proof {
        assert(b =~= t@.subrange(start as int, n as int));
        if epos < n {
            assert(is_exp_mark(t@[epos as int]));
            assert(b.take(epos - start) =~= t@.subrange(start as int, epos as int));
        }
    }
    // The significand runs up to the mark (or the end).
    let sig = match scan_sig(t, start, epos) {
        Some(mf) => mf,
        None => {
            proof {
                lemma_unsigned_structure(t@, start as int, epos as int);
                if unsigned_wf(b) {
                    // The significand is well formed, so its mantissa must
                    // have overflowed; the numerator is at least as large.
                    lemma_sig_mantissa_digits(sig_of(b));
                    lemma_digits_val_nonneg(sig_mantissa(sig_of(b)));
                    lemma_num_at_least_mantissa(b);
                }
            }
            return None;
        },
    };
    let m = sig.0;
    let frac = sig.1;
    let mut neg_exp = false;
    let mut eval: i128 = 0;
    if epos < n {
        match scan_exp_tail(t, epos + 1) {
            Some(ne) => {
                neg_exp = ne.0;
                eval = ne.1;
            },
            None => {
                proof {
                    lemma_unsigned_structure(t@, start as int, epos as int);
                }
                return None;
            },
        }
    }
    proof {
        lemma_unsigned_structure(t@, start as int, epos as int);
        assert(unsigned_wf(b));
        if epos < n {
            assert(b.skip(epos - start + 1) =~= t@.skip(epos as int + 1));
        }
        lemma_sig_mantissa_digits(sig_of(b));
        lemma_digits_val_nonneg(sig_mantissa(sig_of(b)));
    }
    let ghost mag = if epos < n {
        exp_tail_mag(t@.skip(epos as int + 1))
    } else {
        0
    };
    proof {
        if epos < n {
            lemma_digits_val_nonneg(exp_tail_digits(t@.skip(epos as int + 1)));
        }
        assert(expo_of(b) == if neg_exp {
            -mag
        } else {
            mag
        });
        assert(usize::MAX < EXP_SAT);
    }
    if eval > EXP_SAT {
        // The exponent magnitude exceeds any possible digit count.
        proof {
            assert(mag > EXP_SAT);
        }
        if neg_exp {
            // Net scale far beyond 38: the denominator cannot fit.
            proof {
                assert(net_scale(b) > 38);
                lemma_pow10_bounds();
                lemma_pow10_mono(39, net_scale(b) as nat);
            }
            None
        } else {
            if m == 0 {
                // Zero stays zero under any exponent.
                proof {
                    assert(net_scale(b) < 0);
                    lemma_pow10_pos((0 - net_scale(b)) as nat);
                    lemma_mul_bounds(0, pow10((0 - net_scale(b)) as nat));
                }
                Some((0, 1))
            } else {
                // The numerator gains at least 39 zeros: it cannot fit.
                proof {
                    assert(net_scale(b) < -38);
                    lemma_pow10_bounds();
                    lemma_pow10_mono(39, (0 - net_scale(b)) as nat);
                    lemma_mul_bounds(m as int, pow10((0 - net_scale(b)) as nat));
                }
                None
            }
        }
    } else {
        // The exponent is exact.
        proof {
            assert(mag <= EXP_SAT && eval as int == mag);
        }
        let es: i128 = if neg_exp {
            -eval
        } else {
            eval
        };
        let fi: i128 = frac as i128;
        let k: i128 = fi - es;
        proof {
            assert(k as int == net_scale(b));
        }
        if k > 38 {
            // The denominator cannot fit.
            proof {
                lemma_pow10_bounds();
                lemma_pow10_mono(39, k as nat);
            }
            None
        } else if k >= 1 {
            let den = ten_pow(k);
            proof {
                lemma_pow10_bounds();
                lemma_pow10_mono(k as nat, 38);
            }
            Some((m, den))
        } else {
            // Nonpositive net scale multiplies the numerator.
            if m == 0 {
                proof {
                    lemma_pow10_pos((0 - k) as nat);
                    lemma_mul_bounds(0, pow10((0 - k) as nat));
                }
                Some((0, 1))
            } else if 0 - k > 38 {
                proof {
                    lemma_pow10_bounds();
                    lemma_pow10_mono(39, (0 - k) as nat);
                    lemma_mul_bounds(m as int, pow10((0 - k) as nat));
                }
                None
            } else {
                let mul = ten_pow(0 - k);
                match m.checked_mul(mul) {
                    Some(nm) => Some((nm, 1)),
                    None => {
                        proof {
                            lemma_mul_bounds(m as int, mul as int);
                        }
                        None
                    },
                }
            }
        }
    }
}

/// The unsigned token from `start` to the first exponent mark at `epos` (or
/// the end, `epos == t.len()`) decomposes as the scanners see it: it is well
/// formed exactly when the significand before the mark and the exponent part
/// after it are, and then its significand, exponent, and value components
/// are theirs.
proof fn lemma_unsigned_structure(t: Seq<u8>, start: int, epos: int)
    requires
        0 <= start <= epos <= t.len(),
        forall|k: int| start <= k < epos ==> !is_exp_mark(#[trigger] t[k]),
        epos < t.len() ==> is_exp_mark(t[epos]),
    ensures
        epos == t.len() ==> (unsigned_wf(t.skip(start)) <==> sig_wf(t.subrange(start, epos))),
        epos == t.len() && unsigned_wf(t.skip(start)) ==> sig_of(t.skip(start)) == t.subrange(
            start,
            epos,
        ) && expo_of(t.skip(start)) == 0,
        epos < t.len() ==> (unsigned_wf(t.skip(start)) <==> sig_wf(t.subrange(start, epos))
            && exp_tail_wf(t.skip(epos + 1))),
        epos < t.len() && unsigned_wf(t.skip(start)) ==> sig_of(t.skip(start)) =~= t.subrange(
            start,
            epos,
        ) && expo_of(t.skip(start)) == exp_tail_val(t.skip(epos + 1)),
{
    let b = t.skip(start);
    let sp = t.subrange(start, epos);
    assert(b =~= t.subrange(start, t.len() as int));
    if epos == t.len() {
        assert(sp =~= b);
        // No mark anywhere, so no exponent split is possible.
        assert(!(exists|q: int| exp_split(b, q))) by {
            if exists|q: int| exp_split(b, q) {
                let q = choose|q: int| exp_split(b, q);
                assert(exp_split(b, q));
                assert(!is_exp_mark(t[start + q]));
            }
        }
    } else {
        let qq = epos - start;
        assert(b[qq] == t[epos]);
        assert(b.take(qq) =~= sp);
        assert(b.skip(qq + 1) =~= t.skip(epos + 1));
        // The mark cannot stand inside a significand.
        assert(!sig_wf(b)) by {
            if sig_wf(b) {
                lemma_sig_wf_facts(b);
                assert(is_digit(b[qq]) || b[qq] == POINT);
            }
        }
        // Any exponent split must sit at the first mark.
        assert forall|q: int| #[trigger] exp_split(b, q) implies q == qq by {
            if q < qq {
                assert(!is_exp_mark(t[start + q]));
            }
            if q > qq {
                lemma_sig_wf_facts(b.take(q));
                assert(b.take(q)[qq] == b[qq]);
                assert(is_digit(b[qq]) || b[qq] == POINT);
            }
        }
        if sig_wf(sp) && exp_tail_wf(t.skip(epos + 1)) {
            assert(exp_split(b, qq));
        }
        if unsigned_wf(b) {
            let q = choose|q: int| exp_split(b, q);
            assert(exp_split(b, q));
            assert(q == qq);
        }
    }
}

/// The numerator of a well-formed unsigned token is at least its mantissa.
proof fn lemma_num_at_least_mantissa(b: Seq<u8>)
    requires
        unsigned_wf(b),
    ensures
        unsigned_num(b) >= digits_val(sig_mantissa(sig_of(b))),
        unsigned_num(b) >= 0,
{
    lemma_sig_mantissa_digits(sig_of(b));
    lemma_digits_val_nonneg(sig_mantissa(sig_of(b)));
    if net_scale(b) >= 1 {
    } else {
        lemma_pow10_pos((0 - net_scale(b)) as nat);
        lemma_mul_bounds(digits_val(sig_mantissa(sig_of(b))), pow10((0 - net_scale(b)) as nat));
    }
}

/// Parse a numeric token into an exact rational. `None` exactly when the
/// token is not well formed or its numerator or denominator does not fit in
/// `i128`.
pub fn parse_number(t: &[u8]) -> (r: Option<Rational>)
    ensures
        r is Some <==> token_wf(t@) && token_fits(t@),
        r matches Some(q) ==> q.wf() && q@ == (token_num(t@), token_den(t@)),
{
    let n = t.len();
    let mut start: usize = 0;
    let mut neg = false;
    if n > 0 {
        let c0 = t[0];
        if c0 == MINUS {
            neg = true;
            start = 1;
        } else if c0 == PLUS {
            start = 1;
        }
    }
    proof {
        assert(token_body(t@) =~= t@.skip(start as int));
    }
    match parse_unsigned(t, start) {
        Some(nd) => {
            let num: i128 = if neg {
                -nd.0
            } else {
                nd.0
            };
            Some(Rational::new(num, nd.1))
        },
        None => None,
    }
}

} // verus!
