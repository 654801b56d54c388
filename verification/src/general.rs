//! Numbers with an exponent (`-g`) and sizes with a suffix (`-h`), compared as
//! double precision values.

use crate::bignum::Natural;
use crate::binary64::{
    distance, grid, grid_is_increasing, is_nearest, lemma_beyond, lemma_between, lemma_grid_at,
    nearest, nearest_is_unique, round_quotient, FRACTIONS, INFINITE,
};
use crate::decimal::{
    all_digits, decimal, digit_value, lemma_decimal_bound, lemma_decimal_concat,
    lemma_decimal_first, lemma_leading_zeros, lemma_pow10_add, lemma_pow10_monotone, pow10,
    zero_digit,
};
use crate::numeric::strip_leading_zeros;
use crate::order::{int_order, is_total_order, lemma_rank_order_is_total};
use crate::text::{
    blank, digit, digits_end, lead, lemma_lead, lemma_lead_is, past, skip_blanks, DOT, MINUS, PLUS,
    ZERO,
};
use std::cmp::Ordering;
use vstd::arithmetic::power2::{
    lemma2_to64,
    lemma2_to64_rest,
    lemma_pow2_adds,
    lemma_pow2_pos,
    pow2,
};
use vstd::prelude::*;

verus! {

pub const LOWER_E: u8 = 0x65;

pub const UPPER_E: u8 = 0x45;

/// Beyond this no length of text can make up for an exponent.
const HUGE: i128 = 0x1000_0000_0000_0000_0000_0000;

/// The number at the start of `s`, behind blanks and with or without a sign: whether
/// it is negative, its digits before the point and its digits behind the point.
pub open spec fn signed_number(s: Seq<u8>) -> (bool, Seq<u8>, Seq<u8>) {
    let t = past(s, blank());
    let signed = t.len() > 0 && (t[0] == PLUS || t[0] == MINUS);
    let u = if signed {
        t.skip(1)
    } else {
        t
    };
    let whole = u.take(lead(u, digit()));
    let v = past(u, digit());
    let frac = if v.len() > 0 && v[0] == DOT {
        v.skip(1).take(lead(v.skip(1), digit()))
    } else {
        Seq::empty()
    };
    (signed && t[0] == MINUS, whole, frac)
}

proof fn lemma_signed_digits(s: Seq<u8>)
    ensures
        all_digits(signed_number(s).1),
        all_digits(signed_number(s).2),
{
    let t = past(s, blank());
    let signed = t.len() > 0 && (t[0] == PLUS || t[0] == MINUS);
    let u = if signed {
        t.skip(1)
    } else {
        t
    };
    lemma_lead(u, digit());
    let v = past(u, digit());
    lemma_lead(v.skip(1), digit());
}

/// What stands behind the number at the start of `s`.
pub open spec fn behind_number(s: Seq<u8>) -> Seq<u8> {
    let t = past(s, blank());
    let signed = t.len() > 0 && (t[0] == PLUS || t[0] == MINUS);
    let u = if signed {
        t.skip(1)
    } else {
        t
    };
    let v = past(u, digit());
    if v.len() > 0 && v[0] == DOT {
        past(v.skip(1), digit())
    } else {
        v
    }
}

/// The exponent at the start of `s`: `e` or `E`, perhaps a sign, and digits; 0
/// where any of these is missing.
pub open spec fn exponent(s: Seq<u8>) -> int {
    if s.len() > 0 && (s[0] == LOWER_E || s[0] == UPPER_E) {
        let t = s.skip(1);
        let signed = t.len() > 0 && (t[0] == PLUS || t[0] == MINUS);
        let u = if signed {
            t.skip(1)
        } else {
            t
        };
        let power = decimal(u.take(lead(u, digit()))) as int;
        if signed && t[0] == MINUS {
            -power
        } else {
            power
        }
    } else {
        0
    }
}

/// The double precision value nearest to `m * 10^e`.
pub open spec fn nearest_scaled(m: nat, e: int) -> nat {
    if e >= 0 {
        nearest(m * pow10(e as nat), 1)
    } else {
        nearest(m, pow10((-e) as nat))
    }
}

/// The number at the start of `s` with its exponent, as the double precision
/// value nearest to it: the value's number, negated for a negative value. `None`
/// where `s` starts with no number.
pub open spec fn general_value(s: Seq<u8>) -> Option<int> {
    let (neg, whole, frac) = signed_number(s);
    if whole.len() + frac.len() == 0 {
        None
    } else {
        let b = nearest_scaled(
            decimal(whole + frac),
            exponent(behind_number(s)) - frac.len(),
        ) as int;
        Some(
            if neg {
                -b
            } else {
                b
            },
        )
    }
}

/// A digit or a decimal point.
pub open spec fn digit_or_point() -> spec_fn(u8) -> bool {
    |b: u8| (digit())(b) || b == DOT
}

/// The power of 1024 that a size suffix stands for.
pub open spec fn suffix_power(c: u8) -> nat {
    if c == 0x4b || c == 0x6b {
        1  // K k
    } else if c == 0x4d {
        2  // M
    } else if c == 0x47 {
        3  // G
    } else if c == 0x54 {
        4  // T
    } else if c == 0x50 {
        5  // P
    } else if c == 0x45 {
        6  // E
    } else if c == 0x5a {
        7  // Z
    } else if c == 0x59 {
        8  // Y
    } else {
        0
    }
}

/// The power of 1024 of the suffix behind the digits and points at the start of
/// `s`; 0 where there is none.
pub open spec fn human_power(s: Seq<u8>) -> nat {
    let t = past(s, blank());
    let signed = t.len() > 0 && (t[0] == PLUS || t[0] == MINUS);
    let u = if signed {
        t.skip(1)
    } else {
        t
    };
    let v = past(u, digit_or_point());
    if v.len() > 0 {
        suffix_power(v[0])
    } else {
        0
    }
}

/// Double precision value `b` times `2^n`.
pub open spec fn nearest_multiple(b: nat, n: nat) -> nat {
    if b == INFINITE {
        b
    } else {
        nearest(grid(b) * pow2(n), pow2(1074))
    }
}

/// The size at the start of `s`, its suffix taken into account; 0 where there is
/// no number.
pub open spec fn human_value(s: Seq<u8>) -> int {
    match general_value(s) {
        Some(v) => if v < 0 {
            -(nearest_multiple((-v) as nat, 10 * human_power(s)) as int)
        } else {
            nearest_multiple(v as nat, 10 * human_power(s)) as int
        },
        None => 0,
    }
}

/// The `-g` order: lines without a number come first.
pub open spec fn general_order(a: Seq<u8>, b: Seq<u8>) -> Ordering {
    match (general_value(a), general_value(b)) {
        (Some(x), Some(y)) => int_order(x, y),
        (Some(_), None) => Ordering::Greater,
        (None, Some(_)) => Ordering::Less,
        (None, None) => Ordering::Equal,
    }
}

/// The `-h` order.
pub open spec fn human_order(a: Seq<u8>, b: Seq<u8>) -> Ordering {
    int_order(human_value(a), human_value(b))
}

/// The parts of a number: whether it is negative, its digits before and behind
/// the point, and the text behind it.
fn split_general(s: &[u8]) -> (r: (bool, &[u8], &[u8], &[u8]))
    ensures
        r.0 == signed_number(s@).0,
        r.1@ == signed_number(s@).1,
        r.2@ == signed_number(s@).2,
        r.3@ == behind_number(s@),
{
    let t = skip_blanks(s);
    let mut i: usize = 0;
    let mut neg: bool = false;
    if t.len() > 0 && (t[0] == PLUS || t[0] == MINUS) {
        neg = t[0] == MINUS;
        i = 1;
    }
    let whole_end: usize = digits_end(t, i);
    let whole = &t[i..whole_end];
    let ghost u = t@.skip(i as int);
    proof {
        lemma_lead(u, digit());
        assert(t@.skip(0) =~= t@);
        assert(whole@ =~= u.take(lead(u, digit())));
        assert(t@.skip(whole_end as int) =~= past(u, digit()));
    }
    let ghost v = t@.skip(whole_end as int);
    if whole_end < t.len() && t[whole_end] == DOT {
        let frac_start: usize = whole_end + 1;
        let frac_end: usize = digits_end(t, frac_start);
        let frac = &t[frac_start..frac_end];
        let rest = &t[frac_end..t.len()];
        proof {
            assert(v.skip(1) =~= t@.skip(frac_start as int));
            lemma_lead(v.skip(1), digit());
            assert(frac@ =~= v.skip(1).take(lead(v.skip(1), digit())));
            assert(rest@ =~= past(v.skip(1), digit()));
        }
        (neg, whole, frac, rest)
    } else {
        let frac = &t[0..0];
        let rest = &t[whole_end..t.len()];
        proof {
            assert(frac@ =~= Seq::<u8>::empty());
            assert(rest@ =~= v);
        }
        (neg, whole, frac, rest)
    }
}

/// The number that digits stand for, or `HUGE` where it is larger.
fn small_decimal(d: &[u8]) -> (r: i128)
    requires
        all_digits(d@),
    ensures
        0 <= r <= HUGE,
        r == decimal(d@) || r == HUGE && decimal(d@) >= HUGE,
{
    let mut v: i128 = 0;
    let mut i: usize = 0;
    assert(d@.take(0) =~= Seq::<u8>::empty());
    while i < d.len()
        invariant
            all_digits(d@),
            i <= d@.len(),
            0 <= v <= HUGE,
            v == decimal(d@.take(i as int)) || v == HUGE && decimal(d@.take(i as int)) >= HUGE,
        decreases d@.len() - i,
    {
        assert(d@.take(i + 1).drop_last() =~= d@.take(i as int));
        assert((digit())(d@[i as int]));
        let next: i128 = v * 10 + (d[i] - ZERO) as i128;
        v = if next < HUGE {
            next
        } else {
            HUGE
        };
        i += 1;
    }
    assert(d@.take(i as int) =~= d@);
    v
}

/// The exponent at the start of `s`, kept within `HUGE` on both sides.
fn small_exponent(s: &[u8]) -> (r: i128)
    ensures
        -HUGE <= r <= HUGE,
        r == exponent(s@) || r == HUGE && exponent(s@) >= HUGE || r == -HUGE && exponent(s@)
            <= -HUGE,
{
    if s.len() == 0 || !(s[0] == LOWER_E || s[0] == UPPER_E) {
        return 0;
    }
    let mut i: usize = 1;
    let mut neg: bool = false;
    if s.len() > 1 && (s[1] == PLUS || s[1] == MINUS) {
        neg = s[1] == MINUS;
        i = 2;
    }
    let end: usize = digits_end(s, i);
    let d = &s[i..end];
    proof {
        let t = s@.skip(1);
        let signed = t.len() > 0 && (t[0] == PLUS || t[0] == MINUS);
        let u = if signed {
            t.skip(1)
        } else {
            t
        };
        assert(s@.skip(i as int) =~= u);
        lemma_lead(u, digit());
        assert(d@ =~= u.take(lead(u, digit())));
    }
    let v: i128 = small_decimal(d);
    if neg {
        -v
    } else {
        v
    }
}

/// `n * 10^k + d`, `d` being the number that the `k` digits stand for.
fn with_digits(n: Natural, digits: &[u8]) -> (r: Natural)
    requires
        all_digits(digits@),
    ensures
        r@ == n@ * pow10(digits@.len()) + decimal(digits@),
{
    let mut v = n;
    let mut i: usize = 0;
    proof {
        assert(digits@.take(0) =~= Seq::<u8>::empty());
        let x = n@;
        assert(x * 1 == x) by (nonlinear_arith);
    }
    while i < digits.len()
        invariant
            all_digits(digits@),
            i <= digits@.len(),
            v@ == n@ * pow10(i as nat) + decimal(digits@.take(i as int)),
        decreases digits@.len() - i,
    {
        proof {
            assert(digits@.take(i + 1).drop_last() =~= digits@.take(i as int));
            assert((digit())(digits@[i as int]));
            let (x, p) = (n@, pow10(i as nat));
            assert(x * (10 * p) == (x * p) * 10) by (nonlinear_arith);
        }
        v = v.times_plus(10, (digits[i] - ZERO) as u32);
        i += 1;
    }
    assert(digits@.take(i as int) =~= digits@);
    v
}

/// `n * 10^k`.
fn times_power_of_ten(n: Natural, k: u128) -> (r: Natural)
    ensures
        r@ == n@ * pow10(k as nat),
{
    let mut v = n;
    let mut i: u128 = 0;
    proof {
        let x = n@;
        assert(x * 1 == x) by (nonlinear_arith);
    }
    while i < k
        invariant
            i <= k,
            v@ == n@ * pow10(i as nat),
        decreases k - i,
    {
        proof {
            let (x, p) = (n@, pow10(i as nat));
            assert(x * (10 * p) == (x * p) * 10) by (nonlinear_arith);
        }
        v = v.times_plus(10, 0);
        i += 1;
    }
    v
}

/// Powers of two against powers of ten: 2^13 is below 10^4.
proof fn lemma_powers(k: nat)
    ensures
        pow2(13 * k) <= pow10(4 * k),
    decreases k,
{
    lemma2_to64();
    if k > 0 {
        let j = (k - 1) as nat;
        lemma_powers(j);
        lemma_pow2_adds(13, 13 * j);
        lemma_pow10_add(4, 4 * j);
        assert(pow10(4) == 10000) by {
            reveal_with_fuel(pow10, 5);
        }
        let (x, y) = (pow2(13 * j), pow10(4 * j));
        assert(13 + 13 * j == 13 * k && 4 + 4 * j == 4 * k);
        assert(8192 * x <= 10000 * y) by (nonlinear_arith)
            requires
                x <= y,
        ;
    }
}

proof fn lemma_bounds()
    ensures
        pow2(1075) <= pow10(332),
        pow2(1024) <= pow10(332),
        grid(INFINITE as nat) == pow2(1024) * pow2(1074),
        grid(0) == 0,
        grid(1) == 1,
{
    lemma_powers(83);
    lemma_pow2_adds(1075, 4);
    lemma_pow2_adds(1024, 55);
    lemma2_to64();
    lemma2_to64_rest();
    let (x, y) = (pow2(1075), pow2(1024));
    assert(x * 16 >= x && y * 0x80000000000000 >= y);
    lemma_grid_at(2046, 2 * FRACTIONS as nat);
    lemma_pow2_adds(53, 2045);
    lemma_pow2_adds(1024, 1074);
}

/// Zero is its own nearest value.
proof fn lemma_zero(den: nat)
    requires
        den > 0,
    ensures
        is_nearest(0, den, 0),
{
    lemma_bounds();
    let p = pow2(1074);
    assert(0 * p == 0 && 0 * den == 0) by (nonlinear_arith);
    assert(1 * den == den) by (nonlinear_arith);
    lemma_between(0, den, 0, false);
}

/// A decimal that is at least 10^332 is beyond every finite value.
proof fn lemma_too_large(m: nat, n: nat, e: int)
    requires
        n >= 1,
        m >= pow10((n - 1) as nat),
        e + n - 1 >= 332,
    ensures
        e >= 0 ==> is_nearest(m * pow10(e as nat), 1, INFINITE as nat),
        e < 0 ==> is_nearest(m, pow10((-e) as nat), INFINITE as nat),
{
    lemma_bounds();
    let p = pow2(1074);
    let g = grid(INFINITE as nat);
    let two = pow2(1024);
    let low = pow10((n - 1) as nat);
    if e >= 0 {
        let x = pow10(e as nat);
        let num = m * x;
        lemma_pow10_add((n - 1) as nat, e as nat);
        lemma_pow10_monotone(332, (n - 1 + e) as nat);
        assert(m * x >= low * x) by (nonlinear_arith)
            requires
                m >= low,
        ;
        assert(num >= two);
        assert(num * p >= two * p) by (nonlinear_arith)
            requires
                num >= two,
        ;
        assert(g * 1 == g) by (nonlinear_arith);
        lemma_beyond(num, 1);
    } else {
        let k = (-e) as nat;
        let den = pow10(k);
        lemma_pow10_add(332, k);
        lemma_pow10_add(k, 0);
        lemma_pow10_monotone(332 + k, (n - 1) as nat);
        let ten = pow10(332);
        assert(m >= ten * den);
        assert(ten * den >= two * den) by (nonlinear_arith)
            requires
                ten >= two,
        ;
        assert(m * p >= (two * den) * p) by (nonlinear_arith)
            requires
                m >= two * den,
        ;
        assert((two * den) * p == (two * p) * den) by (nonlinear_arith);
        lemma_beyond(m, den);
    }
}

/// A decimal that is below 10^-332 is nearest to zero.
proof fn lemma_too_small(m: nat, n: nat, e: int)
    requires
        m < pow10(n),
        e + n <= -332,
    ensures
        is_nearest(m, pow10((-e) as nat), 0),
{
    lemma_bounds();
    let k = (-e) as nat;
    let den = pow10(k);
    lemma_pow10_add(k, 0);
    lemma_pow10_monotone(n + 332, k);
    lemma_pow10_add(n, 332);
    let ten = pow10(332);
    let hi = pow10(n);
    lemma_pow10_add(332, 0);
    assert(m * ten < hi * ten) by (nonlinear_arith)
        requires
            m < hi,
            ten > 0,
    ;
    let p = pow2(1074);
    lemma_pow2_adds(1, 1074);
    lemma2_to64();
    assert(m * (2 * p) <= m * ten) by (nonlinear_arith)
        requires
            2 * p <= ten,
    ;
    assert(m * (2 * p) == 2 * (m * p)) by (nonlinear_arith);
    assert(0 * den == 0 && 1 * den == den) by (nonlinear_arith);
    lemma_between(m, den, 0, false);
}

/// The digits without the zeros at their start.
fn significant<'a>(whole: &'a [u8], frac: &'a [u8]) -> (r: (&'a [u8], &'a [u8]))
    requires
        all_digits(whole@),
        all_digits(frac@),
    ensures
        all_digits(r.0@),
        all_digits(r.1@),
        decimal(r.0@ + r.1@) == decimal(whole@ + frac@),
        (r.0@ + r.1@).len() > 0 ==> (r.0@ + r.1@)[0] != ZERO,
{
    let w = strip_leading_zeros(whole);
    proof {
        lemma_lead(whole@, zero_digit());
        lemma_leading_zeros(whole@);
        assert forall|i: int| 0 <= i < w@.len() implies (digit())(#[trigger] w@[i]) by {
            assert((digit())(whole@[i + lead(whole@, zero_digit())]));
        }
        lemma_decimal_concat(whole@, frac@);
        lemma_decimal_concat(w@, frac@);
    }
    if w.len() > 0 {
        return (w, frac);
    }
    let f = strip_leading_zeros(frac);
    proof {
        lemma_lead(frac@, zero_digit());
        lemma_leading_zeros(frac@);
        assert forall|i: int| 0 <= i < f@.len() implies (digit())(#[trigger] f@[i]) by {
            assert((digit())(frac@[i + lead(frac@, zero_digit())]));
        }
        assert(w@ + f@ =~= f@);
        let p = pow10(frac@.len());
        assert(0 * p == 0) by (nonlinear_arith);
    }
    (w, f)
}

/// The double precision value nearest to the number `whole.frac` times `10^exp`.
/// `HUGE`, on either side, also stands for every exponent beyond it.
fn round_decimal(whole: &[u8], frac: &[u8], exp: i128) -> (b: u64)
    requires
        all_digits(whole@),
        all_digits(frac@),
        -HUGE <= exp <= HUGE,
    ensures
        b <= INFINITE,
        b == nearest_scaled(decimal(whole@ + frac@), exp - frac@.len()),
        exp == HUGE ==> forall|x: int|
            x >= HUGE ==> b == #[trigger] nearest_scaled(
                decimal(whole@ + frac@),
                x - frac@.len(),
            ),
        exp == -HUGE ==> forall|x: int|
            x <= -HUGE ==> b == #[trigger] nearest_scaled(
                decimal(whole@ + frac@),
                x - frac@.len(),
            ),
{
    let (w, f) = significant(whole, frac);
    let e: i128 = exp - frac.len() as i128;
    let n: i128 = w.len() as i128 + f.len() as i128;
    let ghost d = w@ + f@;
    let ghost m = decimal(d);
    proof {
        lemma_decimal_bound(d);
        if d.len() > 0 {
            lemma_decimal_first(d);
            lemma_pow10_add((d.len() - 1) as nat, 0);
            let (x, p) = (digit_value(d[0]), pow10((d.len() - 1) as nat));
            if w@.len() > 0 {
                assert(d[0] == w@[0]);
                assert((digit())(w@[0]));
            } else {
                assert(d[0] == f@[0]);
                assert((digit())(f@[0]));
            }
            assert(x * p >= p) by (nonlinear_arith)
                requires
                    x >= 1,
            ;
        }
    }
    if n == 0 {
        assert forall|x: int| #[trigger] nearest_scaled(m, x) == 0 by {
            assert(d =~= Seq::<u8>::empty());
            if x >= 0 {
                let p = pow10(x as nat);
                assert(0 * p == 0) by (nonlinear_arith);
                lemma_zero(1);
                nearest_is_unique(0, 1, 0, nearest(0, 1));
            } else {
                let p = pow10((-x) as nat);
                lemma_pow10_add((-x) as nat, 0);
                lemma_zero(p);
                nearest_is_unique(0, p, 0, nearest(0, p));
            }
        }
        return 0;
    }
    if e + n - 1 >= 332 {
        assert forall|x: int| x >= e implies #[trigger] nearest_scaled(m, x) == INFINITE by {
            lemma_too_large(m, n as nat, x);
            if x >= 0 {
                let num = m * pow10(x as nat);
                nearest_is_unique(num, 1, INFINITE as nat, nearest(num, 1));
            } else {
                let p = pow10((-x) as nat);
                lemma_pow10_add((-x) as nat, 0);
                nearest_is_unique(m, p, INFINITE as nat, nearest(m, p));
            }
        }
        return INFINITE;
    }
    if e + n <= -332 {
        assert forall|x: int| x <= e implies #[trigger] nearest_scaled(m, x) == 0 by {
            lemma_too_small(m, n as nat, x);
            let p = pow10((-x) as nat);
            lemma_pow10_add((-x) as nat, 0);
            nearest_is_unique(m, p, 0, nearest(m, p));
        }
        return 0;
    }
    let digits = with_digits(with_digits(Natural::from_limb(0), w), f);
    proof {
        lemma_decimal_concat(w@, f@);
        let p = pow10(w@.len());
        assert(0 * p == 0) by (nonlinear_arith);
        assert(digits@ == m);
    }
    let one = Natural::from_limb(1);
    if e >= 0 {
        let num = times_power_of_ten(digits, e as u128);
        round_quotient(&num, &one)
    } else {
        let den = times_power_of_ten(one, (-e) as u128);
        proof {
            let p = pow10((-e) as nat);
            assert(1 * p == p) by (nonlinear_arith);
            lemma_pow10_add((-e) as nat, 0);
        }
        round_quotient(&digits, &den)
    }
}

/// The number at the start of `s` as a double precision value.
pub fn parse_general(s: &[u8]) -> (r: Option<i64>)
    ensures
        r.is_some() == general_value(s@).is_some(),
        r.is_some() ==> r.unwrap() == general_value(s@).unwrap() && -(INFINITE as int)
            <= r.unwrap() <= INFINITE,
{
    let (neg, whole, frac, rest) = split_general(s);
    if whole.len() == 0 && frac.len() == 0 {
        return None;
    }
    let exp: i128 = small_exponent(rest);
    proof {
        lemma_signed_digits(s@);
    }
    let b: u64 = round_decimal(whole, frac, exp);
    proof {
        let x = exponent(rest@);
        assert(b == nearest_scaled(decimal(whole@ + frac@), x - frac@.len()));
    }
    if neg {
        Some(-(b as i64))
    } else {
        Some(b as i64)
    }
}

/// The next double precision value up to twice `b`.
fn twice(b: u64) -> (r: u64)
    requires
        b <= INFINITE,
    ensures
        r <= INFINITE,
        b < INFINITE && r < INFINITE ==> grid(r as nat) == 2 * grid(b as nat),
        b < INFINITE && r == INFINITE ==> 2 * grid(b as nat) >= grid(INFINITE as nat),
        b == INFINITE ==> r == INFINITE,
{
    let e: u64 = b / FRACTIONS;
    let ghost f = FRACTIONS as nat;
    let ghost m = b as nat % f;
    proof {
        lemma2_to64();
    }
    if e == 0 {
        proof {
            lemma_grid_at(1, b as nat);
            lemma_grid_at(1, 2 * b as nat);
            let x = b as nat;
            assert(x * 1 == x && (2 * x) * 1 == 2 * x) by (nonlinear_arith);
        }
        2 * b
    } else if e < 2046 {
        proof {
            lemma_grid_at(e as nat, f + m);
            lemma_grid_at((e + 1) as nat, f + m);
            lemma_pow2_adds(1, (e - 1) as nat);
            let (x, p) = (f + m, pow2((e - 1) as nat));
            assert(x * (2 * p) == 2 * (x * p)) by (nonlinear_arith);
            assert(b == e * f + m);
        }
        b + FRACTIONS
    } else {
        proof {
            if b < INFINITE {
                assert(e == 2046);
                assert(b == e * f + m);
                lemma_grid_at(2046, f + m);
                lemma_grid_at(2046, 2 * f);
                let (x, p) = (f + m, pow2(2045));
                assert(2 * (x * p) == (2 * x) * p) by (nonlinear_arith);
                assert((2 * x) * p >= (2 * f) * p) by (nonlinear_arith)
                    requires
                        x >= f,
                ;
            }
        }
        INFINITE
    }
}

/// A multiple that is a value itself rounds to that value.
proof fn lemma_exact(num: nat, b: nat)
    requires
        b < INFINITE,
        num == grid(b),
    ensures
        is_nearest(num, pow2(1074), b),
{
    let den = pow2(1074);
    lemma_pow2_pos(1074);
    assert(distance(num, den, b) == 0);
    assert forall|c: nat| c <= INFINITE && c != b implies {
        ||| distance(num, den, b) < #[trigger] distance(num, den, c)
        ||| distance(num, den, b) == distance(num, den, c) && b % 2 == 0
    } by {
        let (x, y) = (grid(b), grid(c));
        if b < c {
            grid_is_increasing(b, c);
            assert(x * den < y * den) by (nonlinear_arith)
                requires
                    x < y,
                    den > 0,
            ;
        } else {
            grid_is_increasing(c, b);
            assert(y * den < x * den) by (nonlinear_arith)
                requires
                    y < x,
                    den > 0,
            ;
        }
    }
}

/// Value `b` times `2^n`.
fn times_power_of_two(b: u64, n: usize) -> (r: u64)
    requires
        b <= INFINITE,
    ensures
        r <= INFINITE,
        r == nearest_multiple(b as nat, n as nat),
{
    let mut v: u64 = b;
    let mut i: usize = 0;
    proof {
        lemma2_to64();
        let g = grid(b as nat);
        assert(g * 1 == g) by (nonlinear_arith);
    }
    while i < n
        invariant
            i <= n,
            b <= INFINITE,
            v <= INFINITE,
            b == INFINITE ==> v == INFINITE,
            b < INFINITE && v < INFINITE ==> grid(v as nat) == grid(b as nat) * pow2(i as nat),
            b < INFINITE && v == INFINITE ==> grid(b as nat) * pow2(i as nat) >= grid(
                INFINITE as nat,
            ),
        decreases n - i,
    {
        proof {
            lemma2_to64();
            lemma_pow2_adds(1, i as nat);
            let (g, p) = (grid(b as nat), pow2(i as nat));
            assert(g * (2 * p) == 2 * (g * p)) by (nonlinear_arith);
        }
        v = twice(v);
        i += 1;
    }
    proof {
        let num = grid(b as nat) * pow2(n as nat);
        let den = pow2(1074);
        lemma_pow2_pos(1074);
        if b < INFINITE {
            if v < INFINITE {
                lemma_exact(num, v as nat);
            } else {
                let g = grid(INFINITE as nat);
                assert(g * den <= num * den) by (nonlinear_arith)
                    requires
                        g <= num,
                ;
                lemma_beyond(num, den);
            }
            nearest_is_unique(num, den, v as nat, nearest(num, den));
        }
    }
    v
}

/// The power of 1024 of a size suffix.
fn power_of_suffix(c: u8) -> (r: usize)
    ensures
        r == suffix_power(c),
        r <= 8,
{
    match c {
        0x4b | 0x6b => 1,
        0x4d => 2,
        0x47 => 3,
        0x54 => 4,
        0x50 => 5,
        0x45 => 6,
        0x5a => 7,
        0x59 => 8,
        _ => 0,
    }
}

fn suffix_of(s: &[u8]) -> (r: usize)
    ensures
        r == human_power(s@),
        r <= 8,
{
    let t = skip_blanks(s);
    let start: usize = if t.len() > 0 && (t[0] == PLUS || t[0] == MINUS) {
        1
    } else {
        0
    };
    let mut i: usize = start;
    while i < t.len() && ((ZERO <= t[i] && t[i] <= 0x39) || t[i] == DOT)
        invariant
            start <= i <= t@.len(),
            forall|k: int| start <= k < i ==> (digit_or_point())(#[trigger] t@[k]),
        decreases t@.len() - i,
    {
        i += 1;
    }
    proof {
        let u = t@.skip(start as int);
        assert(t@.skip(0) =~= t@);
        assert forall|k: int| 0 <= k < i - start implies (digit_or_point())(#[trigger] u[k]) by {
            assert(u[k] == t@[start + k]);
        }
        lemma_lead_is(u, digit_or_point(), i - start);
        assert(past(u, digit_or_point()) =~= t@.skip(i as int));
    }
    if i < t.len() {
        power_of_suffix(t[i])
    } else {
        0
    }
}

/// The size at the start of `s` as a double precision value.
pub fn parse_human(s: &[u8]) -> (v: i64)
    ensures
        v == human_value(s@),
        -(INFINITE as int) <= v <= INFINITE,
{
    match parse_general(s) {
        None => 0,
        Some(v) => {
            let n: usize = 10 * suffix_of(s);
            if v < 0 {
                let r: u64 = times_power_of_two((-v) as u64, n);
                -(r as i64)
            } else {
                let r: u64 = times_power_of_two(v as u64, n);
                r as i64
            }
        },
    }
}

/// Compares the numbers at the start of two lines, exponents included (`-g`).
/// Lines without a number come first.
pub fn general_cmp(a: &[u8], b: &[u8]) -> (o: Ordering)
    ensures
        o == general_order(a@, b@),
{
    match (parse_general(a), parse_general(b)) {
        (Some(x), Some(y)) => if x < y {
            Ordering::Less
        } else if x == y {
            Ordering::Equal
        } else {
            Ordering::Greater
        },
        (Some(_), None) => Ordering::Greater,
        (None, Some(_)) => Ordering::Less,
        (None, None) => Ordering::Equal,
    }
}

/// Compares the sizes at the start of two lines (`-h`): a number and perhaps one
/// of the suffixes K, M, G, T, P, E, Z and Y, in powers of 1024.
pub fn human_cmp(a: &[u8], b: &[u8]) -> (o: Ordering)
    ensures
        o == human_order(a@, b@),
{
    let x: i64 = parse_human(a);
    let y: i64 = parse_human(b);
    if x < y {
        Ordering::Less
    } else if x == y {
        Ordering::Equal
    } else {
        Ordering::Greater
    }
}

/// The `-g` order is total.
pub proof fn general_order_is_total()
    ensures
        is_total_order(|a: Seq<u8>, b: Seq<u8>| general_order(a, b)),
{
    let c = |a: Seq<u8>, b: Seq<u8>| general_order(a, b);
    assert forall|x: Seq<u8>, y: Seq<u8>, z: Seq<u8>|
        #![trigger c(x, y), c(y, z)]
        c(x, y) != Ordering::Greater && c(y, z) != Ordering::Greater implies c(x, z)
        != Ordering::Greater by {}
}

/// The `-h` order is total.
pub proof fn human_order_is_total()
    ensures
        is_total_order(|a: Seq<u8>, b: Seq<u8>| human_order(a, b)),
{
    lemma_rank_order_is_total(
        |a: Seq<u8>, b: Seq<u8>| human_order(a, b),
        |a: Seq<u8>| human_value(a),
    );
}

} // verus!
