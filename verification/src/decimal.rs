//! Decimal digits and the numbers they stand for.

use crate::index::{ints, nat_int};
use crate::lex::bytes_order;
use crate::order::{flipped, int_order, is_total_order};
use crate::text::{digit, lemma_lead, past, ZERO};
use std::cmp::Ordering;
use vstd::prelude::*;

verus! {

/// What a digit counts for.
pub open spec fn digit_value(b: u8) -> nat {
    if (digit())(b) {
        (b - ZERO) as nat
    } else {
        0
    }
}

/// The number that a string of digits stands for.
pub open spec fn decimal(d: Seq<u8>) -> nat
    decreases d.len(),
{
    if d.len() == 0 {
        0
    } else {
        decimal(d.drop_last()) * 10 + digit_value(d.last())
    }
}

/// Ten to the power of `n`.
pub open spec fn pow10(n: nat) -> nat
    decreases n,
{
    if n == 0 {
        1
    } else {
        10 * pow10((n - 1) as nat)
    }
}

/// All bytes of `d` are digits.
pub open spec fn all_digits(d: Seq<u8>) -> bool {
    forall|i: int| 0 <= i < d.len() ==> (digit())(#[trigger] d[i])
}

/// The zero digit.
pub open spec fn zero_digit() -> spec_fn(u8) -> bool {
    |b: u8| b == ZERO
}

/// The number `units / 10^scale`.
pub struct Fixed {
    pub units: int,
    pub scale: nat,
}

/// The order of two numbers.
pub open spec fn fixed_order(a: Fixed, b: Fixed) -> Ordering {
    int_order(a.units * pow10(b.scale), b.units * pow10(a.scale))
}

/// [`fixed_order`] as a function.
pub open spec fn by_value() -> spec_fn(Fixed, Fixed) -> Ordering {
    |a: Fixed, b: Fixed| fixed_order(a, b)
}

pub proof fn lemma_pow10_add(a: nat, b: nat)
    ensures
        pow10(a + b) == pow10(a) * pow10(b),
        pow10(a) > 0,
    decreases a,
{
    if a > 0 {
        lemma_pow10_add((a - 1) as nat, b);
        let x = pow10((a - 1) as nat);
        let y = pow10(b);
        assert(10 * (x * y) == (10 * x) * y) by (nonlinear_arith);
        assert((a + b - 1) as nat == (a - 1) as nat + b);
    } else {
        let y = pow10(b);
        assert(1 * y == y) by (nonlinear_arith);
    }
}

pub proof fn lemma_decimal_concat(a: Seq<u8>, b: Seq<u8>)
    ensures
        decimal(a + b) == decimal(a) * pow10(b.len()) + decimal(b),
    decreases b.len(),
{
    if b.len() == 0 {
        assert(a + b =~= a);
        assert(pow10(0) == 1);
        assert(decimal(a) * 1 == decimal(a)) by (nonlinear_arith);
    } else {
        let c = b.drop_last();
        assert((a + b).drop_last() =~= a + c);
        assert((a + b).last() == b.last());
        lemma_decimal_concat(a, c);
        let x = decimal(a);
        let y = pow10(c.len());
        assert((x * y) * 10 == x * (10 * y)) by (nonlinear_arith);
        assert(pow10(b.len()) == 10 * y);
    }
}

pub proof fn lemma_decimal_bound(d: Seq<u8>)
    ensures
        decimal(d) < pow10(d.len()),
    decreases d.len(),
{
    if d.len() > 0 {
        lemma_decimal_bound(d.drop_last());
    }
}

pub proof fn lemma_decimal_first(d: Seq<u8>)
    requires
        d.len() > 0,
    ensures
        decimal(d) == digit_value(d[0]) * pow10((d.len() - 1) as nat) + decimal(d.drop_first()),
{
    let h = seq![d[0]];
    assert(h + d.drop_first() =~= d);
    lemma_decimal_concat(h, d.drop_first());
    assert(h.drop_last() =~= Seq::<u8>::empty());
    assert(decimal(h) == digit_value(d[0])) by {
        reveal_with_fuel(decimal, 2);
    }
}

/// Leading zeros count for nothing.
pub proof fn lemma_leading_zeros(d: Seq<u8>)
    ensures
        decimal(past(d, zero_digit())) == decimal(d),
    decreases d.len(),
{
    if d.len() > 0 && d[0] == ZERO {
        lemma_decimal_first(d);
        lemma_leading_zeros(d.drop_first());
        lemma_lead(d.drop_first(), zero_digit());
        assert(past(d, zero_digit()) =~= past(d.drop_first(), zero_digit()));
        let y = pow10((d.len() - 1) as nat);
        assert(0 * y == 0) by (nonlinear_arith);
    } else {
        assert(d.skip(0) =~= d);
    }
}

/// Of two digit strings without leading zeros, the longer one stands for more.
pub proof fn lemma_longer_is_larger(a: Seq<u8>, b: Seq<u8>)
    requires
        all_digits(b),
        a.len() < b.len(),
        b[0] != ZERO,
    ensures
        decimal(a) < decimal(b),
{
    lemma_decimal_bound(a);
    lemma_decimal_first(b);
    assert((digit())(b[0]));
    lemma_pow10_monotone(a.len(), (b.len() - 1) as nat);
    let v = digit_value(b[0]);
    let y = pow10((b.len() - 1) as nat);
    assert(v >= 1 ==> v * y >= y) by (nonlinear_arith);
}

pub proof fn lemma_pow10_monotone(a: nat, b: nat)
    requires
        a <= b,
    ensures
        pow10(a) <= pow10(b),
        pow10(a) > 0,
    decreases b,
{
    lemma_pow10_add(a, 0);
    if a < b {
        lemma_pow10_monotone(a, (b - 1) as nat);
    }
}

proof fn lemma_ints_rest(a: Seq<u8>)
    requires
        a.len() > 0,
    ensures
        ints(a).drop_first() == ints(a.drop_first()),
{
    assert(ints(a).drop_first() =~= ints(a.drop_first()));
}

/// Digit strings of one length compare as the numbers they stand for.
pub proof fn lemma_same_length_order(a: Seq<u8>, b: Seq<u8>)
    requires
        all_digits(a),
        all_digits(b),
        a.len() == b.len(),
    ensures
        bytes_order(a, b) == int_order(nat_int(decimal(a)), nat_int(decimal(b))),
    decreases a.len(),
{
    if a.len() > 0 {
        lemma_decimal_first(a);
        lemma_decimal_first(b);
        let a1 = a.drop_first();
        let b1 = b.drop_first();
        assert(all_digits(a1)) by {
            assert forall|i: int| 0 <= i < a1.len() implies (digit())(#[trigger] a1[i]) by {
                assert((digit())(a[i + 1]));
            }
        }
        assert(all_digits(b1)) by {
            assert forall|i: int| 0 <= i < b1.len() implies (digit())(#[trigger] b1[i]) by {
                assert((digit())(b[i + 1]));
            }
        }
        lemma_same_length_order(a1, b1);
        lemma_decimal_bound(a1);
        lemma_decimal_bound(b1);
        lemma_ints_rest(a);
        lemma_ints_rest(b);
        assert((digit())(a[0]) && (digit())(b[0]));
        lemma_first_digit_decides(digit_value(a[0]), digit_value(b[0]), pow10(a1.len()), decimal(a1), decimal(b1));
    }
}

pub proof fn lemma_first_digit_decides(x: nat, y: nat, p: nat, r: nat, s: nat)
    requires
        r < p,
        s < p,
    ensures
        x < y ==> x * p + r < y * p + s,
        x > y ==> x * p + r > y * p + s,
        x == y ==> x * p == y * p,
{
    if x < y {
        assert((x + 1) * p <= y * p) by (nonlinear_arith)
            requires
                x + 1 <= y,
        ;
        assert((x + 1) * p == x * p + p) by (nonlinear_arith);
    }
    if x > y {
        assert((y + 1) * p <= x * p) by (nonlinear_arith)
            requires
                y + 1 <= x,
        ;
        assert((y + 1) * p == y * p + p) by (nonlinear_arith);
    }
}

/// Digits behind the point, without trailing zeros, compare as the fractions
/// they stand for.
pub proof fn lemma_fraction_order(a: Seq<u8>, b: Seq<u8>)
    requires
        all_digits(a),
        all_digits(b),
        a.len() > 0 ==> a.last() != ZERO,
        b.len() > 0 ==> b.last() != ZERO,
    ensures
        bytes_order(a, b) == int_order(
            nat_int(decimal(a) * pow10(b.len())),
            nat_int(decimal(b) * pow10(a.len())),
        ),
    decreases a.len(),
{
    if a.len() == 0 || b.len() == 0 {
        lemma_pow10_add(a.len(), b.len());
        lemma_pow10_add(b.len(), a.len());
        lemma_no_product(pow10(a.len()));
        lemma_no_product(pow10(b.len()));
        if a.len() > 0 {
            assert((digit())(a[a.len() - 1]));
            assert(decimal(a) > 0);
            lemma_positive_product(decimal(a), pow10(b.len()));
        }
        if b.len() > 0 {
            assert((digit())(b[b.len() - 1]));
            assert(decimal(b) > 0);
            lemma_positive_product(decimal(b), pow10(a.len()));
        }
    } else {
        lemma_decimal_first(a);
        lemma_decimal_first(b);
        let a1 = a.drop_first();
        let b1 = b.drop_first();
        assert(all_digits(a1)) by {
            assert forall|i: int| 0 <= i < a1.len() implies (digit())(#[trigger] a1[i]) by {
                assert((digit())(a[i + 1]));
            }
        }
        assert(all_digits(b1)) by {
            assert forall|i: int| 0 <= i < b1.len() implies (digit())(#[trigger] b1[i]) by {
                assert((digit())(b[i + 1]));
            }
        }
        lemma_fraction_order(a1, b1);
        lemma_decimal_bound(a1);
        lemma_decimal_bound(b1);
        lemma_ints_rest(a);
        lemma_ints_rest(b);
        assert((digit())(a[0]) && (digit())(b[0]));
        lemma_fraction_step(
            digit_value(a[0]),
            digit_value(b[0]),
            decimal(a1),
            decimal(b1),
            a1.len(),
            b1.len(),
        );
    }
}

pub proof fn lemma_no_product(y: nat)
    ensures
        0 * y == 0,
{
    assert(0 * y == 0) by (nonlinear_arith);
}

pub proof fn lemma_positive_product(x: nat, y: nat)
    requires
        x > 0,
        y > 0,
    ensures
        x * y > 0,
{
    assert(x * y > 0) by (nonlinear_arith)
        requires
            x > 0,
            y > 0,
    ;
}

/// Moves the first digit of two fractions out of the comparison.
proof fn lemma_fraction_step(x: nat, y: nat, r: nat, s: nat, m: nat, n: nat)
    requires
        r < pow10(m),
        s < pow10(n),
    ensures
        ({
            let left = (x * pow10(m) + r) * pow10(n + 1);
            let right = (y * pow10(n) + s) * pow10(m + 1);
            let rest_left = r * pow10(n);
            let rest_right = s * pow10(m);
            &&& x < y ==> left < right
            &&& x > y ==> left > right
            &&& x == y && rest_left < rest_right ==> left < right
            &&& x == y && rest_left > rest_right ==> left > right
            &&& x == y && rest_left == rest_right ==> left == right
        }),
{
    let p = pow10(m);
    let q = pow10(n);
    lemma_pow10_add(m, n);
    lemma_pow10_add(n, m);
    let base = p * q;
    assert((x * p + r) * (10 * q) == 10 * (x * (p * q)) + 10 * (r * q)) by (nonlinear_arith);
    assert((y * q + s) * (10 * p) == 10 * (y * (p * q)) + 10 * (s * p)) by (nonlinear_arith);
    assert(r * q < p * q) by (nonlinear_arith)
        requires
            r < p,
            q > 0,
    ;
    assert(s * p < p * q) by (nonlinear_arith)
        requires
            s < q,
            p > 0,
    ;
    lemma_first_digit_decides(x, y, base, r * q, s * p);
}

/// The order of numbers is total.
pub proof fn fixed_order_is_total()
    ensures
        is_total_order(by_value()),
{
    let c = by_value();
    assert forall|a: Fixed, b: Fixed, d: Fixed|
        #![trigger c(a, b), c(b, d)]
        c(a, b) != Ordering::Greater && c(b, d) != Ordering::Greater implies c(a, d)
        != Ordering::Greater by {
        lemma_pow10_add(a.scale, 0);
        lemma_pow10_add(b.scale, 0);
        lemma_pow10_add(d.scale, 0);
        lemma_scaled_transitive(
            a.units,
            b.units,
            d.units,
            nat_int(pow10(a.scale)),
            nat_int(pow10(b.scale)),
            nat_int(pow10(d.scale)),
        );
    }
    assert forall|a: Fixed, b: Fixed| #[trigger] c(a, b) == flipped(c(b, a)) by {}
}

proof fn lemma_scaled_transitive(a: int, b: int, d: int, x: int, y: int, z: int)
    requires
        x > 0,
        y > 0,
        z > 0,
        a * y <= b * x,
        b * z <= d * y,
    ensures
        a * z <= d * x,
{
    assert((a * y) * z <= (b * x) * z) by (nonlinear_arith)
        requires
            a * y <= b * x,
            z > 0,
    ;
    assert((b * z) * x <= (d * y) * x) by (nonlinear_arith)
        requires
            b * z <= d * y,
            x > 0,
    ;
    assert((b * x) * z == (b * z) * x) by (nonlinear_arith);
    assert((a * z) * y == (a * y) * z) by (nonlinear_arith);
    assert((d * x) * y == (d * y) * x) by (nonlinear_arith);
    assert(a * z <= d * x) by (nonlinear_arith)
        requires
            (a * z) * y <= (d * x) * y,
            y > 0,
    ;
}

} // verus!
