//! What `-n` makes of numbers as they are written.

use crate::decimal::{decimal, pow10, zero_digit, Fixed};
use crate::index::nat_int;
use crate::numeral::numeral;
use crate::numeric::{leading_number, numeric_order, numeric_value, without_trailing_zeros};
use crate::plain::{
    are_figures, are_spaces, ends_number, figures_value, frac_digits, is_figure, is_space,
    number_text, starts_otherwise, starts_without_figure, starts_without_space, unsigned_text,
};
use crate::radix::integer_key;
use crate::text::{blank, digit, lead, lemma_run_in_front, past};
use std::cmp::Ordering;
use vstd::arithmetic::power::pow;
use vstd::prelude::*;

verus! {

/// Digits stand for the number that their places give.
pub proof fn digits_count_by_place(d: Seq<u8>)
    requires
        are_figures(d),
    ensures
        decimal(d) == figures_value(d),
    decreases d.len(),
{
    if d.len() > 0 {
        assert(is_figure(d[d.len() - 1]));
        assert forall|i: int| 0 <= i < d.drop_last().len() implies is_figure(
            #[trigger] d.drop_last()[i],
        ) by {
            assert(d.drop_last()[i] == d[i]);
        }
        digits_count_by_place(d.drop_last());
    }
}

/// [`pow10`] is the power of ten.
pub proof fn tens_are_powers(n: nat)
    ensures
        pow10(n) == pow(10, n),
        pow10(n) > 0,
    decreases n,
{
    reveal(pow);
    if n > 0 {
        tens_are_powers((n - 1) as nat);
    }
}

/// Digits, and perhaps a point and more digits, in front of something else.
pub proof fn lemma_unsigned(whole: Seq<u8>, frac: Option<Seq<u8>>, rest: Seq<u8>)
    requires
        are_figures(whole),
        are_figures(frac_digits(frac)),
        ends_number(frac, rest),
    ensures
        ({
            let u = unsigned_text(whole, frac) + rest;
            let v = past(u, digit());
            &&& u.take(lead(u, digit())) == whole
            &&& match frac {
                Some(d) => {
                    &&& v.len() > 0
                    &&& v[0] == 0x2e
                    &&& v.skip(1).take(lead(v.skip(1), digit())) == d
                    &&& past(v.skip(1), digit()) == rest
                },
                None => v == rest && (v.len() == 0 || v[0] != 0x2e),
            }
        }),
{
    let u = unsigned_text(whole, frac) + rest;
    assert forall|k: int| 0 <= k < whole.len() implies (digit())(#[trigger] whole[k]) by {
        assert(is_figure(whole[k]));
    }
    match frac {
        Some(d) => {
            assert forall|k: int| 0 <= k < d.len() implies (digit())(#[trigger] d[k]) by {
                assert(is_figure(frac_digits(frac)[k]));
            }
            let tail = seq![0x2eu8] + d + rest;
            assert(u =~= whole + tail);
            lemma_run_in_front(whole, tail, digit());
            assert(tail.skip(1) =~= d + rest);
            lemma_run_in_front(d, rest, digit());
        },
        None => {
            assert(u =~= whole + rest);
            lemma_run_in_front(whole, rest, digit());
        },
    }
}

/// A number behind blanks and in front of anything that does not go on with it is
/// read as it is written, its fraction and its sign included. Where there are no
/// digits it counts as 0.
pub proof fn numbers_read_as_written(blanks: Seq<u8>, neg: bool, whole: Seq<u8>, frac: Option<Seq<u8>>, rest: Seq<u8>)
    requires
        are_spaces(blanks),
        are_figures(whole),
        are_figures(frac_digits(frac)),
        ends_number(frac, rest),
        number_text(neg, whole, frac).len() == 0 ==> starts_without_space(rest)
            && starts_otherwise(rest, 0x2d),
    ensures
        ({
            let s = blanks + number_text(neg, whole, frac) + rest;
            let n = nat_int(figures_value(whole + frac_digits(frac)));
            &&& numeric_value(s).units == (if neg {
                -n
            } else {
                n
            })
            &&& numeric_value(s).scale == frac_digits(frac).len()
        }),
{
    let s = blanks + number_text(neg, whole, frac) + rest;
    let u = unsigned_text(whole, frac) + rest;
    let t = number_text(neg, whole, frac) + rest;
    assert(s =~= blanks + t);
    assert forall|k: int| 0 <= k < blanks.len() implies (blank())(#[trigger] blanks[k]) by {
        assert(is_space(blanks[k]));
    }
    if neg {
        assert(t =~= seq![0x2du8] + u);
        assert(t.skip(1) =~= u);
    } else {
        assert(t =~= u);
        if whole.len() > 0 {
            assert(is_figure(whole[0]));
            assert(t[0] == whole[0]);
        } else if frac is Some {
            assert(t[0] == 0x2e);
        } else {
            assert(t =~= rest);
        }
    }
    lemma_run_in_front(blanks, t, blank());
    lemma_unsigned(whole, frac, rest);
    let d = whole + frac_digits(frac);
    assert forall|i: int| 0 <= i < d.len() implies is_figure(#[trigger] d[i]) by {
        if i < whole.len() {
            assert(is_figure(whole[i]));
        } else {
            assert(is_figure(frac_digits(frac)[i - whole.len()]));
        }
    }
    digits_count_by_place(d);
    assert(leading_number(s).0 == neg);
    assert(leading_number(s).1 == whole);
    assert(leading_number(s).2 =~= frac_digits(frac));
}

/// `-n` orders lines by the numbers at their start: `x / 10^m` comes before `y / 10^n`
/// where it is less, and ties with it where the two are equal.
pub proof fn numbers_order_by_value(a: Seq<u8>, x: int, m: nat, b: Seq<u8>, y: int, n: nat)
    requires
        numeric_value(a) == (Fixed { units: x, scale: m }),
        numeric_value(b) == (Fixed { units: y, scale: n }),
    ensures
        numeric_order(a, b) == Ordering::Less <==> x * pow(10, n) < y * pow(10, m),
        numeric_order(a, b) == Ordering::Equal <==> x * pow(10, n) == y * pow(10, m),
        numeric_order(a, b) == Ordering::Greater <==> x * pow(10, n) > y * pow(10, m),
{
    tens_are_powers(m);
    tens_are_powers(n);
}

/// A minus sign before both numbers turns their order round.
pub proof fn minus_mirrors_the_order(w: Seq<u8>, f: Seq<u8>, x: Seq<u8>, g: Seq<u8>, r: Seq<u8>, q: Seq<u8>)
    requires
        are_figures(w),
        are_figures(f),
        are_figures(x),
        are_figures(g),
        ends_number(Some(f), r),
        ends_number(Some(g), q),
    ensures
        numeric_order(
            seq![0x2du8] + w + seq![0x2eu8] + f + r,
            seq![0x2du8] + x + seq![0x2eu8] + g + q,
        ) == numeric_order(x + seq![0x2eu8] + g + q, w + seq![0x2eu8] + f + r),
{
    let none = Seq::<u8>::empty();
    numbers_read_as_written(none, true, w, Some(f), r);
    numbers_read_as_written(none, true, x, Some(g), q);
    numbers_read_as_written(none, false, w, Some(f), r);
    numbers_read_as_written(none, false, x, Some(g), q);
    assert(none + number_text(true, w, Some(f)) + r =~= seq![0x2du8] + w + seq![0x2eu8] + f + r);
    assert(none + number_text(true, x, Some(g)) + q =~= seq![0x2du8] + x + seq![0x2eu8] + g + q);
    assert(none + number_text(false, w, Some(f)) + r =~= w + seq![0x2eu8] + f + r);
    assert(none + number_text(false, x, Some(g)) + q =~= x + seq![0x2eu8] + g + q);
    let i = nat_int(figures_value(w + f));
    let j = nat_int(figures_value(x + g));
    let (p, q) = (pow10(g.len()), pow10(f.len()));
    assert((-i) * p == -(i * p) && (-j) * q == -(j * q)) by (nonlinear_arith);
}

/// A numeral is read as the number that it was written for, and it has no zero in
/// front.
pub proof fn numerals_read_back(n: nat)
    ensures
        are_figures(numeral(n)),
        figures_value(numeral(n)) == n,
        numeral(n).len() > 0,
        n > 0 ==> numeral(n)[0] != 0x30,
    decreases n,
{
    if n < 10 {
        assert(numeral(n).drop_last() =~= Seq::<u8>::empty());
        reveal_with_fuel(figures_value, 2);
    } else {
        numerals_read_back(n / 10);
        let front = numeral(n / 10);
        assert(numeral(n).drop_last() =~= front);
        assert forall|i: int| 0 <= i < numeral(n).len() implies is_figure(
            #[trigger] numeral(n)[i],
        ) by {
            if i < front.len() {
                assert(numeral(n)[i] == front[i]);
            }
        }
    }
}

/// Only the digit `0`.
pub open spec fn are_zeros(s: Seq<u8>) -> bool {
    forall|i: int| 0 <= i < s.len() ==> #[trigger] s[i] == 0x30
}

/// Zeros at the start of digits are taken off, and nothing else is.
pub proof fn leading_zeros_are_stripped(zeros: Seq<u8>, rest: Seq<u8>)
    requires
        are_zeros(zeros),
        starts_otherwise(rest, 0x30),
    ensures
        past(zeros + rest, zero_digit()) == rest,
{
    lemma_run_in_front(zeros, rest, zero_digit());
}

/// Zeros at the end of digits are taken off, and nothing else is.
pub proof fn trailing_zeros_are_stripped(front: Seq<u8>, zeros: Seq<u8>)
    requires
        are_zeros(zeros),
        front.len() > 0 ==> front.last() != 0x30,
    ensures
        without_trailing_zeros(front + zeros) == front,
    decreases zeros.len(),
{
    let s = front + zeros;
    if zeros.len() == 0 {
        assert(s =~= front);
    } else {
        assert(zeros[zeros.len() - 1] == 0x30);
        assert(s.last() == zeros.last());
        assert(s.drop_last() =~= front + zeros.drop_last());
        trailing_zeros_are_stripped(front, zeros.drop_last());
    }
}

/// An integer behind blanks is read as it is written, as long as it fits into 64 bits;
/// digits with a decimal point behind them are no integer, and no digits count as 0.
pub proof fn integers_read_as_written(blanks: Seq<u8>, neg: bool, digits: Seq<u8>, rest: Seq<u8>)
    requires
        are_spaces(blanks),
        are_figures(digits),
        starts_without_figure(rest),
        !neg && digits.len() == 0 ==> starts_without_space(rest) && starts_otherwise(rest, 0x2d),
    ensures
        ({
            let s = blanks + number_text(neg, digits, None) + rest;
            let n = if neg {
                -nat_int(figures_value(digits))
            } else {
                nat_int(figures_value(digits))
            };
            let fits = -0x8000_0000_0000_0000 <= n < 0x8000_0000_0000_0000;
            integer_key(s) == (if fits && starts_otherwise(rest, 0x2e) {
                Some(n)
            } else {
                None
            })
        }),
{
    let s = blanks + number_text(neg, digits, None) + rest;
    let u = digits + rest;
    let t = number_text(neg, digits, None) + rest;
    assert(s =~= blanks + t);
    assert forall|k: int| 0 <= k < blanks.len() implies (blank())(#[trigger] blanks[k]) by {
        assert(is_space(blanks[k]));
    }
    assert forall|k: int| 0 <= k < digits.len() implies (digit())(#[trigger] digits[k]) by {
        assert(is_figure(digits[k]));
    }
    if neg {
        assert(t.skip(1) =~= u);
    } else {
        assert(t =~= u);
        if digits.len() > 0 {
            assert(t[0] == digits[0] && is_figure(digits[0]));
        } else {
            assert(t =~= rest);
        }
    }
    lemma_run_in_front(blanks, t, blank());
    lemma_run_in_front(digits, rest, digit());
    digits_count_by_place(digits);
}

} // verus!
