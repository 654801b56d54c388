//! What `-g` and `-h` make of numbers as they are written: double precision values.

use crate::binary64::{distance, grid, is_nearest, lemma_between, lemma_beyond, nearest, INFINITE};
use crate::decimal::{decimal, pow10};
use crate::general::{
    behind_number, digit_or_point, exponent, general_order, general_value, human_order, human_power,
    human_value, nearest_multiple, signed_number,
};
use crate::number_laws::{digits_count_by_place, lemma_unsigned, tens_are_powers};
use crate::plain::{
    are_figures, are_spaces, ends_number, figures_value, frac_digits, is_figure, is_space,
    starts_otherwise, starts_without_figure, starts_without_space, unsigned_text,
};
use crate::text::{blank, digit, lead, lemma_lead, lemma_run_in_front, past};
use std::cmp::Ordering;
use vstd::arithmetic::power::pow;
use vstd::arithmetic::power2::{lemma2_to64, lemma_pow2_adds, lemma_pow2_pos, pow2};
use vstd::prelude::*;

verus! {

/// The double precision value with bits `b`, in units of `2^-1074`: values go up by
/// one unit at first, and 2^52 values further on each is twice as large.
pub open spec fn double_units(b: nat) -> nat
    decreases b,
{
    if b < 0x20_0000_0000_0000 {
        b
    } else {
        2 * double_units((b - 0x10_0000_0000_0000) as nat)
    }
}

/// How far `num / den` is from the value with bits `b`, in units of `2^-1074 / den`.
pub open spec fn gap(num: nat, den: nat, b: nat) -> int {
    let d = num * pow2(1074) - double_units(b) * den;
    if d < 0 {
        -d
    } else {
        d
    }
}

/// `b` are the bits of the double precision value that `num / den` is rounded to: no
/// value is nearer, and of two that are as near it is the one with even bits. What is
/// too large is rounded to infinity.
pub open spec fn rounds_to(num: nat, den: nat, b: nat) -> bool {
    &&& b <= 0x7ff0_0000_0000_0000
    &&& forall|c: nat|
        c <= 0x7ff0_0000_0000_0000 ==> gap(num, den, b) <= #[trigger] gap(num, den, c)
    &&& forall|c: nat|
        c <= 0x7ff0_0000_0000_0000 && c != b && #[trigger] gap(num, den, c) == gap(num, den, b)
            ==> b % 2 == 0
}

/// The same of `m * 10^e`.
pub open spec fn decimal_rounds_to(m: nat, e: int, b: nat) -> bool {
    if e >= 0 {
        rounds_to(m * pow(10, e as nat) as nat, 1, b)
    } else {
        rounds_to(m, pow(10, (-e) as nat) as nat, b)
    }
}

/// A value's place on the grid is the value in units of `2^-1074`.
pub proof fn grid_counts_units(b: nat)
    ensures
        grid(b) == double_units(b),
    decreases b,
{
    lemma2_to64();
    let f: nat = 0x10_0000_0000_0000;
    let e = b / f;
    let r = b % f;
    assert(b == e * f + r);
    if e == 0 {
    } else if e == 1 {
        assert((f + r) * 1 == f + r) by (nonlinear_arith);
    } else {
        let c = (b - f) as nat;
        grid_counts_units(c);
        assert(c / f == e - 1 && c % f == r);
        lemma_pow2_adds(1, (e - 2) as nat);
        let p = pow2((e - 2) as nat);
        assert((f + r) * (2 * p) == 2 * ((f + r) * p)) by (nonlinear_arith);
    }
}

/// Below any quotient that is less than some value is the value just below it.
proof fn lemma_neighbours(num: nat, den: nat, top: nat) -> (below: nat)
    requires
        den > 0,
        num * pow2(1074) < grid(top) * den,
        top <= INFINITE,
    ensures
        below < top,
        grid(below) * den <= num * pow2(1074) < grid(below + 1) * den,
    decreases top,
{
    grid_counts_units(0);
    assert(grid(0) * den == 0) by (nonlinear_arith)
        requires
            grid(0) == 0,
    ;
    assert(num * pow2(1074) >= 0) by (nonlinear_arith);
    let c = (top - 1) as nat;
    if grid(c) * den <= num * pow2(1074) {
        c
    } else {
        lemma_neighbours(num, den, c)
    }
}

/// Every quotient has a nearest value.
pub proof fn every_quotient_rounds(num: nat, den: nat)
    requires
        den > 0,
    ensures
        is_nearest(num, den, nearest(num, den)),
{
    if grid(INFINITE as nat) * den <= num * pow2(1074) {
        lemma_beyond(num, den);
    } else {
        let below = lemma_neighbours(num, den, INFINITE as nat);
        let twice = 2 * (num * pow2(1074) - grid(below) * den);
        let step = grid(below + 1) * den - grid(below) * den;
        lemma_between(num, den, below, twice > step || twice == step && below % 2 == 1);
    }
}

/// The nearest value is what a quotient is rounded to.
pub proof fn nearest_rounds(num: nat, den: nat)
    requires
        den > 0,
    ensures
        rounds_to(num, den, nearest(num, den)),
{
    every_quotient_rounds(num, den);
    let b = nearest(num, den);
    grid_counts_units(b);
    assert forall|c: nat| c <= 0x7ff0_0000_0000_0000 implies gap(num, den, b) <= #[trigger] gap(
        num,
        den,
        c,
    ) by {
        grid_counts_units(c);
        assert(distance(num, den, c) == gap(num, den, c));
    }
    assert forall|c: nat|
        c <= 0x7ff0_0000_0000_0000 && c != b && #[trigger] gap(num, den, c) == gap(
            num,
            den,
            b,
        ) implies b % 2 == 0 by {
        grid_counts_units(c);
        assert(distance(num, den, c) == gap(num, den, c));
    }
}

/// A sign before a number, or none.
pub open spec fn sign_text(sign: Option<bool>) -> Seq<u8> {
    match sign {
        Some(true) => seq![0x2du8],
        Some(false) => seq![0x2bu8],
        None => Seq::empty(),
    }
}

/// `s` starts with no sign.
pub open spec fn starts_without_sign(s: Seq<u8>) -> bool {
    starts_otherwise(s, 0x2b) && starts_otherwise(s, 0x2d)
}

/// The text that a number is read from starts where it should: there are digits or a
/// point, or what follows is no sign and no blank.
pub open spec fn starts_number(sign: Option<bool>, number: Seq<u8>, rest: Seq<u8>) -> bool {
    sign is None && number.len() == 0 ==> starts_without_space(rest) && starts_without_sign(rest)
}

/// The digits of a number and what follows it, behind blanks and a sign.
pub proof fn lemma_signed(blanks: Seq<u8>, sign: Option<bool>, whole: Seq<u8>, frac: Option<Seq<u8>>, rest: Seq<u8>)
    requires
        are_spaces(blanks),
        are_figures(whole),
        are_figures(frac_digits(frac)),
        ends_number(frac, rest),
        starts_number(sign, unsigned_text(whole, frac), rest),
    ensures
        ({
            let s = blanks + sign_text(sign) + unsigned_text(whole, frac) + rest;
            let t = past(s, blank());
            let signed = t.len() > 0 && (t[0] == 0x2b || t[0] == 0x2d);
            &&& signed == sign is Some
            &&& (if signed {
                t.skip(1)
            } else {
                t
            }) == unsigned_text(whole, frac) + rest
            &&& signed_number(s) == (sign == Some(true), whole, frac_digits(frac))
            &&& behind_number(s) == rest
        }),
{
    let s = blanks + sign_text(sign) + unsigned_text(whole, frac) + rest;
    let u = unsigned_text(whole, frac) + rest;
    let t = sign_text(sign) + unsigned_text(whole, frac) + rest;
    assert(s =~= blanks + t);
    assert forall|k: int| 0 <= k < blanks.len() implies (blank())(#[trigger] blanks[k]) by {
        assert(is_space(blanks[k]));
    }
    if sign is Some {
        assert(t.skip(1) =~= u);
    } else {
        assert(t =~= u);
        if whole.len() > 0 {
            assert(is_figure(whole[0]));
            assert(t[0] == whole[0]);
        } else if frac is Some {
            assert(t[0] == 0x2e);
        } else {
            assert(t =~= rest);
        }
    }
    lemma_run_in_front(blanks, t, blank());
    lemma_unsigned(whole, frac, rest);
    assert(signed_number(s).2 =~= frac_digits(frac));
}

/// An exponent as it is written: `e` or `E`, perhaps a sign, and digits.
pub open spec fn exponent_text(capital_e: bool, sign: Option<bool>, power: Seq<u8>) -> Seq<u8> {
    seq![
        if capital_e {
            0x45u8
        } else {
            0x65u8
        },
    ] + sign_text(sign) + power
}

/// An exponent is read as it is written.
pub proof fn exponents_read_as_written(capital_e: bool, sign: Option<bool>, power: Seq<u8>, rest: Seq<u8>)
    requires
        are_figures(power),
        starts_without_figure(rest),
        sign is None && power.len() == 0 ==> starts_without_sign(rest),
    ensures
        exponent(exponent_text(capital_e, sign, power) + rest) == (if sign == Some(true) {
            -(figures_value(power) as int)
        } else {
            figures_value(power) as int
        }),
{
    let s = exponent_text(capital_e, sign, power) + rest;
    let u = power + rest;
    let t = sign_text(sign) + u;
    assert(s.skip(1) =~= t);
    assert forall|k: int| 0 <= k < power.len() implies (digit())(#[trigger] power[k]) by {
        assert(is_figure(power[k]));
    }
    if sign is Some {
        assert(t.skip(1) =~= u);
    } else {
        assert(t =~= u);
        if power.len() > 0 {
            assert(is_figure(power[0]));
            assert(t[0] == power[0]);
        } else {
            assert(t =~= rest);
        }
    }
    lemma_run_in_front(power, rest, digit());
    digits_count_by_place(power);
}

/// Text that starts otherwise has no exponent.
pub proof fn without_e_no_exponent(rest: Seq<u8>)
    requires
        starts_otherwise(rest, 0x65),
        starts_otherwise(rest, 0x45),
    ensures
        exponent(rest) == 0,
{
}

/// A number behind blanks and a sign, followed by anything, is read as the double
/// precision value that the digits and the exponent behind them are rounded to.
pub proof fn doubles_read_as_written(
    blanks: Seq<u8>,
    sign: Option<bool>,
    whole: Seq<u8>,
    frac: Option<Seq<u8>>,
    rest: Seq<u8>,
)
    requires
        are_spaces(blanks),
        are_figures(whole),
        are_figures(frac_digits(frac)),
        ends_number(frac, rest),
        whole.len() + frac_digits(frac).len() > 0,
    ensures
        ({
            let s = blanks + sign_text(sign) + unsigned_text(whole, frac) + rest;
            let m = figures_value(whole + frac_digits(frac));
            match general_value(s) {
                Some(v) => if sign == Some(true) {
                    v <= 0 && decimal_rounds_to(m, exponent(rest) - frac_digits(frac).len(), (-v) as nat)
                } else {
                    v >= 0 && decimal_rounds_to(m, exponent(rest) - frac_digits(frac).len(), v as nat)
                },
                None => false,
            }
        }),
{
    lemma_signed(blanks, sign, whole, frac, rest);
    let d = whole + frac_digits(frac);
    assert forall|i: int| 0 <= i < d.len() implies is_figure(#[trigger] d[i]) by {
        if i < whole.len() {
            assert(is_figure(whole[i]));
        } else {
            assert(is_figure(frac_digits(frac)[i - whole.len()]));
        }
    }
    digits_count_by_place(d);
    let m = decimal(d);
    let e = exponent(rest) - frac_digits(frac).len();
    if e >= 0 {
        tens_are_powers(e as nat);
        nearest_rounds(m * pow10(e as nat), 1);
    } else {
        tens_are_powers((-e) as nat);
        nearest_rounds(m, pow10((-e) as nat));
    }
}

/// A number with an exponent is the double precision value nearest to the digits
/// times that power of ten, the digits behind the point counting for less.
pub proof fn exponents_scale_doubles(
    blanks: Seq<u8>,
    sign: Option<bool>,
    whole: Seq<u8>,
    frac: Option<Seq<u8>>,
    capital_e: bool,
    down: Option<bool>,
    power: Seq<u8>,
    rest: Seq<u8>,
)
    requires
        are_spaces(blanks),
        are_figures(whole),
        are_figures(frac_digits(frac)),
        whole.len() + frac_digits(frac).len() > 0,
        are_figures(power),
        starts_without_figure(rest),
        down is None && power.len() == 0 ==> starts_without_sign(rest),
    ensures
        ({
            let s = blanks + sign_text(sign) + unsigned_text(whole, frac) + exponent_text(
                capital_e,
                down,
                power,
            ) + rest;
            let m = figures_value(whole + frac_digits(frac));
            let e = if down == Some(true) {
                -(figures_value(power) as int)
            } else {
                figures_value(power) as int
            } - frac_digits(frac).len();
            match general_value(s) {
                Some(v) => if sign == Some(true) {
                    v <= 0 && decimal_rounds_to(m, e, (-v) as nat)
                } else {
                    v >= 0 && decimal_rounds_to(m, e, v as nat)
                },
                None => false,
            }
        }),
{
    let tail = exponent_text(capital_e, down, power) + rest;
    exponents_read_as_written(capital_e, down, power, rest);
    doubles_read_as_written(blanks, sign, whole, frac, tail);
    assert(blanks + sign_text(sign) + unsigned_text(whole, frac) + exponent_text(
        capital_e,
        down,
        power,
    ) + rest =~= blanks + sign_text(sign) + unsigned_text(whole, frac) + tail);
}

/// Without a digit, with or without a sign and a point, there is no number.
pub proof fn without_digits_no_number(blanks: Seq<u8>, sign: Option<bool>, point: bool, rest: Seq<u8>)
    requires
        are_spaces(blanks),
        starts_without_figure(rest),
        point || starts_otherwise(rest, 0x2e),
        sign is None && !point ==> starts_without_space(rest) && starts_without_sign(rest),
    ensures
        general_value(
            blanks + sign_text(sign) + (if point {
                seq![0x2eu8]
            } else {
                Seq::empty()
            }) + rest,
        ) is None,
        human_value(
            blanks + sign_text(sign) + (if point {
                seq![0x2eu8]
            } else {
                Seq::empty()
            }) + rest,
        ) == 0,
{
    let none = Seq::<u8>::empty();
    let frac: Option<Seq<u8>> = if point {
        Some(none)
    } else {
        None
    };
    let dot: Seq<u8> = if point {
        seq![0x2eu8]
    } else {
        Seq::empty()
    };
    assert(unsigned_text(none, frac) =~= dot);
    lemma_signed(blanks, sign, none, frac, rest);
}

/// Blanks before a number do not matter.
pub proof fn leading_blanks_do_not_matter(blanks: Seq<u8>, s: Seq<u8>)
    requires
        are_spaces(blanks),
    ensures
        general_value(blanks + s) == general_value(s),
        human_value(blanks + s) == human_value(s),
{
    let n = lead(s, blank());
    lemma_lead(s, blank());
    let run = s.take(n);
    let t = s.skip(n);
    assert(s =~= run + t);
    assert(blanks + s =~= (blanks + run) + t);
    assert forall|k: int| 0 <= k < (blanks + run).len() implies (blank())(
        #[trigger] (blanks + run)[k],
    ) by {
        if k < blanks.len() {
            assert(is_space(blanks[k]));
        } else {
            assert(run[k - blanks.len()] == s[k - blanks.len()]);
        }
    }
    lemma_run_in_front(blanks + run, t, blank());
    assert(past(blanks + s, blank()) == past(s, blank()));
    assert(signed_number(blanks + s) == signed_number(s));
    assert(behind_number(blanks + s) == behind_number(s));
    assert(human_power(blanks + s) == human_power(s));
}

/// Under `-g` what is no number comes first, and numbers go by their values.
pub proof fn general_goes_by_value(a: Seq<u8>, b: Seq<u8>)
    ensures
        general_value(a) is None && general_value(b) is None ==> general_order(a, b)
            == Ordering::Equal,
        general_value(a) is None && general_value(b) is Some ==> general_order(a, b)
            == Ordering::Less && general_order(b, a) == Ordering::Greater,
        general_value(a) is Some && general_value(b) is Some ==> {
            let (x, y) = (general_value(a)->0, general_value(b)->0);
            &&& general_order(a, b) == Ordering::Less <==> x < y
            &&& general_order(a, b) == Ordering::Equal <==> x == y
        },
{
}

/// The letters of `KMGTPEZY` in turn stand for 1024, 1024^2 and so on, and `k` does
/// for 1024 too.
pub open spec fn size_letter(k: nat) -> u8 {
    seq![0x4bu8, 0x4du8, 0x47u8, 0x54u8, 0x50u8, 0x45u8, 0x5au8, 0x59u8][k - 1]
}

/// A size of double precision value `b` is multiplied by `1024^k`, and the result is
/// rounded; infinity stays infinity.
pub open spec fn scaled_to(b: nat, k: nat, v: nat) -> bool {
    if b == 0x7ff0_0000_0000_0000 {
        v == b
    } else {
        rounds_to(double_units(b) * pow2(10 * k), pow2(1074), v)
    }
}

proof fn lemma_scaled(b: nat, k: nat)
    requires
        b <= INFINITE,
    ensures
        scaled_to(b, k, nearest_multiple(b, 10 * k)),
{
    grid_counts_units(b);
    lemma_pow2_pos(1074);
    nearest_rounds(grid(b) * pow2(10 * k), pow2(1074));
}

/// Only digits and points.
pub open spec fn are_figures_or_points(s: Seq<u8>) -> bool {
    forall|i: int| 0 <= i < s.len() ==> is_figure(#[trigger] s[i]) || s[i] == 0x2e
}

/// Under `-h` a letter of `KMGTPEZY` behind a number, and behind any more digits and
/// points that follow it, multiplies the number by that power of 1024; `k` counts as
/// `K`, and any other text there does nothing.
pub proof fn size_letters_scale(
    blanks: Seq<u8>,
    sign: Option<bool>,
    whole: Seq<u8>,
    frac: Option<Seq<u8>>,
    more: Seq<u8>,
    rest: Seq<u8>,
    k: nat,
)
    requires
        are_spaces(blanks),
        are_figures(whole),
        are_figures(frac_digits(frac)),
        ends_number(frac, more + rest),
        are_figures_or_points(more),
        starts_without_figure(rest),
        starts_otherwise(rest, 0x2e),
        whole.len() + frac_digits(frac).len() > 0,
        k <= 8,
        k == 0 ==> starts_otherwise(rest, 0x6b) && forall|j: nat|
            1 <= j <= 8 ==> starts_otherwise(rest, #[trigger] size_letter(j)),
        k > 0 ==> rest.len() > 0 && (rest[0] == size_letter(k) || k == 1 && rest[0] == 0x6b),
    ensures
        ({
            let s = blanks + sign_text(sign) + unsigned_text(whole, frac) + (more + rest);
            match general_value(s) {
                Some(v) => if v < 0 {
                    human_value(s) <= 0 && scaled_to((-v) as nat, k, (-human_value(s)) as nat)
                } else {
                    human_value(s) >= 0 && scaled_to(v as nat, k, human_value(s) as nat)
                },
                None => false,
            }
        }),
{
    let s = blanks + sign_text(sign) + unsigned_text(whole, frac) + (more + rest);
    lemma_signed(blanks, sign, whole, frac, more + rest);
    doubles_read_as_written(blanks, sign, whole, frac, more + rest);
    let number = unsigned_text(whole, frac);
    let run = number + more;
    assert forall|i: int| 0 <= i < run.len() implies (digit_or_point())(#[trigger] run[i]) by {
        if i < whole.len() {
            assert(run[i] == whole[i] && is_figure(whole[i]));
        } else if i < number.len() {
            assert(run[i] == number[i]);
            if i > whole.len() {
                assert(run[i] == frac_digits(frac)[i - whole.len() - 1]);
                assert(is_figure(frac_digits(frac)[i - whole.len() - 1]));
            }
        } else {
            assert(run[i] == more[i - number.len()]);
        }
    }
    lemma_run_in_front(run, rest, digit_or_point());
    assert(number + (more + rest) =~= run + rest);
    assert(human_power(s) == k) by {
        if k == 0 && rest.len() > 0 {
            assert(rest[0] != size_letter(1) && rest[0] != size_letter(2) && rest[0] != size_letter(
                3,
            ) && rest[0] != size_letter(4) && rest[0] != size_letter(5) && rest[0] != size_letter(6)
                && rest[0] != size_letter(7) && rest[0] != size_letter(8));
        }
    }
    let v = general_value(s)->0;
    if v < 0 {
        lemma_scaled((-v) as nat, k);
    } else {
        lemma_scaled(v as nat, k);
    }
}

/// Under `-h` sizes go by their values.
pub proof fn sizes_go_by_value(a: Seq<u8>, b: Seq<u8>)
    ensures
        human_order(a, b) == Ordering::Less <==> human_value(a) < human_value(b),
        human_order(a, b) == Ordering::Equal <==> human_value(a) == human_value(b),
{
}

} // verus!
