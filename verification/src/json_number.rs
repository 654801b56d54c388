//! JSON numbers: integers and double precision values, compared by value.

use crate::binary64::{grid, grid_is_increasing, FRACTIONS};
use vstd::arithmetic::power2::{
    lemma2_to64,
    lemma2_to64_rest,
    lemma_pow2_adds,
    lemma_pow2_pos,
    lemma_pow2_strictly_increases,
    pow2,
};
use vstd::prelude::*;

verus! {

/// The bit that marks a negative double precision value.
pub const SIGN: u64 = 0x8000_0000_0000_0000;

/// A number as it was read: what it is as a signed and as an unsigned integer of 64
/// bits, where it is one, and the bits of its double precision value.
#[derive(Clone, Copy, Debug, PartialEq, Eq, Structural)]
pub struct JsonNumber {
    /// The number as a signed integer.
    pub signed: Option<i64>,
    /// The number as an unsigned integer.
    pub unsigned: Option<u64>,
    /// The bits of its double precision value.
    pub double: Option<u64>,
}

/// What a number is compared by.
pub struct NumberView {
    /// Its value, times 2^1074.
    pub value: int,
    /// Whether it is the negative zero, which comes before zero.
    pub minus_zero: bool,
}

/// What an integer is compared by.
pub open spec fn integer_view(n: int) -> NumberView {
    NumberView { value: n * pow2(1074), minus_zero: false }
}

/// What a double precision value, given by its bits, is compared by.
pub open spec fn double_view(bits: u64) -> NumberView {
    let m = grid((bits % SIGN) as nat) as int;
    NumberView {
        value: if bits >= SIGN {
            -m
        } else {
            m
        },
        minus_zero: bits == SIGN,
    }
}

/// `a` comes before `b`.
pub open spec fn number_before(a: NumberView, b: NumberView) -> bool {
    a.value < b.value || a.value == b.value && a.minus_zero && !b.minus_zero
}

/// Neither of two numbers comes before the other.
pub open spec fn number_same(a: NumberView, b: NumberView) -> bool {
    a.value == b.value && a.minus_zero == b.minus_zero
}

proof fn lemma_grid_order(a: nat, b: nat)
    ensures
        a < b <==> grid(a) < grid(b),
        a == b <==> grid(a) == grid(b),
{
    if a < b {
        grid_is_increasing(a, b);
    } else if b < a {
        grid_is_increasing(b, a);
    }
}

/// Only zero has the value 0.
proof fn lemma_grid_zero(b: nat)
    ensures
        grid(b) == 0 <==> b == 0,
{
    lemma_grid_order(0, b);
}

/// Whether double precision value `a` comes before `b`, and whether it is the same.
pub fn doubles_in_order(a: u64, b: u64) -> (r: (bool, bool))
    ensures
        r.0 == number_before(double_view(a), double_view(b)),
        r.1 == number_same(double_view(a), double_view(b)),
{
    proof {
        lemma_grid_order((a % SIGN) as nat, (b % SIGN) as nat);
        lemma_grid_zero((a % SIGN) as nat);
        lemma_grid_zero((b % SIGN) as nat);
    }
    let (p, q) = (a < SIGN, b < SIGN);
    let less: bool = if p && q {
        a < b
    } else if p {
        false
    } else if q {
        true
    } else {
        a > b
    };
    (less, a == b)
}

/// 2^n.
fn power(n: u64) -> (p: u128)
    requires
        n <= 127,
    ensures
        p == pow2(n as nat),
{
    let mut p: u128 = 1;
    let mut i: u64 = 0;
    proof {
        lemma2_to64();
    }
    while i < n
        invariant
            i <= n <= 127,
            p == pow2(i as nat),
        decreases n - i,
    {
        proof {
            lemma_pow2_adds(i as nat, 1);
            lemma2_to64();
            if i < 126 {
                lemma_pow2_strictly_increases(i as nat, 126);
            }
            lemma_powers();
        }
        p = p * 2;
        i += 1;
    }
    p
}

proof fn lemma_powers()
    ensures
        pow2(126) == 0x4000_0000_0000_0000_0000_0000_0000_0000,
        pow2(75) == 0x800_0000_0000_0000_0000,
        pow2(60) == 0x1000_0000_0000_0000,
{
    lemma2_to64();
    lemma2_to64_rest();
    lemma_pow2_adds(63, 63);
    lemma_pow2_adds(63, 12);
}

/// Whether the integer `m` is less than the double precision value with number `b`,
/// and whether it is the same.
fn magnitudes_in_order(m: u128, b: u64) -> (r: (bool, bool))
    requires
        b < SIGN,
    ensures
        r.0 == (m * pow2(1074) < grid(b as nat)),
        r.1 == (m * pow2(1074) == grid(b as nat)),
{
    let exponent: u64 = b / FRACTIONS;
    let fraction: u64 = b % FRACTIONS;
    let (e, q): (u64, u64) = if exponent == 0 {
        (0, fraction)
    } else {
        (exponent - 1, FRACTIONS + fraction)
    };
    let ghost (mm, qq) = (m as nat, q as nat);
    proof {
        lemma2_to64();
        assert(grid(b as nat) == qq * pow2(e as nat)) by {
            assert(qq * 1 == qq) by (nonlinear_arith);
        }
        lemma_powers();
    }
    if e >= 1074 {
        let s: u64 = e - 1074;
        proof {
            lemma_pow2_adds(s as nat, 1074);
            lemma_pow2_pos(1074);
            lemma_scaled(mm, qq, pow2(s as nat), pow2(1074));
        }
        if s > 75 {
            proof {
                lemma_pow2_adds(75, 1);
                if s > 76 {
                    lemma_pow2_strictly_increases(76, s as nat);
                }
                let w = pow2(s as nat);
                assert(qq * w > mm) by (nonlinear_arith)
                    requires
                        qq >= 0x10_0000_0000_0000,
                        w >= 0x1000_0000_0000_0000_0000,
                        mm <= 0xffff_ffff_ffff_ffff_ffff_ffff_ffff_ffff,
                ;
            }
            return (true, false);
        }
        let p: u128 = power(s);
        proof {
            if s < 75 {
                lemma_pow2_strictly_increases(s as nat, 75);
            }
            let w = p as nat;
            assert(qq * w <= 0xffff_ffff_ffff_ffff_ffff_ffff_ffff_ffff) by (nonlinear_arith)
                requires
                    qq < 0x20_0000_0000_0000,
                    w <= 0x800_0000_0000_0000_0000,
            ;
        }
        let v: u128 = (q as u128) * p;
        (m < v, m == v)
    } else {
        let s: u64 = 1074 - e;
        proof {
            lemma_pow2_adds(s as nat, e as nat);
            lemma_pow2_pos(e as nat);
            lemma_scaled(qq, mm, pow2(s as nat), pow2(e as nat));
        }
        if m == 0 {
            proof {
                let w = pow2(s as nat);
                assert(0 * w == 0) by (nonlinear_arith);
            }
            return (q > 0, q == 0);
        }
        if s > 60 || m >= 0x20_0000_0000_0000 {
            proof {
                lemma_pow2_pos(s as nat);
                let w = pow2(s as nat);
                if s > 60 {
                    lemma_pow2_strictly_increases(60, s as nat);
                }
                assert(mm * w > qq) by (nonlinear_arith)
                    requires
                        qq < 0x20_0000_0000_0000,
                        mm >= 1,
                        w >= 1,
                        w >= 0x1000_0000_0000_0000 || mm >= 0x20_0000_0000_0000,
                ;
            }
            return (false, false);
        }
        let p: u128 = power(s);
        proof {
            if s < 60 {
                lemma_pow2_strictly_increases(s as nat, 60);
            }
            let w = p as nat;
            assert(mm * w <= 0xffff_ffff_ffff_ffff_ffff_ffff_ffff_ffff) by (nonlinear_arith)
                requires
                    mm < 0x20_0000_0000_0000,
                    w <= 0x1000_0000_0000_0000,
            ;
        }
        let v: u128 = m * p;
        (v < q as u128, v == q as u128)
    }
}

/// `a` and `b * w` compare as `a * u` and `b * (w * u)` do.
proof fn lemma_scaled(a: nat, b: nat, w: nat, u: nat)
    requires
        u > 0,
    ensures
        a * u < b * (w * u) <==> a < b * w,
        a * u == b * (w * u) <==> a == b * w,
        a * u > b * (w * u) <==> a > b * w,
{
    let c = b * w;
    assert(b * (w * u) == c * u) by (nonlinear_arith)
        requires
            c == b * w,
    ;
    assert(a < c ==> a * u < c * u) by (nonlinear_arith)
        requires
            u > 0,
    ;
    assert(a > c ==> a * u > c * u) by (nonlinear_arith)
        requires
            u > 0,
    ;
}

/// Whether the integer `n` comes before the double precision value with these bits,
/// and whether it is the same.
pub fn integer_and_double(n: i128, bits: u64) -> (r: (bool, bool))
    ensures
        r.0 == number_before(integer_view(n as int), double_view(bits)),
        r.1 == number_same(integer_view(n as int), double_view(bits)),
{
    let b: u64 = bits % SIGN;
    let negative: bool = bits >= SIGN;
    let ghost p = pow2(1074);
    proof {
        lemma_pow2_pos(1074);
        lemma_grid_zero(b as nat);
        assert(n < 0 ==> n * p < 0) by (nonlinear_arith)
            requires
                p > 0,
        ;
        assert(n > 0 ==> n * p > 0) by (nonlinear_arith)
            requires
                p > 0,
        ;
        assert(0 * p == 0) by (nonlinear_arith);
        assert(n * p == -((-n) * p)) by (nonlinear_arith);
    }
    if n < 0 {
        if !negative || b == 0 {
            return (true, false);
        }
        let m: u128 = if n == i128::MIN {
            0x8000_0000_0000_0000_0000_0000_0000_0000
        } else {
            (-n) as u128
        };
        let (less, same) = magnitudes_in_order(m, b);
        (!less && !same, same)
    } else {
        if negative {
            return (false, false);
        }
        magnitudes_in_order(n as u128, b)
    }
}

/// Whether the integer `a` comes before `b`, and whether it is the same.
pub fn integers_in_order(a: i128, b: i128) -> (r: (bool, bool))
    ensures
        r.0 == number_before(integer_view(a as int), integer_view(b as int)),
        r.1 == number_same(integer_view(a as int), integer_view(b as int)),
{
    proof {
        let p = pow2(1074);
        lemma_pow2_pos(1074);
        assert(a < b ==> a * p < b * p) by (nonlinear_arith)
            requires
                p > 0,
        ;
        assert(a > b ==> a * p > b * p) by (nonlinear_arith)
            requires
                p > 0,
        ;
    }
    (a < b, a == b)
}

} // verus!
