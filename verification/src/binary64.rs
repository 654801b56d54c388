//! Rounding to double precision: the values of the binary64 format in their
//! order, and the one nearest to a quotient.
//!
//! The non-negative values are numbered from 0 upwards; the number of a value is
//! its bit pattern. Infinity stands behind the largest finite value, where the
//! next step of the format would lie.

use crate::bignum::Natural;
use vstd::arithmetic::power2::{
    lemma2_to64,
    lemma2_to64_rest,
    lemma_pow2_adds,
    lemma_pow2_pos,
    pow2,
};
use vstd::prelude::*;

verus! {

/// The number of fractions that share an exponent.
pub const FRACTIONS: u64 = 0x10_0000_0000_0000;

/// The number of infinity.
pub const INFINITE: u64 = 0x7ff0_0000_0000_0000;

/// The value with number `b`, times 2^1074.
pub open spec fn grid(b: nat) -> nat {
    let exponent = b / (FRACTIONS as nat);
    let fraction = b % (FRACTIONS as nat);
    if exponent == 0 {
        fraction
    } else {
        (FRACTIONS as nat + fraction) * pow2((exponent - 1) as nat)
    }
}

/// How far `num / den` is from value `b`, times `den * 2^1074`.
pub open spec fn distance(num: nat, den: nat, b: nat) -> int {
    let x = num * pow2(1074);
    let y = grid(b) * den;
    if x >= y {
        x - y
    } else {
        y - x
    }
}

/// No value is nearer to `num / den` than `b`, and a tie goes to the even number.
pub open spec fn is_nearest(num: nat, den: nat, b: nat) -> bool {
    &&& b <= INFINITE
    &&& forall|c: nat|
        c <= INFINITE && c != b ==> {
            ||| distance(num, den, b) < #[trigger] distance(num, den, c)
            ||| distance(num, den, b) == distance(num, den, c) && b % 2 == 0
        }
}

/// The number of the value nearest to `num / den`.
pub open spec fn nearest(num: nat, den: nat) -> nat {
    choose|b: nat| is_nearest(num, den, b)
}

/// Steps from a value with `q` units of 2^(e-1).
pub proof fn lemma_grid_at(e: nat, q: nat)
    requires
        e >= 1,
        q <= 2 * FRACTIONS,
        q >= FRACTIONS || e == 1,
    ensures
        grid(((e - 1) * FRACTIONS + q) as nat) == q * pow2((e - 1) as nat),
{
    lemma2_to64();
    let b = ((e - 1) * FRACTIONS + q) as nat;
    let p = pow2((e - 1) as nat);
    if q < FRACTIONS {
        assert(b == q);
        assert(p == 1);
        assert(b / (FRACTIONS as nat) == 0 && b % (FRACTIONS as nat) == q);
        assert(q * 1 == q) by (nonlinear_arith);
    } else if q < 2 * FRACTIONS {
        assert(b / (FRACTIONS as nat) == e && b % (FRACTIONS as nat) == q - FRACTIONS);
    } else {
        assert(b / (FRACTIONS as nat) == e + 1 && b % (FRACTIONS as nat) == 0);
        lemma_pow2_adds(1, (e - 1) as nat);
        let f = FRACTIONS as nat;
        assert(f * (2 * p) == (2 * f) * p) by (nonlinear_arith);
    }
}

proof fn lemma_grid_step(b: nat)
    ensures
        grid(b) < grid(b + 1),
{
    let e = b / (FRACTIONS as nat);
    let m = b % (FRACTIONS as nat);
    let f = FRACTIONS as nat;
    assert(b == e * f + m);
    if e == 0 {
        lemma_grid_at(1, m);
        lemma_grid_at(1, m + 1);
        lemma2_to64();
        assert(m * 1 == m && (m + 1) * 1 == m + 1) by (nonlinear_arith);
    } else {
        lemma_grid_at(e, f + m);
        lemma_grid_at(e, f + m + 1);
        let p = pow2((e - 1) as nat);
        lemma_pow2_pos((e - 1) as nat);
        assert((f + m + 1) * p == (f + m) * p + p) by (nonlinear_arith);
    }
}

/// Values with larger numbers are larger.
pub proof fn grid_is_increasing(b: nat, c: nat)
    requires
        b < c,
    ensures
        grid(b) < grid(c),
    decreases c,
{
    lemma_grid_step((c - 1) as nat);
    if b < c - 1 {
        grid_is_increasing(b, (c - 1) as nat);
    }
}

proof fn lemma_scaled_grid_is_increasing(b: nat, c: nat, den: nat)
    requires
        b < c,
        den > 0,
    ensures
        grid(b) * den < grid(c) * den,
{
    grid_is_increasing(b, c);
    let (x, y) = (grid(b), grid(c));
    assert(x * den < y * den) by (nonlinear_arith)
        requires
            x < y,
            den > 0,
    ;
}

/// There is only one nearest value.
pub proof fn nearest_is_unique(num: nat, den: nat, b: nat, c: nat)
    requires
        den > 0,
        is_nearest(num, den, b),
        is_nearest(num, den, c),
    ensures
        b == c,
{
    if b != c {
        let (lo, hi) = if b < c {
            (b, c)
        } else {
            (c, b)
        };
        assert(distance(num, den, b) == distance(num, den, c));
        assert(lo % 2 == 0 && hi % 2 == 0);
        let mid = (lo + 1) as nat;
        assert(mid < hi);
        lemma_scaled_grid_is_increasing(lo, mid, den);
        lemma_scaled_grid_is_increasing(mid, hi, den);
        assert(distance(num, den, mid) < distance(num, den, lo));
    }
}

/// Every quotient between two neighbouring values has the nearer one, or the
/// even one of a tie, as its nearest value.
pub proof fn lemma_between(num: nat, den: nat, below: nat, up: bool)
    requires
        den > 0,
        below < INFINITE,
        grid(below) * den <= num * pow2(1074) < grid(below + 1) * den,
        ({
            let twice = 2 * (num * pow2(1074) - grid(below) * den);
            let gap = grid(below + 1) * den - grid(below) * den;
            up == (twice > gap || twice == gap && below % 2 == 1)
        }),
    ensures
        is_nearest(num, den, if up { (below + 1) as nat } else { below }),
{
    let b: nat = if up {
        (below + 1) as nat
    } else {
        below
    };
    assert forall|c: nat| c <= INFINITE && c != b implies {
        ||| distance(num, den, b) < #[trigger] distance(num, den, c)
        ||| distance(num, den, b) == distance(num, den, c) && b % 2 == 0
    } by {
        if c < below {
            lemma_scaled_grid_is_increasing(c, below, den);
        }
        if c > below + 1 {
            lemma_scaled_grid_is_increasing((below + 1) as nat, c, den);
        }
    }
}

/// Quotients beyond every finite value round to infinity.
pub proof fn lemma_beyond(num: nat, den: nat)
    requires
        den > 0,
        grid(INFINITE as nat) * den <= num * pow2(1074),
    ensures
        is_nearest(num, den, INFINITE as nat),
{
    assert forall|c: nat| c <= INFINITE && c != INFINITE implies {
        ||| distance(num, den, INFINITE as nat) < #[trigger] distance(num, den, c)
        ||| distance(num, den, INFINITE as nat) == distance(num, den, c) && INFINITE as nat % 2
            == 0
    } by {
        lemma_scaled_grid_is_increasing(c, INFINITE as nat, den);
    }
}

/// Whether `num / den` is at least the smallest value with exponent `e`, which is
/// 2^(51+e-1074).
fn reaches(num: &Natural, den: &Natural, e: usize) -> (r: bool)
    requires
        1 <= e <= 2047,
    ensures
        r == (num@ * pow2(1074) >= den@ * pow2((51 + e) as nat)),
{
    if e <= 1023 {
        let a = num.shifted(1023 - e);
        proof {
            let s = pow2((51 + e) as nat);
            lemma_pow2_pos((51 + e) as nat);
            lemma_pow2_adds((1023 - e) as nat, (51 + e) as nat);
            lemma_common_factor(a@, den@, s);
            let (x, y) = (num@, pow2((1023 - e) as nat));
            assert((x * y) * s == x * (y * s)) by (nonlinear_arith);
        }
        !a.less(den)
    } else {
        let b = den.shifted(e - 1023);
        proof {
            let s = pow2(1074);
            lemma_pow2_pos(1074);
            lemma_pow2_adds((e - 1023) as nat, 1074);
            lemma_common_factor(num@, b@, s);
            let (x, y) = (den@, pow2((e - 1023) as nat));
            assert((x * y) * s == x * (y * s)) by (nonlinear_arith);
        }
        !num.less(&b)
    }
}

proof fn lemma_common_factor(a: nat, b: nat, s: nat)
    requires
        s > 0,
    ensures
        a < b <==> a * s < b * s,
        a == b ==> a * s == b * s,
{
    assert(a < b ==> a * s < b * s) by (nonlinear_arith)
        requires
            s > 0,
    ;
    assert(a >= b ==> a * s >= b * s) by (nonlinear_arith);
}

/// The number of the value nearest to `num / den`.
pub fn round_quotient(num: &Natural, den: &Natural) -> (b: u64)
    requires
        den@ > 0,
    ensures
        is_nearest(num@, den@, b as nat),
        b == nearest(num@, den@),
{
    let b: u64 = round_by_division(num, den);
    proof {
        nearest_is_unique(num@, den@, b as nat, nearest(num@, den@));
    }
    b
}

fn round_by_division(num: &Natural, den: &Natural) -> (b: u64)
    requires
        den@ > 0,
    ensures
        is_nearest(num@, den@, b as nat),
{
    proof {
        lemma2_to64();
        lemma2_to64_rest();
    }
    if reaches(num, den, 2047) {
        proof {
            lemma_grid_at(2046, 2 * FRACTIONS as nat);
            lemma_pow2_adds(53, 2045);
            let d = den@;
            let p = pow2(2098);
            assert(d * p == p * d) by (nonlinear_arith);
            lemma_beyond(num@, den@);
        }
        return INFINITE;
    }
    let mut e: usize = 1;
    let mut above: usize = 2047;
    while above - e > 1
        invariant
            1 <= e < above <= 2047,
            e == 1 || num@ * pow2(1074) >= den@ * pow2((51 + e) as nat),
            num@ * pow2(1074) < den@ * pow2((51 + above) as nat),
        decreases above - e,
    {
        let mid: usize = e + (above - e) / 2;
        if reaches(num, den, mid) {
            e = mid;
        } else {
            above = mid;
        }
    }
    let (a, b) = if e <= 1023 {
        (num.shifted(1023 - e), den.shifted(0))
    } else {
        (num.shifted(0), den.shifted(e - 1023))
    };
    let ghost s: nat = if e <= 1023 {
        pow2((51 + e) as nat)
    } else {
        pow2(1074)
    };
    proof {
        lemma_aligned(num@, den@, e as nat, a@, b@, s);
        lemma_pow2_adds(1, (51 + e) as nat);
        let (d, p) = (den@, pow2((51 + e) as nat));
        assert(d * (2 * p) == 2 * (d * p)) by (nonlinear_arith);
        lemma_common_factor(a@, 2 * b@, s);
        let y = b@;
        assert((2 * y) * s == 2 * (y * s)) by (nonlinear_arith);
        assert(a@ < 2 * b@);
    }
    let (q, r) = divide(&a, &b);
    let up: bool = b.less(&r) || !r.less(&b) && q % 2 == 1;
    let below: u64 = (e as u64 - 1) * FRACTIONS + q;
    proof {
        lemma_rounding(num@, den@, e as nat, a@, b@, s, q as nat, r@, up);
    }
    if up {
        below + 1
    } else {
        below
    }
}

proof fn lemma_aligned(num: nat, den: nat, e: nat, a: nat, b: nat, s: nat)
    requires
        1 <= e <= 2046,
        e <= 1023 ==> a == num * pow2((1023 - e) as nat) && b == den * pow2(0) && s == pow2(51 + e),
        e > 1023 ==> a == num * pow2(0) && b == den * pow2((e - 1023) as nat) && s == pow2(1074),
    ensures
        a * s == num * pow2(1074),
        b * s == den * pow2(51 + e),
        s > 0,
{
    lemma2_to64();
    assert(num * 1 == num && den * 1 == den) by (nonlinear_arith);
    if e <= 1023 {
        lemma_pow2_pos(51 + e);
        let y = pow2((1023 - e) as nat);
        lemma_pow2_adds((1023 - e) as nat, 51 + e);
        assert((num * y) * s == num * (y * s)) by (nonlinear_arith);
    } else {
        lemma_pow2_pos(1074);
        let y = pow2((e - 1023) as nat);
        lemma_pow2_adds((e - 1023) as nat, 1074);
        assert((den * y) * s == den * (y * s)) by (nonlinear_arith);
    }
}

/// The 53 leading bits of `a / b`, and twice what is left.
fn divide(a: &Natural, b: &Natural) -> (qr: (u64, Natural))
    requires
        a@ < 2 * b@,
    ensures
        a@ * pow2(53) == 2 * qr.0 * b@ + qr.1@,
        qr.1@ < 2 * b@,
        qr.0 < 2 * FRACTIONS,
{
    let mut q: u64 = 0;
    let mut r = a.shifted(0);
    let mut j: usize = 0;
    proof {
        lemma2_to64();
        lemma2_to64_rest();
        let (x, y) = (a@, b@);
        assert(x * 1 == x && 2 * 0 * y == 0) by (nonlinear_arith);
    }
    while j < 53
        invariant
            j <= 53,
            a@ * pow2(j as nat) == 2 * q * b@ + r@,
            r@ < 2 * b@,
            q < pow2(j as nat),
            pow2(53) == 2 * FRACTIONS,
        decreases 53 - j,
    {
        proof {
            lemma2_to64();
            lemma_pow2_adds(1, j as nat);
            lemma_pow2_adds((j + 1) as nat, (52 - j) as nat);
            lemma_pow2_pos((52 - j) as nat);
            let (x, y) = (pow2((j + 1) as nat), pow2((52 - j) as nat));
            assert(x <= x * y) by (nonlinear_arith)
                requires
                    y >= 1,
            ;
            let (u, p, w) = (a@ as int, pow2(j as nat) as int, b@ as int);
            let k = q as int;
            assert(u * (2 * p) == 2 * (u * p)) by (nonlinear_arith);
            assert(2 * (2 * k) * w == 2 * (2 * k * w)) by (nonlinear_arith);
            assert(2 * (2 * k + 1) * w == 2 * (2 * k * w) + 2 * w) by (nonlinear_arith);
            let m = r@;
            assert(m * 2 + 0 == 2 * m);
        }
        if r.less(b) {
            q = 2 * q;
            r = r.times_plus(2, 0);
        } else {
            q = 2 * q + 1;
            r = r.minus(b).times_plus(2, 0);
        }
        j += 1;
    }
    (q, r)
}

proof fn lemma_rounding(num: nat, den: nat, e: nat, a: nat, b: nat, s: nat, q: nat, r: nat, up: bool)
    requires
        den > 0,
        s > 0,
        1 <= e <= 2046,
        a * s == num * pow2(1074),
        b * s == den * pow2(51 + e),
        e == 1 || num * pow2(1074) >= den * pow2(51 + e),
        a * pow2(53) == 2 * q * b + r,
        r < 2 * b,
        q < 2 * FRACTIONS,
        up == (b < r || b == r && q % 2 == 1),
    ensures
        ({
            let below = ((e - 1) * FRACTIONS + q) as nat;
            is_nearest(num, den, if up { (below + 1) as nat } else { below })
        }),
{
    lemma2_to64();
    lemma2_to64_rest();
    let n = (num * pow2(1074)) as int;
    let d = (den * pow2((e - 1) as nat)) as int;
    let f = FRACTIONS as int;
    let (ai, bi, si, qi, ri) = (a as int, b as int, s as int, q as int, r as int);
    // b * s == d * 2^52
    lemma_pow2_adds(52, (e - 1) as nat);
    let (di, p) = (den as int, pow2((e - 1) as nat) as int);
    assert(di * (f * p) == di * p * f) by (nonlinear_arith);
    assert(bi * si == d * f);
    // (n - q * d) * 2^53 == r * s
    assert((ai * (2 * f)) * si == (2 * qi * bi + ri) * si);
    assert((ai * (2 * f)) * si == (ai * si) * (2 * f)) by (nonlinear_arith);
    assert((2 * qi * bi + ri) * si == 2 * qi * (bi * si) + ri * si) by (nonlinear_arith);
    assert(2 * qi * (d * f) == (qi * d) * (2 * f)) by (nonlinear_arith);
    let left = n - qi * d;
    assert(n * (2 * f) - (qi * d) * (2 * f) == left * (2 * f)) by (nonlinear_arith)
        requires
            left == n - qi * d,
    ;
    assert(left * (2 * f) == ri * si);
    // 0 <= n - q * d < d
    assert(ri * si >= 0) by (nonlinear_arith)
        requires
            ri >= 0,
            si > 0,
    ;
    assert(ri * si < 2 * (bi * si)) by (nonlinear_arith)
        requires
            ri < 2 * bi,
            si > 0,
    ;
    assert(2 * (d * f) == d * (2 * f)) by (nonlinear_arith);
    assert(0 <= left < d);
    // Twice the rest against d is r against b.
    lemma_common_factor(b, r, s);
    lemma_common_factor(r, b, s);
    assert(2 * left > d <==> r > b);
    assert(2 * left == d <==> r == b);
    // q is in the range of its exponent.
    if e > 1 && q < FRACTIONS {
        assert(qi * d <= (f - 1) * d) by (nonlinear_arith)
            requires
                qi <= f - 1,
                d >= 0,
        ;
        assert((f - 1) * d == d * f - d) by (nonlinear_arith);
        assert(false);
    }
    let below = ((e - 1) * FRACTIONS + q) as nat;
    lemma_grid_at(e, q);
    lemma_grid_at(e, q + 1);
    assert((qi * p) * di == qi * (di * p)) by (nonlinear_arith);
    assert(((qi + 1) * p) * di == qi * (di * p) + di * p) by (nonlinear_arith);
    assert(grid(below) * den == qi * d);
    assert(grid((below + 1) as nat) * den == qi * d + d);
    assert(below % 2 == q % 2);
    lemma_between(num, den, below, up);
}

} // verus!
