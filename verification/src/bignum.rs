//! Natural numbers of any size.

use vstd::arithmetic::power2::{lemma2_to64, lemma_pow2_adds, lemma_pow2_pos, pow2};
use vstd::prelude::*;

verus! {

/// One more than the largest limb.
pub const LIMB: u64 = 0x1_0000_0000;

/// What the limb at position `i` is multiplied by.
pub open spec fn weight(i: nat) -> nat {
    pow2(32 * i)
}

/// The number that limbs, least significant first, stand for.
pub open spec fn magnitude(v: Seq<u32>) -> nat
    decreases v.len(),
{
    if v.len() == 0 {
        0
    } else {
        magnitude(v.drop_last()) + v.last() as nat * weight((v.len() - 1) as nat)
    }
}

proof fn lemma_weight(i: nat)
    ensures
        weight(0) == 1,
        weight(i + 1) == LIMB * weight(i),
        weight(i) > 0,
{
    lemma2_to64();
    lemma_pow2_adds(32, 32 * i);
    lemma_pow2_pos(32 * i);
    assert(32 + 32 * i == 32 * (i + 1));
}

pub proof fn lemma_magnitude_bound(v: Seq<u32>)
    ensures
        magnitude(v) < weight(v.len()),
    decreases v.len(),
{
    lemma_weight(0);
    if v.len() > 0 {
        let n = (v.len() - 1) as nat;
        lemma_magnitude_bound(v.drop_last());
        lemma_weight(n);
        let x = v.last() as nat;
        let w = weight(n);
        assert(x * w <= (LIMB - 1) * w) by (nonlinear_arith)
            requires
                x <= LIMB - 1,
                LIMB >= 1,
        ;
        assert((LIMB - 1) * w == LIMB * w - w) by (nonlinear_arith);
    }
}

proof fn lemma_take_one_more(v: Seq<u32>, i: int)
    requires
        0 <= i < v.len(),
    ensures
        magnitude(v.take(i + 1)) == magnitude(v.take(i)) + v[i] as nat * weight(i as nat),
{
    assert(v.take(i + 1).drop_last() =~= v.take(i));
}

/// A number as limbs, without a zero limb at the top.
pub struct Natural {
    limbs: Vec<u32>,
}

impl View for Natural {
    type V = nat;

    closed spec fn view(&self) -> nat {
        magnitude(self.limbs@)
    }
}

impl Natural {
    #[verifier::type_invariant]
    spec fn is_trimmed(&self) -> bool {
        self.limbs@.len() > 0 ==> self.limbs@.last() != 0
    }

    fn trim(limbs: Vec<u32>) -> (r: Natural)
        ensures
            r@ == magnitude(limbs@),
    {
        let mut v = limbs;
        while v.len() > 0 && v[v.len() - 1] == 0
            invariant
                magnitude(v@) == magnitude(limbs@),
            decreases v@.len(),
        {
            proof {
                let w = weight((v@.len() - 1) as nat);
                assert(0 * w == 0) by (nonlinear_arith);
            }
            let ghost before = v@;
            v.pop();
            assert(v@ =~= before.drop_last());
        }
        Natural { limbs: v }
    }

    /// A number of one limb.
    pub fn from_limb(x: u32) -> (r: Natural)
        ensures
            r@ == x,
    {
        let mut v: Vec<u32> = Vec::new();
        v.push(x);
        proof {
            lemma_weight(0);
            assert(v@.drop_last() =~= Seq::<u32>::empty());
            assert(x as nat * 1 == x) by (nonlinear_arith);
            reveal_with_fuel(magnitude, 2);
        }
        Natural::trim(v)
    }

    /// `self * m + a`.
    pub fn times_plus(&self, m: u32, a: u32) -> (r: Natural)
        ensures
            r@ == self@ * m + a,
    {
        let mut out: Vec<u32> = Vec::new();
        let mut carry: u64 = a as u64;
        let mut i: usize = 0;
        let ghost v = self.limbs@;
        proof {
            lemma_weight(0);
            assert(v.take(0) =~= Seq::<u32>::empty());
            assert(carry * weight(0) == a) by (nonlinear_arith)
                requires
                    carry == a,
                    weight(0) == 1,
            ;
            assert(magnitude(v.take(0)) * m == 0) by (nonlinear_arith)
                requires
                    magnitude(v.take(0)) == 0,
            ;
        }
        while i < self.limbs.len()
            invariant
                v == self.limbs@,
                i <= v.len(),
                out@.len() == i,
                carry < LIMB,
                magnitude(out@) + carry * weight(i as nat) == magnitude(v.take(i as int)) * m + a,
            decreases v.len() - i,
        {
            let x: u64 = self.limbs[i] as u64;
            assert(x * (m as u64) <= (LIMB - 1) * (LIMB - 1)) by (nonlinear_arith)
                requires
                    x <= LIMB - 1,
                    m <= LIMB - 1,
            ;
            let t: u64 = x * (m as u64) + carry;
            let ghost before = out@;
            out.push((t % LIMB) as u32);
            proof {
                assert(out@.drop_last() =~= before);
                lemma_weight(i as nat);
                lemma_take_one_more(v, i as int);
                lemma_multiply_step(
                    x as int,
                    m as int,
                    carry as int,
                    t as int,
                    weight(i as nat) as int,
                    magnitude(v.take(i as int)) as int,
                    magnitude(before) as int,
                    a as int,
                );
            }
            carry = t / LIMB;
            i += 1;
        }
        assert(v.take(i as int) =~= v);
        let ghost before = out@;
        out.push(carry as u32);
        assert(out@.drop_last() =~= before);
        Natural::trim(out)
    }

    /// `self * 2^32n`.
    fn shifted_limbs(&self, n: usize) -> (r: Natural)
        ensures
            r@ == self@ * weight(n as nat),
    {
        let mut out: Vec<u32> = Vec::new();
        let mut i: usize = 0;
        while i < n
            invariant
                i <= n,
                out@.len() == i,
                magnitude(out@) == 0,
            decreases n - i,
        {
            let ghost before = out@;
            out.push(0);
            proof {
                assert(out@.drop_last() =~= before);
                let w = weight(i as nat);
                assert(0 * w == 0) by (nonlinear_arith);
            }
            i += 1;
        }
        let mut j: usize = 0;
        let ghost v = self.limbs@;
        assert(v.take(0) =~= Seq::<u32>::empty());
        proof {
            let w = weight(n as nat);
            assert(0 * w == 0) by (nonlinear_arith);
        }
        while j < self.limbs.len()
            invariant
                v == self.limbs@,
                j <= v.len(),
                out@.len() == n + j,
                magnitude(out@) == magnitude(v.take(j as int)) * weight(n as nat),
            decreases v.len() - j,
        {
            let ghost before = out@;
            out.push(self.limbs[j]);
            proof {
                assert(out@.drop_last() =~= before);
                lemma_take_one_more(v, j as int);
                lemma_pow2_adds(32 * j as nat, 32 * n as nat);
                let (x, y, w, p) = (
                    v[j as int] as int,
                    weight(j as nat) as int,
                    weight(n as nat) as int,
                    magnitude(v.take(j as int)) as int,
                );
                assert((p + x * y) * w == p * w + x * (y * w)) by (nonlinear_arith);
                assert(32 * (n + j) == 32 * j + 32 * n);
            }
            j += 1;
        }
        assert(v.take(j as int) =~= v);
        Natural::trim(out)
    }

    /// `self * 2^n`.
    pub fn shifted(&self, n: usize) -> (r: Natural)
        ensures
            r@ == self@ * pow2(n as nat),
    {
        let up = self.shifted_limbs(n / 32);
        let rest: usize = n % 32;
        let mut m: u32 = 1;
        let mut i: usize = 0;
        proof {
            lemma2_to64();
        }
        while i < rest
            invariant
                i <= rest < 32,
                m == pow2(i as nat),
            decreases rest - i,
        {
            proof {
                lemma2_to64();
                lemma_pow2_adds(1, i as nat);
                lemma_small_power((i + 1) as nat);
            }
            m = m * 2;
            i += 1;
        }
        proof {
            lemma_pow2_adds(32 * (n / 32) as nat, rest as nat);
            let (x, y, z) = (self@ as int, weight((n / 32) as nat) as int, m as int);
            assert((x * y) * z == x * (y * z)) by (nonlinear_arith);
        }
        up.times_plus(m, 0)
    }

    /// Whether `self` is less than `other`.
    pub fn less(&self, other: &Natural) -> (r: bool)
        ensures
            r == (self@ < other@),
    {
        proof {
            use_type_invariant(self);
            use_type_invariant(other);
        }
        let ghost a = self.limbs@;
        let ghost b = other.limbs@;
        if self.limbs.len() != other.limbs.len() {
            proof {
                if a.len() < b.len() {
                    lemma_longer(a, b);
                } else {
                    lemma_longer(b, a);
                }
            }
            return self.limbs.len() < other.limbs.len();
        }
        let mut i: usize = self.limbs.len();
        assert(a.take(i as int) =~= a);
        assert(b.take(i as int) =~= b);
        while i > 0
            invariant
                a == self.limbs@,
                b == other.limbs@,
                a.len() == b.len(),
                i <= a.len(),
                self@ - other@ == magnitude(a.take(i as int)) - magnitude(b.take(i as int)),
            decreases i,
        {
            i -= 1;
            let x: u32 = self.limbs[i];
            let y: u32 = other.limbs[i];
            proof {
                lemma_take_one_more(a, i as int);
                lemma_take_one_more(b, i as int);
                lemma_magnitude_bound(a.take(i as int));
                lemma_magnitude_bound(b.take(i as int));
                if x < y {
                    lemma_top_decides(x as int, y as int, weight(i as nat) as int);
                }
                if y < x {
                    lemma_top_decides(y as int, x as int, weight(i as nat) as int);
                }
            }
            if x < y {
                return true;
            }
            if y < x {
                return false;
            }
        }
        proof {
            assert(a.take(0) =~= Seq::<u32>::empty());
            assert(b.take(0) =~= Seq::<u32>::empty());
        }
        false
    }

    /// `self - other`.
    pub fn minus(&self, other: &Natural) -> (r: Natural)
        requires
            other@ <= self@,
        ensures
            r@ == self@ - other@,
    {
        proof {
            use_type_invariant(self);
            use_type_invariant(other);
        }
        let ghost a = self.limbs@;
        let ghost b = other.limbs@;
        proof {
            if a.len() < b.len() {
                lemma_longer(a, b);
            }
        }
        let mut out: Vec<u32> = Vec::new();
        let mut borrow: u64 = 0;
        let mut i: usize = 0;
        proof {
            assert(a.take(0) =~= Seq::<u32>::empty());
            assert(b.take(0) =~= Seq::<u32>::empty());
            let w = weight(0);
            assert(0 * w == 0) by (nonlinear_arith);
        }
        while i < self.limbs.len()
            invariant
                a == self.limbs@,
                b == other.limbs@,
                b.len() <= a.len(),
                i <= a.len(),
                out@.len() == i,
                borrow <= 1,
                magnitude(out@) + magnitude(b.take(if i <= b.len() { i as int } else { b.len() as int }))
                    == magnitude(a.take(i as int)) + borrow * weight(i as nat),
            decreases a.len() - i,
        {
            let x: u64 = self.limbs[i] as u64;
            let y: u64 = if i < other.limbs.len() {
                other.limbs[i] as u64
            } else {
                0
            };
            let t: u64 = LIMB + x - y - borrow;
            let ghost before = out@;
            out.push((t % LIMB) as u32);
            let next: u64 = if t < LIMB {
                1
            } else {
                0
            };
            proof {
                assert(out@.drop_last() =~= before);
                lemma_weight(i as nat);
                lemma_take_one_more(a, i as int);
                let w = weight(i as nat) as int;
                if i < b.len() {
                    lemma_take_one_more(b, i as int);
                } else {
                    assert(y * w == 0) by (nonlinear_arith)
                        requires
                            y == 0,
                    ;
                }
                let low = t % LIMB;
                lemma_subtract_step(x as int, y as int, borrow as int, low as int, next as int, w);
            }
            borrow = next;
            i += 1;
        }
        proof {
            assert(a.take(i as int) =~= a);
            assert(b.take(b.len() as int) =~= b);
            lemma_magnitude_bound(out@);
            lemma_weight(i as nat);
            let w = weight(i as nat) as int;
            assert(borrow * w == (if borrow == 1 { w } else { 0 })) by (nonlinear_arith)
                requires
                    borrow <= 1,
            ;
        }
        Natural::trim(out)
    }
}

proof fn lemma_multiply_step(x: int, m: int, carry: int, t: int, w: int, p: int, q: int, a: int)
    requires
        0 <= t,
        t == x * m + carry,
        q + carry * w == p * m + a,
    ensures
        q + (t % LIMB as int) * w + (t / LIMB as int) * (LIMB * w) == (p + x * w) * m + a,
{
    let lo = t % LIMB as int;
    let hi = t / LIMB as int;
    assert(t == hi * LIMB + lo);
    assert(lo * w + hi * (LIMB * w) == (hi * LIMB + lo) * w) by (nonlinear_arith);
    assert((x * m + carry) * w == x * w * m + carry * w) by (nonlinear_arith);
    assert((p + x * w) * m == p * m + x * w * m) by (nonlinear_arith);
}

proof fn lemma_subtract_step(x: int, y: int, borrow: int, low: int, next: int, w: int)
    requires
        low == x - y - borrow + next * LIMB,
    ensures
        low * w + y * w == x * w - borrow * w + next * (LIMB * w),
{
    assert((x - y - borrow + next * LIMB) * w == x * w - y * w - borrow * w + next * (LIMB * w))
        by (nonlinear_arith);
}

proof fn lemma_top_decides(x: int, y: int, w: int)
    requires
        x < y,
        w > 0,
    ensures
        x * w + w <= y * w,
{
    assert((x + 1) * w <= y * w) by (nonlinear_arith)
        requires
            x + 1 <= y,
            w > 0,
    ;
    assert((x + 1) * w == x * w + w) by (nonlinear_arith);
}

/// A number with more limbs, the top one not zero, is larger.
proof fn lemma_longer(a: Seq<u32>, b: Seq<u32>)
    requires
        a.len() < b.len(),
        b.last() != 0,
    ensures
        magnitude(a) < magnitude(b),
{
    lemma_magnitude_bound(a);
    let n = (b.len() - 1) as nat;
    let x = b.last() as nat;
    let w = weight(n);
    assert(x * w >= w) by (nonlinear_arith)
        requires
            x >= 1,
    ;
    lemma_weight_grows(a.len(), n);
}

proof fn lemma_weight_grows(i: nat, j: nat)
    requires
        i <= j,
    ensures
        weight(i) <= weight(j),
    decreases j,
{
    if i < j {
        lemma_weight_grows(i, (j - 1) as nat);
        lemma_weight((j - 1) as nat);
    }
}

proof fn lemma_small_power(i: nat)
    requires
        i < 32,
    ensures
        pow2(i) < LIMB,
    decreases 32 - i,
{
    lemma2_to64();
    lemma_pow2_adds(i, (32 - i) as nat);
    lemma_pow2_pos(i);
    lemma_pow2_adds(1, (31 - i) as nat);
    lemma_pow2_pos((31 - i) as nat);
    let (x, y) = (pow2(i), pow2((32 - i) as nat));
    assert(y >= 2);
    assert(x < x * y) by (nonlinear_arith)
        requires
            x > 0,
            y >= 2,
    ;
}

} // verus!
