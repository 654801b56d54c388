//! Numbers at the start of a line (`-n`): parsed once, compared by value.

use crate::decimal::{
    all_digits, by_value, decimal, digit_value, fixed_order, fixed_order_is_total,
    lemma_decimal_bound, lemma_decimal_concat, lemma_first_digit_decides, lemma_fraction_order,
    lemma_leading_zeros, lemma_longer_is_larger, lemma_no_product, lemma_positive_product,
    lemma_pow10_add, lemma_same_length_order, pow10, zero_digit, Fixed,
};
use crate::index::nat_int;
use crate::lex::{bytes_order, compare_bytes};
use crate::order::{flip, flipped, int_order, tie_broken};
use crate::text::{blank, digit, digits_end, lead, lemma_lead, past, skip_blanks, DOT, MINUS, ZERO};
use std::cmp::Ordering;
use vstd::prelude::*;
use vstd::std_specs::cmp::{PartialEqSpecImpl, PartialOrdSpecImpl};

verus! {

/// The number at the start of `s`, behind blanks: whether it is negative, its
/// digits before the point and its digits behind the point. Where there is no
/// number there are no digits; a plus sign starts no number.
pub open spec fn leading_number(s: Seq<u8>) -> (bool, Seq<u8>, Seq<u8>) {
    let t = past(s, blank());
    let neg = t.len() > 0 && t[0] == MINUS;
    let u = if neg {
        t.skip(1)
    } else {
        t
    };
    let whole = u.take(lead(u, digit()));
    let v = past(u, digit());
    let frac = if v.len() > 0 && v[0] == DOT {
        v.skip(1).take(lead(v.skip(1), digit()))
    } else {
        Seq::empty()
    };
    (neg, whole, frac)
}

/// The number written with these digits before and behind the point.
pub open spec fn fixed_value(neg: bool, whole: Seq<u8>, frac: Seq<u8>) -> Fixed {
    let magnitude = nat_int(decimal(whole + frac));
    Fixed {
        units: if neg {
            -magnitude
        } else {
            magnitude
        },
        scale: frac.len(),
    }
}

/// The value of the number at the start of `s`; 0 where there is none.
pub open spec fn numeric_value(s: Seq<u8>) -> Fixed {
    let (neg, whole, frac) = leading_number(s);
    fixed_value(neg, whole, frac)
}

/// The `-n` order of two lines.
pub open spec fn numeric_order(a: Seq<u8>, b: Seq<u8>) -> Ordering {
    fixed_order(numeric_value(a), numeric_value(b))
}

/// `d` without the zeros at its end.
pub open spec fn without_trailing_zeros(d: Seq<u8>) -> Seq<u8>
    decreases d.len(),
{
    if d.len() > 0 && d.last() == ZERO {
        without_trailing_zeros(d.drop_last())
    } else {
        d
    }
}

/// `s` without the zeros at its start.
pub fn strip_leading_zeros(s: &[u8]) -> (r: &[u8])
    ensures
        r@ == past(s@, zero_digit()),
{
    let mut i: usize = 0;
    while i < s.len() && s[i] == ZERO
        invariant
            i <= s@.len(),
            forall|k: int| 0 <= k < i ==> (zero_digit())(#[trigger] s@[k]),
        decreases s@.len() - i,
    {
        i += 1;
    }
    proof {
        crate::text::lemma_lead_is(s@, zero_digit(), i as int);
        assert(s@.subrange(i as int, s@.len() as int) =~= s@.skip(i as int));
    }
    &s[i..s.len()]
}

/// `s` without the zeros at its end.
pub fn strip_trailing_zeros(s: &[u8]) -> (r: &[u8])
    ensures
        r@ == without_trailing_zeros(s@),
{
    let mut end: usize = s.len();
    assert(s@.take(end as int) =~= s@);
    while end > 0 && s[end - 1] == ZERO
        invariant
            end <= s@.len(),
            without_trailing_zeros(s@.take(end as int)) == without_trailing_zeros(s@),
        decreases end,
    {
        assert(s@.take(end as int).drop_last() =~= s@.take(end - 1));
        end -= 1;
    }
    assert(s@.subrange(0, end as int) =~= s@.take(end as int));
    &s[0..end]
}

/// Takes the number at the start of `s` apart: whether it is negative, its
/// digits before the point without leading zeros, and its digits behind the
/// point without trailing zeros. Where there is no number both are empty.
pub fn split_number(s: &[u8]) -> (r: (bool, &[u8], &[u8]))
    ensures
        r.0 == leading_number(s@).0,
        r.1@ == past(leading_number(s@).1, zero_digit()),
        r.2@ == without_trailing_zeros(leading_number(s@).2),
{
    let t = skip_blanks(s);
    let neg: bool = t.len() > 0 && t[0] == MINUS;
    let start: usize = if neg {
        1
    } else {
        0
    };
    let whole_end: usize = digits_end(t, start);
    let whole = &t[start..whole_end];
    let ghost u = t@.skip(start as int);
    proof {
        lemma_lead(u, digit());
        assert(t@.skip(0) =~= t@);
        assert(whole@ =~= u.take(lead(u, digit())));
        assert(t@.skip(whole_end as int) =~= past(u, digit()));
    }
    let ghost v = t@.skip(whole_end as int);
    if whole_end < t.len() && t[whole_end] == DOT {
        let frac_start: usize = whole_end + 1;
        let frac_end: usize = digits_end(t, frac_start);
        let frac = &t[frac_start..frac_end];
        proof {
            assert(v.skip(1) =~= t@.skip(frac_start as int));
            lemma_lead(v.skip(1), digit());
            assert(frac@ =~= v.skip(1).take(lead(v.skip(1), digit())));
        }
        (neg, strip_leading_zeros(whole), strip_trailing_zeros(frac))
    } else {
        let frac = &t[0..0];
        proof {
            assert(frac@ =~= Seq::<u8>::empty());
        }
        (neg, strip_leading_zeros(whole), frac)
    }
}

/// Stripping zeros from both ends of a number leaves its value and its digits.
proof fn lemma_stripped(neg: bool, whole: Seq<u8>, frac: Seq<u8>)
    requires
        all_digits(whole),
        all_digits(frac),
    ensures
        ({
            let w = past(whole, zero_digit());
            let f = without_trailing_zeros(frac);
            &&& all_digits(w)
            &&& all_digits(f)
            &&& w.len() > 0 ==> w[0] != ZERO
            &&& f.len() > 0 ==> f.last() != ZERO
            &&& fixed_order(fixed_value(neg, w, f), fixed_value(neg, whole, frac))
                == Ordering::Equal
        }),
{
    let w = past(whole, zero_digit());
    let f = without_trailing_zeros(frac);
    lemma_lead(whole, zero_digit());
    lemma_leading_zeros(whole);
    assert(all_digits(w)) by {
        assert forall|i: int| 0 <= i < w.len() implies (digit())(#[trigger] w[i]) by {
            assert((digit())(whole[i + lead(whole, zero_digit())]));
        }
    }
    lemma_no_trailing(frac);
    lemma_decimal_concat(whole, frac);
    lemma_decimal_concat(w, f);
    lemma_decimal_concat(whole, f);
    lemma_trailing_value(whole, frac);
    assert(decimal(w + f) == decimal(whole + f));
    lemma_negated(
        nat_int(decimal(w + f)),
        pow10(frac.len()),
        nat_int(decimal(whole + frac)),
        pow10(f.len()),
    );
}

proof fn lemma_no_trailing(frac: Seq<u8>)
    requires
        all_digits(frac),
    ensures
        ({
            let f = without_trailing_zeros(frac);
            &&& all_digits(f)
            &&& f.len() <= frac.len()
            &&& f.len() > 0 ==> f.last() != ZERO
        }),
    decreases frac.len(),
{
    if frac.len() > 0 && frac.last() == ZERO {
        let t = frac.drop_last();
        assert forall|i: int| 0 <= i < t.len() implies (digit())(#[trigger] t[i]) by {
            assert((digit())(frac[i]));
        }
        lemma_no_trailing(t);
    }
}

proof fn lemma_trailing_value(whole: Seq<u8>, frac: Seq<u8>)
    ensures
        decimal(whole + without_trailing_zeros(frac)) * pow10(frac.len()) == decimal(whole + frac)
            * pow10(without_trailing_zeros(frac).len()),
    decreases frac.len(),
{
    if frac.len() > 0 && frac.last() == ZERO {
        let t = frac.drop_last();
        lemma_trailing_value(whole, t);
        assert((whole + frac).drop_last() =~= whole + t);
        assert((whole + frac).last() == ZERO);
        let a = decimal(whole + without_trailing_zeros(t));
        let p = pow10(t.len());
        let b = decimal(whole + t);
        let q = pow10(without_trailing_zeros(t).len());
        assert(a * (10 * p) == (b * 10) * q) by (nonlinear_arith)
            requires
                a * p == b * q,
        ;
        assert(decimal(whole + frac) == b * 10);
        assert(pow10(frac.len()) == 10 * p);
    }
}

proof fn lemma_leading_digits(s: Seq<u8>)
    ensures
        all_digits(leading_number(s).1),
        all_digits(leading_number(s).2),
{
    let t = past(s, blank());
    let neg = t.len() > 0 && t[0] == MINUS;
    let u = if neg {
        t.skip(1)
    } else {
        t
    };
    lemma_lead(u, digit());
    let v = past(u, digit());
    lemma_lead(v.skip(1), digit());
}

/// The order of the digit strings of two numbers is that of their magnitudes.
proof fn lemma_magnitude_order(w: Seq<u8>, f: Seq<u8>, x: Seq<u8>, g: Seq<u8>)
    requires
        all_digits(w),
        all_digits(f),
        all_digits(x),
        all_digits(g),
        w.len() > 0 ==> w[0] != ZERO,
        x.len() > 0 ==> x[0] != ZERO,
        f.len() > 0 ==> f.last() != ZERO,
        g.len() > 0 ==> g.last() != ZERO,
    ensures
        int_order(
            nat_int(decimal(w + f)) * pow10(g.len()),
            nat_int(decimal(x + g)) * pow10(f.len()),
        ) == tie_broken(
            tie_broken(int_order(nat_int(w.len()), nat_int(x.len())), bytes_order(w, x)),
            bytes_order(f, g),
        ),
{
    lemma_decimal_concat(w, f);
    lemma_decimal_concat(x, g);
    lemma_decimal_bound(f);
    lemma_decimal_bound(g);
    lemma_pow10_add(f.len(), g.len());
    lemma_pow10_add(g.len(), f.len());
    let p = pow10(f.len());
    let q = pow10(g.len());
    let a = decimal(w);
    let b = decimal(x);
    let r = decimal(f);
    let s = decimal(g);
    assert((a * p + r) * q == a * (p * q) + r * q) by (nonlinear_arith);
    assert((b * q + s) * p == b * (p * q) + s * p) by (nonlinear_arith);
    assert(r * q < p * q) by (nonlinear_arith)
        requires
            r < p,
            q > 0,
    ;
    assert(s * p < p * q) by (nonlinear_arith)
        requires
            s < q,
            p > 0,
    ;
    lemma_first_digit_decides(a, b, p * q, r * q, s * p);
    lemma_fraction_order(f, g);
    if w.len() < x.len() {
        lemma_longer_is_larger(w, x);
    } else if w.len() > x.len() {
        lemma_longer_is_larger(x, w);
    } else {
        lemma_same_length_order(w, x);
    }
}

/// Compares digit strings without leading zeros: the longer one is larger, and
/// of two of one length the byte order decides.
pub fn cmp_int(a: &[u8], b: &[u8]) -> (o: Ordering)
    ensures
        o == tie_broken(int_order(nat_int(a@.len()), nat_int(b@.len())), bytes_order(a@, b@)),
{
    if a.len() < b.len() {
        Ordering::Less
    } else if a.len() > b.len() {
        Ordering::Greater
    } else {
        compare_bytes(a, b)
    }
}

/// A number taken apart once, so that it can be compared many times. It borrows
/// its digits from the line.
#[derive(Clone, Copy, Debug)]
pub struct NumericKey<'a> {
    neg: bool,
    zero: bool,
    whole: &'a [u8],
    frac: &'a [u8],
}

impl<'a> View for NumericKey<'a> {
    type V = Fixed;

    closed spec fn view(&self) -> Fixed {
        fixed_value(self.neg, self.whole@, self.frac@)
    }
}

impl<'a> PartialEq for NumericKey<'a> {
    fn eq(&self, other: &Self) -> (r: bool) {
        match self.cmp(other) {
            Ordering::Equal => true,
            _ => false,
        }
    }
}

impl<'a> PartialEqSpecImpl for NumericKey<'a> {
    open spec fn obeys_eq_spec() -> bool {
        true
    }

    open spec fn eq_spec(&self, other: &Self) -> bool {
        fixed_order(self@, other@) == Ordering::Equal
    }
}

impl<'a> Eq for NumericKey<'a> {

}

impl<'a> PartialOrd for NumericKey<'a> {
    fn partial_cmp(&self, other: &Self) -> (r: Option<Ordering>) {
        Some(self.cmp(other))
    }
}

impl<'a> PartialOrdSpecImpl for NumericKey<'a> {
    open spec fn obeys_partial_cmp_spec() -> bool {
        true
    }

    open spec fn partial_cmp_spec(&self, other: &Self) -> Option<Ordering> {
        Some(fixed_order(self@, other@))
    }
}

impl<'a> NumericKey<'a> {
    #[verifier::type_invariant]
    spec fn is_stripped(self) -> bool {
        &&& all_digits(self.whole@)
        &&& all_digits(self.frac@)
        &&& self.whole@.len() > 0 ==> self.whole@[0] != ZERO
        &&& self.frac@.len() > 0 ==> self.frac@.last() != ZERO
        &&& self.zero == (self.whole@.len() == 0 && self.frac@.len() == 0)
    }

    /// Parses the number at the start of `s`. The key has the value of that
    /// number, or 0 where there is none.
    pub fn parse(s: &'a [u8]) -> (key: Self)
        ensures
            fixed_order(key@, numeric_value(s@)) == Ordering::Equal,
    {
        let (neg, whole, frac) = split_number(s);
        proof {
            lemma_leading_digits(s@);
            lemma_stripped(neg, leading_number(s@).1, leading_number(s@).2);
        }
        NumericKey { neg, zero: whole.len() == 0 && frac.len() == 0, whole, frac }
    }

    /// Compares two numbers by value.
    pub fn cmp(&self, other: &Self) -> (o: Ordering)
        ensures
            o == fixed_order(self@, other@),
    {
        proof {
            use_type_invariant(self);
            use_type_invariant(other);
            lemma_pow10_add(self.frac@.len(), 0);
            lemma_pow10_add(other.frac@.len(), 0);
            lemma_sign(self.neg, self.whole@, self.frac@, pow10(other.frac@.len()));
            lemma_sign(other.neg, other.whole@, other.frac@, pow10(self.frac@.len()));
            lemma_magnitude_order(self.whole@, self.frac@, other.whole@, other.frac@);
        }
        if self.zero && other.zero {
            return Ordering::Equal;
        }
        if self.zero {
            return if other.neg {
                Ordering::Greater
            } else {
                Ordering::Less
            };
        }
        if other.zero {
            return if self.neg {
                Ordering::Less
            } else {
                Ordering::Greater
            };
        }
        if self.neg != other.neg {
            return if self.neg {
                Ordering::Less
            } else {
                Ordering::Greater
            };
        }
        let whole = cmp_int(self.whole, other.whole);
        let mag = match whole {
            Ordering::Equal => compare_bytes(self.frac, other.frac),
            _ => whole,
        };
        if self.neg {
            proof {
                lemma_negated(
                    nat_int(decimal(self.whole@ + self.frac@)),
                    pow10(other.frac@.len()),
                    nat_int(decimal(other.whole@ + other.frac@)),
                    pow10(self.frac@.len()),
                );
            }
            flip(mag)
        } else {
            mag
        }
    }
}

proof fn lemma_negated(a: int, p: nat, b: int, q: nat)
    ensures
        int_order((-a) * p, (-b) * q) == flipped(int_order(a * p, b * q)),
{
    assert((-a) * p == -(a * p)) by (nonlinear_arith);
    assert((-b) * q == -(b * q)) by (nonlinear_arith);
}

/// The sign of a scaled number.
proof fn lemma_sign(neg: bool, whole: Seq<u8>, frac: Seq<u8>, p: nat)
    requires
        p > 0,
        all_digits(whole),
        all_digits(frac),
        whole.len() > 0 ==> whole[0] != ZERO,
        frac.len() > 0 ==> frac.last() != ZERO,
    ensures
        ({
            let units = fixed_value(neg, whole, frac).units;
            &&& whole.len() == 0 && frac.len() == 0 ==> units * p == 0
            &&& (whole.len() > 0 || frac.len() > 0) && neg ==> units * p < 0
            &&& (whole.len() > 0 || frac.len() > 0) && !neg ==> units * p > 0
        }),
{
    let units = fixed_value(neg, whole, frac).units;
    lemma_no_product(p);
    if whole.len() == 0 && frac.len() == 0 {
        assert((whole + frac).len() == 0);
        assert(units == 0);
    } else {
        if frac.len() > 0 {
            assert((whole + frac).last() == frac.last());
            assert((digit())(frac[frac.len() - 1]));
        } else {
            assert(whole + frac =~= whole);
            assert(all_digits(whole));
            crate::decimal::lemma_decimal_first(whole);
            assert((digit())(whole[0]));
            lemma_pow10_add((whole.len() - 1) as nat, 0);
            lemma_positive_product(digit_value(whole[0]), pow10((whole.len() - 1) as nat));
        }
        assert(decimal(whole + frac) > 0);
        lemma_positive_product(decimal(whole + frac), p);
        let m = decimal(whole + frac) as int;
        assert((-m) * p == -(m * p)) by (nonlinear_arith);
    }
}

/// Compares the numbers at the start of `a` and `b` by value (`-n`). A missing
/// number counts as 0.
pub fn numeric_cmp(a: &[u8], b: &[u8]) -> (o: Ordering)
    ensures
        o == numeric_order(a@, b@),
{
    let x = NumericKey::parse(a);
    let y = NumericKey::parse(b);
    proof {
        lemma_same_value_same_order(x@, numeric_value(a@), y@, numeric_value(b@));
    }
    x.cmp(&y)
}

/// Numbers of the same value compare alike.
pub proof fn lemma_same_value_same_order(x: Fixed, a: Fixed, y: Fixed, b: Fixed)
    requires
        fixed_order(x, a) == Ordering::Equal,
        fixed_order(y, b) == Ordering::Equal,
    ensures
        fixed_order(x, y) == fixed_order(a, b),
{
    fixed_order_is_total();
    let c = by_value();
    assert(c(x, a) == flipped(c(a, x)));
    assert(c(y, b) == flipped(c(b, y)));
    assert(c(x, y) == flipped(c(y, x)));
    assert(c(a, b) == flipped(c(b, a)));
    assert(c(a, y) == flipped(c(y, a)));
    assert(c(a, x) == Ordering::Equal && c(b, y) == Ordering::Equal);
}

} // verus!
