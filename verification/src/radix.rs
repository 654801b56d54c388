//! A radix sort for lines that start with integers.

use crate::compare::bytes_order_is_total;
use crate::config::Config;
use crate::decimal::{all_digits, decimal, lemma_first_digit_decides};
use crate::index::{index_nat, ix, nat_int};
use crate::lex::{bytes_order, bytes_order_ties_only_equal, compare_bytes};
use crate::lines::{
    all_admitted, arranged, dedup_items, distinct, lemma_permuted_admitted, lines_of, views,
    LineItems,
};
use crate::order::{
    directed, flip, flipped, in_order, int_order, is_stable_sort, is_total_order, lemma_directed_is_total,
    lemma_filter_last, lemma_filter_witness, lemma_pullback_is_total, lemma_rank_order_is_total,
    lemma_tie_broken_is_total, stable_sort, tie_broken, ties_with,
};
use crate::parallel::{par_map, sort_range_unstable_by, ItemMap, ItemOrder};
use crate::stable::{
    lemma_any_sort_is_stable, lemma_filter_agrees, lemma_permutation_map, lemma_permuted_element,
    lemma_same_ties_permutes, lemma_stable_sort_agrees, lemma_stable_sort_map, stable_sort_exists,
    stable_sorts_compose,
};
use crate::text::{blank, digit, digits_end, lead, lemma_lead, past, skip_blanks, DOT, MINUS, ZERO};
use std::cmp::Ordering;
use vstd::arithmetic::div_mod::{lemma_mod_breakdown, lemma_small_mod};
use vstd::arithmetic::power2::{lemma2_to64, lemma_pow2_adds, lemma_pow2_pos, pow2};
use vstd::bits::lemma_u64_shr_is_div;
use vstd::prelude::*;

verus! {

/// Byte `pass` of a key, counted from the least significant one.
pub open spec fn byte_at(key: u64, pass: nat) -> int {
    ((key as nat / pow2(8 * pass)) % 256) as int
}

/// The last `pass` bytes of a key.
pub open spec fn low_part(key: u64, pass: nat) -> int {
    (key as nat % pow2(8 * pass)) as int
}

/// A key as an integer.
pub open spec fn key_int(key: u64) -> int {
    key as int
}

/// Records ordered by one byte of their keys.
pub open spec fn by_byte<'a>(pass: nat) -> spec_fn((u64, &'a [u8]), (u64, &'a [u8])) -> Ordering {
    |a: (u64, &'a [u8]), b: (u64, &'a [u8])| int_order(byte_at(a.0, pass), byte_at(b.0, pass))
}

/// Records ordered by the last bytes of their keys.
pub open spec fn by_low<'a>(pass: nat) -> spec_fn((u64, &'a [u8]), (u64, &'a [u8])) -> Ordering {
    |a: (u64, &'a [u8]), b: (u64, &'a [u8])| int_order(low_part(a.0, pass), low_part(b.0, pass))
}

/// Records ordered by their keys.
pub open spec fn by_key<'a>() -> spec_fn((u64, &'a [u8]), (u64, &'a [u8])) -> Ordering {
    |a: (u64, &'a [u8]), b: (u64, &'a [u8])| int_order(key_int(a.0), key_int(b.0))
}

/// The records whose byte `pass` is `b`.
pub open spec fn with_byte<'a>(pass: nat, b: int) -> spec_fn((u64, &'a [u8])) -> bool {
    |r: (u64, &'a [u8])| byte_at(r.0, pass) == b
}

/// How many records have a byte `pass` below `b`.
pub open spec fn below<'a>(s: Seq<(u64, &'a [u8])>, pass: nat, b: int) -> nat
    decreases b,
{
    if b <= 0 {
        0
    } else {
        below(s, pass, b - 1) + s.filter(with_byte(pass, b - 1)).len()
    }
}

proof fn lemma_byte_range(key: u64, pass: nat)
    ensures
        0 <= byte_at(key, pass) < 256,
{
    lemma_pow2_pos(8 * pass);
}

proof fn lemma_below_push<'a>(s: Seq<(u64, &'a [u8])>, r: (u64, &'a [u8]), pass: nat, b: int)
    requires
        b >= 0,
    ensures
        below(s.push(r), pass, b) == below(s, pass, b) + (if byte_at(r.0, pass) < b {
            1nat
        } else {
            0nat
        }),
    decreases b,
{
    lemma_byte_range(r.0, pass);
    if b > 0 {
        lemma_below_push(s, r, pass, b - 1);
        lemma_filter_last(s, r, with_byte(pass, b - 1));
    }
}

/// Every record has some byte.
proof fn lemma_below_all<'a>(s: Seq<(u64, &'a [u8])>, pass: nat)
    ensures
        below(s, pass, 256) == s.len(),
    decreases s.len(),
{
    if s.len() == 0 {
        lemma_below_none(s, pass, 256);
    } else {
        let t = s.drop_last();
        lemma_below_all(t, pass);
        lemma_below_push(t, s.last(), pass, 256);
        lemma_byte_range(s.last().0, pass);
        assert(t.push(s.last()) =~= s);
    }
}

proof fn lemma_below_none<'a>(s: Seq<(u64, &'a [u8])>, pass: nat, b: int)
    requires
        s.len() == 0,
    ensures
        below(s, pass, b) == 0,
    decreases b,
{
    reveal(Seq::filter);
    if b > 0 {
        lemma_below_none(s, pass, b - 1);
    }
}

proof fn lemma_below_grows<'a>(s: Seq<(u64, &'a [u8])>, pass: nat, b: int, c: int)
    requires
        0 <= b <= c,
    ensures
        below(s, pass, b) <= below(s, pass, c),
    decreases c,
{
    if b < c {
        lemma_below_grows(s, pass, b, c - 1);
    }
}

/// A prefix has no more records with a byte than the whole.
proof fn lemma_filter_of_prefix<'a>(s: Seq<(u64, &'a [u8])>, m: int, p: spec_fn((u64, &'a [u8])) -> bool)
    requires
        0 <= m < s.len(),
        p(s[m]),
    ensures
        s.take(m).filter(p).len() < s.filter(p).len(),
{
    let front = s.take(m + 1);
    assert(front =~= s.take(m).push(s[m]));
    lemma_filter_last(s.take(m), s[m], p);
    assert(s =~= front + s.skip(m + 1));
    Seq::filter_distributes_over_add(front, s.skip(m + 1), p);
}

/// Byte `pass` of `key`.
fn key_byte(key: u64, pass: usize) -> (b: usize)
    requires
        pass < 8,
    ensures
        b == byte_at(key, pass as nat),
        b < 256,
{
    let shift: u64 = 8 * pass as u64;
    let moved: u64 = key >> shift;
    proof {
        lemma_u64_shr_is_div(key, shift);
        assert(moved & 0xff == moved % 256) by (bit_vector);
    }
    (moved & 0xff) as usize
}

/// How many records have each value of byte `pass`.
fn byte_counts<'a>(recs: &Vec<(u64, &'a [u8])>, pass: usize) -> (count: Vec<usize>)
    requires
        pass < 8,
    ensures
        count@.len() == 256,
        forall|b: int|
            0 <= b < 256 ==> #[trigger] count@[b] == recs@.filter(
                with_byte(pass as nat, b),
            ).len(),
{
    let mut count: Vec<usize> = Vec::new();
    let mut k: usize = 0;
    while k < 256
        invariant
            k <= 256,
            count@.len() == k,
            forall|b: int| 0 <= b < k ==> #[trigger] count@[b] == 0,
        decreases 256 - k,
    {
        count.push(0);
        k += 1;
    }
    let mut i: usize = 0;
    proof {
        reveal(Seq::filter);
        assert(recs@.take(0) =~= Seq::<(u64, &'a [u8])>::empty());
    }
    while i < recs.len()
        invariant
            pass < 8,
            i <= recs@.len(),
            count@.len() == 256,
            forall|b: int|
                0 <= b < 256 ==> #[trigger] count@[b] == recs@.take(i as int).filter(
                    with_byte(pass as nat, b),
                ).len(),
        decreases recs@.len() - i,
    {
        let b: usize = key_byte(recs[i].0, pass);
        let ghost prefix = recs@.take(i as int);
        proof {
            assert(recs@.take(i + 1) =~= prefix.push(recs@[i as int]));
            assert forall|c: int| 0 <= c < 256 implies recs@.take(i + 1).filter(
                #[trigger] with_byte(pass as nat, c),
            ).len() == prefix.filter(with_byte(pass as nat, c)).len() + (if c == b {
                1nat
            } else {
                0nat
            }) by {
                lemma_filter_last(prefix, recs@[i as int], with_byte(pass as nat, c));
            }
            lemma_filter_of_prefix(recs@, i as int, with_byte(pass as nat, b as int));
            lemma_filter_len(recs@, with_byte(pass as nat, b as int));
            let ghost was = count@;
            assert(was[b as int] < recs@.len());
        }
        let c: usize = count[b];
        count[b] = c + 1;
        i += 1;
    }
    assert(recs@.take(i as int) =~= recs@);
    count
}

proof fn lemma_filter_len<T>(s: Seq<T>, p: spec_fn(T) -> bool)
    ensures
        s.filter(p).len() <= s.len(),
    decreases s.len(),
{
    reveal(Seq::filter);
    if s.len() > 0 {
        lemma_filter_len(s.drop_last(), p);
    }
}

/// Where the records with each value of the byte start.
fn starts_of<'a>(count: &Vec<usize>, Ghost(recs): Ghost<Seq<(u64, &'a [u8])>>, Ghost(pass): Ghost<nat>) -> (starts: Vec<usize>)
    requires
        count@.len() == 256,
        recs.len() <= usize::MAX,
        forall|b: int|
            0 <= b < 256 ==> #[trigger] count@[b] == recs.filter(with_byte(pass, b)).len(),
    ensures
        starts@.len() == 256,
        forall|b: int| 0 <= b < 256 ==> #[trigger] starts@[b] == below(recs, pass, b),
{
    let mut starts: Vec<usize> = Vec::new();
    let mut sum: usize = 0;
    let mut b: usize = 0;
    while b < 256
        invariant
            b <= 256,
            count@.len() == 256,
            recs.len() <= usize::MAX,
            forall|c: int|
                0 <= c < 256 ==> #[trigger] count@[c] == recs.filter(with_byte(pass, c)).len(),
            starts@.len() == b,
            forall|c: int| 0 <= c < b ==> #[trigger] starts@[c] == below(recs, pass, c),
            sum == below(recs, pass, b as int),
        decreases 256 - b,
    {
        starts.push(sum);
        proof {
            lemma_below_all(recs, pass);
            lemma_below_grows(recs, pass, b + 1, 256);
            assert(count@[b as int] == recs.filter(with_byte(pass, b as int)).len());
        }
        sum = sum + count[b];
        b += 1;
    }
    starts
}

/// The records of `dst` that hold, in turn, what was scattered for each byte.
spec fn is_scattered<'a>(s: Seq<(u64, &'a [u8])>, m: int, dst: Seq<(u64, &'a [u8])>, pass: nat) -> bool {
    forall|b: int|
        0 <= b < 256 ==> #[trigger] segment(s, m, dst, pass, b) == s.take(m).filter(
            with_byte(pass, b),
        )
}

/// The part of `dst` for byte `b`, as far as the first `m` records fill it.
spec fn segment<'a>(s: Seq<(u64, &'a [u8])>, m: int, dst: Seq<(u64, &'a [u8])>, pass: nat, b: int) -> Seq<(u64, &'a [u8])> {
    let from = below(s, pass, b) as int;
    dst.subrange(from, from + s.take(m).filter(with_byte(pass, b)).len())
}

/// Scatters the records by byte `pass`, those with equal bytes in their order.
fn scatter<'a>(recs: &Vec<(u64, &'a [u8])>, dst: Vec<(u64, &'a [u8])>, starts: Vec<usize>, pass: usize) -> (out: Vec<(u64, &'a [u8])>)
    requires
        pass < 8,
        dst@.len() == recs@.len(),
        starts@.len() == 256,
        forall|b: int|
            0 <= b < 256 ==> #[trigger] starts@[b] == below(recs@, pass as nat, b),
    ensures
        out@.len() == recs@.len(),
        is_scattered(recs@, recs@.len() as int, out@, pass as nat),
{
    let mut out = dst;
    let mut next = starts;
    let mut i: usize = 0;
    proof {
        reveal(Seq::filter);
        assert(recs@.take(0) =~= Seq::<(u64, &'a [u8])>::empty());
        assert forall|b: int| 0 <= b < 256 implies #[trigger] segment(
            recs@,
            0,
            out@,
            pass as nat,
            b,
        ) == recs@.take(0).filter(with_byte(pass as nat, b)) by {
            lemma_below_all(recs@, pass as nat);
            lemma_below_grows(recs@, pass as nat, b, 256);
            assert(segment(recs@, 0, out@, pass as nat, b) =~= Seq::<(u64, &'a [u8])>::empty());
        }
    }
    while i < recs.len()
        invariant
            pass < 8,
            i <= recs@.len(),
            out@.len() == recs@.len(),
            next@.len() == 256,
            forall|b: int|
                0 <= b < 256 ==> #[trigger] next@[b] == below(recs@, pass as nat, b)
                    + recs@.take(i as int).filter(with_byte(pass as nat, b)).len(),
            is_scattered(recs@, i as int, out@, pass as nat),
        decreases recs@.len() - i,
    {
        let rec: (u64, &'a [u8]) = recs[i];
        let b: usize = key_byte(rec.0, pass);
        let at: usize = next[b];
        proof {
            lemma_below_all(recs@, pass as nat);
            lemma_below_grows(recs@, pass as nat, b + 1, 256);
            lemma_filter_of_prefix(recs@, i as int, with_byte(pass as nat, b as int));
            lemma_scatter_step(recs@, i as int, out@, pass as nat, b as int);
            assert(recs@.take(i + 1) =~= recs@.take(i as int).push(recs@[i as int]));
            assert forall|c: int| 0 <= c < 256 implies recs@.take(i + 1).filter(
                #[trigger] with_byte(pass as nat, c),
            ).len() == recs@.take(i as int).filter(with_byte(pass as nat, c)).len() + (if c == b {
                1nat
            } else {
                0nat
            }) by {
                lemma_filter_last(
                    recs@.take(i as int),
                    recs@[i as int],
                    with_byte(pass as nat, c),
                );
            }
        }
        out[at] = rec;
        next[b] = at + 1;
        i += 1;
    }
    out
}

proof fn lemma_scatter_step<'a>(s: Seq<(u64, &'a [u8])>, m: int, dst: Seq<(u64, &'a [u8])>, pass: nat, b: int)
    requires
        0 <= m < s.len(),
        dst.len() == s.len(),
        0 <= b < 256,
        byte_at(s[m].0, pass) == b,
        is_scattered(s, m, dst, pass),
    ensures
        ({
            let at = below(s, pass, b) + s.take(m).filter(with_byte(pass, b)).len();
            at < s.len() && is_scattered(s, m + 1, dst.update(at as int, s[m]), pass)
        }),
{
    let at = (below(s, pass, b) + s.take(m).filter(with_byte(pass, b)).len()) as int;
    let new = dst.update(at, s[m]);
    lemma_filter_of_prefix(s, m, with_byte(pass, b));
    lemma_below_all(s, pass);
    lemma_below_grows(s, pass, b + 1, 256);
    assert(s.take(m + 1) =~= s.take(m).push(s[m]));
    assert forall|c: int| 0 <= c < 256 implies #[trigger] segment(s, m + 1, new, pass, c)
        == s.take(m + 1).filter(with_byte(pass, c)) by {
        lemma_filter_last(s.take(m), s[m], with_byte(pass, c));
        lemma_filter_prefix_len(s, m, with_byte(pass, c));
        lemma_below_grows(s, pass, c + 1, 256);
        let before = segment(s, m, dst, pass, c);
        assert(before == s.take(m).filter(with_byte(pass, c)));
        if c == b {
            assert(segment(s, m + 1, new, pass, c) =~= before.push(s[m]));
        } else {
            if c < b {
                lemma_below_grows(s, pass, c + 1, b);
            } else {
                lemma_below_grows(s, pass, b + 1, c);
            }
            assert(segment(s, m + 1, new, pass, c) =~= before);
        }
    }
}

proof fn lemma_filter_prefix_len<T>(s: Seq<T>, m: int, p: spec_fn(T) -> bool)
    requires
        0 <= m <= s.len(),
    ensures
        s.take(m).filter(p).len() <= s.filter(p).len(),
{
    assert(s =~= s.take(m) + s.skip(m));
    Seq::filter_distributes_over_add(s.take(m), s.skip(m), p);
}

/// The byte whose part of a scattered sequence position `i` lies in.
proof fn lemma_part_of<'a>(s: Seq<(u64, &'a [u8])>, pass: nat, i: int, b: int) -> (c: int)
    requires
        0 <= i < below(s, pass, b),
        b >= 0,
    ensures
        0 <= c < b,
        below(s, pass, c) <= i < below(s, pass, c + 1),
    decreases b,
{
    if i < below(s, pass, b - 1) {
        lemma_part_of(s, pass, i, b - 1)
    } else {
        b - 1
    }
}

/// Position `i` of a scattered sequence holds a record with the byte of its part.
proof fn lemma_byte_of_part<'a>(s: Seq<(u64, &'a [u8])>, dst: Seq<(u64, &'a [u8])>, pass: nat, i: int, c: int)
    requires
        dst.len() == s.len(),
        is_scattered(s, s.len() as int, dst, pass),
        0 <= c < 256,
        below(s, pass, c) <= i < below(s, pass, c + 1),
    ensures
        i < dst.len(),
        byte_at(dst[i].0, pass) == c,
{
    assert(s.take(s.len() as int) =~= s);
    lemma_below_all(s, pass);
    lemma_below_grows(s, pass, c + 1, 256);
    let part = segment(s, s.len() as int, dst, pass, c);
    assert(part == s.filter(with_byte(pass, c)));
    lemma_filter_witness(s, with_byte(pass, c), i - below(s, pass, c));
    assert(dst[i] == part[i - below(s, pass, c)]);
}

proof fn lemma_filter_of_parts<'a>(s: Seq<(u64, &'a [u8])>, p: spec_fn((u64, &'a [u8])) -> bool, r: bool)
    requires
        forall|i: int| 0 <= i < s.len() ==> p(#[trigger] s[i]) == r,
    ensures
        s.filter(p) == (if r {
            s
        } else {
            Seq::empty()
        }),
    decreases s.len(),
{
    reveal(Seq::filter);
    if s.len() > 0 {
        let t = s.drop_last();
        assert forall|i: int| 0 <= i < t.len() implies p(#[trigger] t[i]) == r by {
            assert(t[i] == s[i]);
        }
        lemma_filter_of_parts(t, p, r);
        assert(p(s[s.len() - 1]) == r);
        assert(t.push(s.last()) =~= s);
    } else {
        assert(s =~= Seq::empty());
    }
}

/// What a scatter leaves with one byte is what was there with that byte.
proof fn lemma_scattered_filter<'a>(s: Seq<(u64, &'a [u8])>, dst: Seq<(u64, &'a [u8])>, pass: nat, b: int)
    requires
        dst.len() == s.len(),
        is_scattered(s, s.len() as int, dst, pass),
        0 <= b < 256,
    ensures
        dst.filter(with_byte(pass, b)) == s.filter(with_byte(pass, b)),
{
    let p = with_byte::<'a>(pass, b);
    let lo = below(s, pass, b) as int;
    let hi = below(s, pass, b + 1) as int;
    lemma_below_all(s, pass);
    lemma_below_grows(s, pass, b + 1, 256);
    let front = dst.take(lo);
    let mid = dst.subrange(lo, hi);
    let back = dst.skip(hi);
    assert forall|i: int| 0 <= i < front.len() implies p(#[trigger] front[i]) == false by {
        let c = lemma_part_of(s, pass, i, b);
        lemma_byte_of_part(s, dst, pass, i, c);
    }
    assert forall|i: int| 0 <= i < mid.len() implies p(#[trigger] mid[i]) == true by {
        lemma_byte_of_part(s, dst, pass, lo + i, b);
    }
    assert forall|i: int| 0 <= i < back.len() implies p(#[trigger] back[i]) == false by {
        let c = lemma_part_of(s, pass, hi + i, 256);
        if c <= b {
            lemma_below_grows(s, pass, c + 1, b + 1);
        }
        lemma_byte_of_part(s, dst, pass, hi + i, c);
    }
    lemma_filter_of_parts(front, p, false);
    lemma_filter_of_parts(mid, p, true);
    lemma_filter_of_parts(back, p, false);
    assert(dst =~= (front + mid) + back);
    Seq::filter_distributes_over_add(front + mid, back, p);
    Seq::filter_distributes_over_add(front, mid, p);
    assert((Seq::<(u64, &'a [u8])>::empty() + mid) + Seq::<(u64, &'a [u8])>::empty() =~= mid);
    assert(s.take(s.len() as int) =~= s);
    assert(segment(s, s.len() as int, dst, pass, b) == s.filter(p));
    assert(mid =~= segment(s, s.len() as int, dst, pass, b));
}

/// A scatter by one byte is a stable sort by that byte.
proof fn lemma_scattered_is_sorted<'a>(s: Seq<(u64, &'a [u8])>, dst: Seq<(u64, &'a [u8])>, pass: nat)
    requires
        dst.len() == s.len(),
        is_scattered(s, nat_int(s.len()), dst, pass),
    ensures
        is_stable_sort(s, dst, by_byte(pass)),
{
    let c = by_byte::<'a>(pass);
    lemma_below_all(s, pass);
    assert(in_order(dst, c)) by {
        assert forall|i: int, j: int| 0 <= i < j < dst.len() implies c(
            #[trigger] dst[i],
            #[trigger] dst[j],
        ) != Ordering::Greater by {
            let x = lemma_part_of(s, pass, i, 256);
            let y = lemma_part_of(s, pass, j, 256);
            lemma_byte_of_part(s, dst, pass, i, x);
            lemma_byte_of_part(s, dst, pass, j, y);
            if y < x {
                lemma_below_grows(s, pass, y + 1, x);
            }
        }
    }
    assert forall|x: (u64, &'a [u8])| #[trigger] ties_with(dst, c, x) == ties_with(s, c, x) by {
        let b = byte_at(x.0, pass);
        lemma_byte_range(x.0, pass);
        lemma_scattered_filter(s, dst, pass, b);
        let p = |y: (u64, &'a [u8])| c(x, y) == Ordering::Equal;
        lemma_filter_agrees(dst, p, with_byte(pass, b));
        lemma_filter_agrees(s, p, with_byte(pass, b));
    }
}

proof fn lemma_orders_are_total<'a>(pass: nat)
    ensures
        is_total_order(by_byte::<'a>(pass)),
        is_total_order(by_low::<'a>(pass)),
        is_total_order(by_key::<'a>()),
{
    lemma_rank_order_is_total(by_byte::<'a>(pass), |r: (u64, &'a [u8])| byte_at(r.0, pass));
    lemma_rank_order_is_total(by_low::<'a>(pass), |r: (u64, &'a [u8])| low_part(r.0, pass));
    lemma_rank_order_is_total(by_key::<'a>(), |r: (u64, &'a [u8])| key_int(r.0));
}

/// The last `pass + 1` bytes compare by the first of them, then by the others.
proof fn lemma_one_more_byte(x: u64, y: u64, pass: nat)
    ensures
        int_order(low_part(x, pass + 1), low_part(y, pass + 1)) == tie_broken(
            int_order(byte_at(x, pass), byte_at(y, pass)),
            int_order(low_part(x, pass), low_part(y, pass)),
        ),
{
    lemma_low_part(x, pass);
    lemma_low_part(y, pass);
    lemma_first_digit_decides(
        byte_nat(x, pass),
        byte_nat(y, pass),
        pow2(8 * pass),
        low_nat(x, pass),
        low_nat(y, pass),
    );
}

/// [`byte_at`] as a natural number.
spec fn byte_nat(key: u64, pass: nat) -> nat {
    byte_at(key, pass) as nat
}

/// [`low_part`] as a natural number.
spec fn low_nat(key: u64, pass: nat) -> nat {
    low_part(key, pass) as nat
}

proof fn lemma_low_part(x: u64, pass: nat)
    ensures
        low_part(x, pass + 1) == byte_nat(x, pass) * pow2(8 * pass) + low_nat(x, pass),
        low_nat(x, pass) < pow2(8 * pass),
        low_nat(x, pass) == low_part(x, pass),
        byte_nat(x, pass) == byte_at(x, pass),
{
    let p = pow2(8 * pass);
    lemma_pow2_pos(8 * pass);
    lemma2_to64();
    lemma_pow2_adds(8 * pass, 8);
    assert(8 * pass + 8 == 8 * (pass + 1));
    lemma_mod_breakdown(x as int, p as int, 256);
    let b = byte_nat(x, pass);
    assert(b * p == p * b) by (nonlinear_arith);
    lemma_byte_range(x, pass);
}

proof fn lemma_all_bytes(x: u64)
    ensures
        low_part(x, 8) == key_int(x),
        low_part(x, 0) == 0,
{
    lemma2_to64();
    assert(pow2(8 * 8) == 0x10000000000000000);
    lemma_small_mod(x as nat, pow2(8 * 8));
}

/// Sorts the records by their keys, byte by byte from the least significant one.
/// Records with equal keys keep their order.
pub fn radix_sort<'a>(recs: &mut Vec<(u64, &'a [u8])>)
    ensures
        is_stable_sort(old(recs)@, final(recs)@, by_key()),
{
    let ghost all = recs@;
    let mut pass: usize = 0;
    proof {
        assert forall|k: u64| #[trigger] low_part(k, 0) == 0 by {
            lemma_all_bytes(k);
        }
        assert(is_stable_sort(all, recs@, by_low(0)));
    }
    while pass < 8
        invariant
            pass <= 8,
            is_stable_sort(all, recs@, by_low(index_nat(pass))),
        decreases 8 - pass,
    {
        let count: Vec<usize> = byte_counts(recs, pass);
        let ghost before = recs@;
        let ghost here = index_nat(pass);
        // A byte that is the same in all records changes nothing.
        let uniform: bool = holds(&count, recs.len());
        if !uniform {
            let starts: Vec<usize> = starts_of(&count, Ghost(recs@), Ghost(here));
            let dst: Vec<(u64, &'a [u8])> = copied(recs);
            let mut moved: Vec<(u64, &'a [u8])> = scatter(recs, dst, starts, pass);
            std::mem::swap(recs, &mut moved);
            proof {
                lemma_scattered_is_sorted(before, recs@, here);
            }
        } else {
            proof {
                lemma_uniform(before, here, count@);
            }
        }
        proof {
            lemma_orders_are_total(here);
            assert forall|a: (u64, &'a [u8]), b: (u64, &'a [u8])| #[trigger]
                (by_low::<'a>(here + 1))(a, b) == tie_broken(
                (by_byte::<'a>(here))(a, b),
                (by_low::<'a>(here))(a, b),
            ) by {
                lemma_one_more_byte(a.0, b.0, here);
            }
            stable_sorts_compose(
                all,
                before,
                recs@,
                by_low(here),
                by_byte(here),
                by_low(here + 1),
            );
        }
        pass += 1;
    }
    proof {
        lemma_orders_are_total(8);
        assert forall|a: (u64, &'a [u8]), b: (u64, &'a [u8])| #[trigger] (by_low::<'a>(8))(a, b) == (
        by_key::<'a>())(a, b) by {
            lemma_all_bytes(a.0);
            lemma_all_bytes(b.0);
        }
        lemma_stable_sort_agrees(all, recs@, by_low(8), by_key());
    }
}

/// Whether `n` occurs among the counts.
fn holds(count: &Vec<usize>, n: usize) -> (r: bool)
    ensures
        r == exists|b: int| 0 <= b < count@.len() && #[trigger] count@[b] == n,
{
    let mut b: usize = 0;
    while b < count.len()
        invariant
            b <= count@.len(),
            forall|c: int| 0 <= c < b ==> #[trigger] count@[c] != n,
        decreases count@.len() - b,
    {
        if count[b] == n {
            assert(count@[b as int] == n);
            return true;
        }
        b += 1;
    }
    false
}

fn copied<'a>(recs: &Vec<(u64, &'a [u8])>) -> (r: Vec<(u64, &'a [u8])>)
    ensures
        r@ == recs@,
{
    let mut r: Vec<(u64, &'a [u8])> = Vec::new();
    let mut i: usize = 0;
    while i < recs.len()
        invariant
            i <= recs@.len(),
            r@ == recs@.take(i as int),
        decreases recs@.len() - i,
    {
        r.push(recs[i]);
        assert(r@ =~= recs@.take(i + 1));
        i += 1;
    }
    assert(recs@.take(i as int) =~= recs@);
    r
}

/// Records that share a byte are in order by it.
proof fn lemma_uniform<'a>(s: Seq<(u64, &'a [u8])>, pass: nat, count: Seq<usize>)
    requires
        count.len() == 256,
        forall|b: int|
            0 <= b < 256 ==> #[trigger] count[b] == s.filter(with_byte(pass, b)).len(),
        exists|b: int| 0 <= b < count.len() && #[trigger] count[b] == s.len(),
    ensures
        is_stable_sort(s, s, by_byte(pass)),
{
    let b = choose|b: int| 0 <= b < count.len() && #[trigger] count[b] == s.len();
    lemma_filter_is_all(s, with_byte(pass, b));
    let c = by_byte::<'a>(pass);
    assert forall|i: int, j: int| 0 <= i < j < s.len() implies c(#[trigger] s[i], #[trigger] s[j])
        != Ordering::Greater by {
        assert((with_byte::<'a>(pass, b))(s[i]) && (with_byte::<'a>(pass, b))(s[j]));
    }
}

/// A filter that lets as many pass as there are lets all pass.
proof fn lemma_filter_is_all<T>(s: Seq<T>, p: spec_fn(T) -> bool)
    requires
        s.filter(p).len() == s.len(),
    ensures
        forall|i: int| 0 <= i < s.len() ==> p(#[trigger] s[i]),
    decreases s.len(),
{
    reveal(Seq::filter);
    if s.len() > 0 {
        let t = s.drop_last();
        lemma_filter_len(t, p);
        lemma_filter_is_all(t, p);
        assert forall|i: int| 0 <= i < s.len() implies p(#[trigger] s[i]) by {
            if i < t.len() {
                assert(p(t[i]));
            }
        }
    }
}

/// The integer at the start of a line, behind blanks: perhaps a minus sign, and
/// digits; 0 where there are none. A line has no such integer where a decimal
/// point follows, or where it is outside the range of 64 bits.
pub open spec fn integer_key(s: Seq<u8>) -> Option<int> {
    let t = past(s, blank());
    let neg = t.len() > 0 && t[0] == MINUS;
    let u = if neg {
        t.skip(1)
    } else {
        t
    };
    let magnitude = decimal(u.take(lead(u, digit()))) as int;
    let value = if neg {
        -magnitude
    } else {
        magnitude
    };
    let rest = past(u, digit());
    if rest.len() > 0 && rest[0] == DOT || value < i64::MIN || value > i64::MAX {
        None
    } else {
        Some(value)
    }
}

/// The integer at the start of `s`, if it has one.
pub fn parse_int_key(s: &[u8]) -> (r: Option<i64>)
    ensures
        match r {
            Some(v) => integer_key(s@) == Some(v as int),
            None => integer_key(s@) is None,
        },
{
    let t = skip_blanks(s);
    let neg: bool = t.len() > 0 && t[0] == MINUS;
    let start: usize = if neg {
        1
    } else {
        0
    };
    let ghost u = t@.skip(start as int);
    proof {
        assert(t@.skip(0) =~= t@);
    }
    let end: usize = digits_end(t, start);
    let ghost d = u.take(lead(u, digit()));
    proof {
        lemma_lead(u, digit());
        assert(d =~= t@.subrange(start as int, end as int));
        assert(t@.skip(end as int) =~= past(u, digit()));
        assert(d.take(0) =~= Seq::<u8>::empty());
    }
    // The magnitude is kept negated, where the range reaches one further.
    let mut val: i64 = 0;
    let mut i: usize = start;
    while i < end
        invariant
            start <= i <= end <= t@.len(),
            d == t@.subrange(start as int, end as int),
            all_digits(d),
            val == -decimal(d.take(i - start)),
            decimal(d) > 0x8000_0000_0000_0000 ==> integer_key(s@) is None,
        decreases end - i,
    {
        proof {
            assert(d.take(i + 1 - start).drop_last() =~= d.take(i - start));
            assert(d[i - start] == t@[i as int]);
            assert((digit())(d[i - start]));
            lemma_decimal_grows(d, i + 1 - start);
        }
        let digit: i64 = (t[i] - ZERO) as i64;
        match val.checked_mul(10) {
            Some(tens) => match tens.checked_sub(digit) {
                Some(v) => {
                    val = v;
                },
                None => {
                    return None;
                },
            },
            None => {
                return None;
            },
        }
        i += 1;
    }
    assert(d.take(i - start) =~= d);
    if end < t.len() && t[end] == DOT {
        return None;
    }
    if neg {
        Some(val)
    } else if val == i64::MIN {
        None
    } else {
        Some(-val)
    }
}

proof fn lemma_decimal_grows(d: Seq<u8>, n: int)
    requires
        0 <= n <= d.len(),
    ensures
        decimal(d.take(n)) <= decimal(d),
    decreases d.len() - n,
{
    if n == d.len() {
        assert(d.take(n) =~= d);
    } else {
        assert(d.take(n + 1).drop_last() =~= d.take(n));
        lemma_decimal_grows(d, n + 1);
    }
}

/// An integer as an unsigned key of the same order.
pub fn order_key(v: i64) -> (k: u64)
    ensures
        k == v + 0x8000_0000_0000_0000,
{
    let sign: u64 = 0x8000_0000_0000_0000;
    assert((v as u64) ^ 0x8000_0000_0000_0000u64 == v + 0x8000_0000_0000_0000i128) by (bit_vector);
    (v as u64) ^ sign
}

/// The integer at the start of a line; 0 where it has none.
pub open spec fn integer_rank(s: Seq<u8>) -> int {
    match integer_key(s) {
        Some(v) => v,
        None => 0,
    }
}

/// The order of lines by the integers at their start: unless `suppress`, ties are
/// broken by the bytes of the lines; `reverse` reverses all of it.
pub open spec fn integer_order(a: Seq<u8>, b: Seq<u8>, reverse: bool, suppress: bool) -> Ordering {
    let by_value = int_order(integer_rank(a), integer_rank(b));
    directed(
        if suppress {
            by_value
        } else {
            tie_broken(by_value, bytes_order(a, b))
        },
        reverse,
    )
}

/// [`integer_order`] as a function.
pub open spec fn by_integer(reverse: bool, suppress: bool) -> spec_fn(
    Seq<u8>,
    Seq<u8>,
) -> Ordering {
    |a: Seq<u8>, b: Seq<u8>| integer_order(a, b, reverse, suppress)
}

/// Whether two lines start with the same integer.
pub open spec fn same_integer() -> spec_fn(Seq<u8>, Seq<u8>) -> bool {
    |a: Seq<u8>, b: Seq<u8>| integer_rank(a) == integer_rank(b)
}

/// The order of lines by integers is total, and unless `suppress` is set only
/// identical lines tie.
pub proof fn integer_order_is_total(reverse: bool, suppress: bool)
    ensures
        is_total_order(by_integer(reverse, suppress)),
        !suppress ==> forall|a: Seq<u8>, b: Seq<u8>| #[trigger]
            (by_integer(reverse, suppress))(a, b) == Ordering::Equal ==> a == b,
{
    let value = |a: Seq<u8>, b: Seq<u8>| int_order(integer_rank(a), integer_rank(b));
    let bytes = |a: Seq<u8>, b: Seq<u8>| bytes_order(a, b);
    let broken = |a: Seq<u8>, b: Seq<u8>|
        tie_broken(int_order(integer_rank(a), integer_rank(b)), bytes_order(a, b));
    lemma_rank_order_is_total(value, |a: Seq<u8>| integer_rank(a));
    bytes_order_is_total();
    lemma_tie_broken_is_total(broken, value, bytes);
    if suppress {
        lemma_directed_is_total(by_integer(reverse, suppress), value, reverse);
    } else {
        lemma_directed_is_total(by_integer(reverse, suppress), broken, reverse);
        assert forall|a: Seq<u8>, b: Seq<u8>| #[trigger]
            (by_integer(reverse, suppress))(a, b) == Ordering::Equal implies a == b by {
            bytes_order_ties_only_equal(a, b);
        }
    }
}

/// The key that a line is sorted by.
pub open spec fn stored_key(s: Seq<u8>, descending: bool) -> int {
    if descending {
        0x7fff_ffff_ffff_ffff - integer_rank(s)
    } else {
        integer_rank(s) + 0x8000_0000_0000_0000
    }
}

/// Records of lines and their keys.
struct IntegerLines {
    reverse: bool,
    suppress: bool,
}

impl IntegerLines {
    spec fn descending(&self) -> bool {
        self.suppress && self.reverse
    }
}

impl<'a> ItemOrder<(u64, &'a [u8])> for IntegerLines {
    closed spec fn admits(&self, item: (u64, &'a [u8])) -> bool {
        &&& integer_key(item.1@) is Some
        &&& key_int(item.0) == stored_key(item.1@, self.descending())
    }

    closed spec fn item_order(&self) -> spec_fn((u64, &'a [u8]), (u64, &'a [u8])) -> Ordering {
        |a: (u64, &'a [u8]), b: (u64, &'a [u8])|
            integer_order(a.1@, b.1@, self.reverse, self.suppress)
    }

    proof fn item_order_is_total(&self) {
        integer_order_is_total(self.reverse, self.suppress);
        lemma_pullback_is_total(
            self.item_order(),
            by_integer(self.reverse, self.suppress),
            |a: (u64, &'a [u8])| a.1@,
        );
    }

    fn compare_items(&self, a: &(u64, &'a [u8]), b: &(u64, &'a [u8])) -> (o: Ordering) {
        if a.0 != b.0 {
            let ascending = self.suppress || !self.reverse;
            return if (a.0 < b.0) == ascending {
                Ordering::Less
            } else {
                Ordering::Greater
            };
        }
        if self.suppress {
            return Ordering::Equal;
        }
        let o = compare_bytes(a.1, b.1);
        if self.reverse {
            flip(o)
        } else {
            o
        }
    }
}

impl<'a> LineItems<(u64, &'a [u8])> for IntegerLines {
    type Line = Seq<u8>;

    closed spec fn line(&self, item: (u64, &'a [u8])) -> Seq<u8> {
        item.1@
    }

    closed spec fn line_order(&self) -> spec_fn(Seq<u8>, Seq<u8>) -> Ordering {
        by_integer(self.reverse, self.suppress)
    }

    closed spec fn same_line(&self) -> spec_fn(Seq<u8>, Seq<u8>) -> bool {
        same_integer()
    }

    closed spec fn ties_are_identical(&self) -> bool {
        !self.suppress
    }

    proof fn items_follow_lines(&self) {
        integer_order_is_total(self.reverse, self.suppress);
    }

    fn same_items(&self, a: &(u64, &'a [u8]), b: &(u64, &'a [u8])) -> (r: bool) {
        a.0 == b.0
    }
}

/// Records ordered by the bytes of their lines.
struct ByBytes;

impl<'a> ItemOrder<(u64, &'a [u8])> for ByBytes {
    closed spec fn admits(&self, item: (u64, &'a [u8])) -> bool {
        true
    }

    closed spec fn item_order(&self) -> spec_fn((u64, &'a [u8]), (u64, &'a [u8])) -> Ordering {
        |a: (u64, &'a [u8]), b: (u64, &'a [u8])| bytes_order(a.1@, b.1@)
    }

    proof fn item_order_is_total(&self) {
        bytes_order_is_total();
        lemma_pullback_is_total(
            self.item_order(),
            |a: Seq<u8>, b: Seq<u8>| bytes_order(a, b),
            |a: (u64, &'a [u8])| a.1@,
        );
    }

    fn compare_items(&self, a: &(u64, &'a [u8]), b: &(u64, &'a [u8])) -> (o: Ordering) {
        compare_bytes(a.1, b.1)
    }
}

/// Records ordered by their keys, ties broken by the bytes of their lines.
pub open spec fn by_key_and_line<'a>() -> spec_fn(
    (u64, &'a [u8]),
    (u64, &'a [u8]),
) -> Ordering {
    |a: (u64, &'a [u8]), b: (u64, &'a [u8])|
        tie_broken(int_order(key_int(a.0), key_int(b.0)), bytes_order(a.1@, b.1@))
}

/// Puts records with equal keys in the order of their lines. Equal keys must stand
/// next to each other.
pub fn tie_break_by_line<'a>(recs: &mut Vec<(u64, &'a [u8])>)
    requires
        in_order(old(recs)@, by_key()),
    ensures
        final(recs)@.to_multiset() == old(recs)@.to_multiset(),
        in_order(final(recs)@, by_key_and_line()),
{
    let ghost all = recs@;
    let n: usize = recs.len();
    let mut i: usize = 0;
    while i < n
        invariant
            n == recs@.len(),
            all.len() == n,
            i <= n,
            in_order(all, by_key()),
            recs@.to_multiset() == all.to_multiset(),
            forall|k: int| 0 <= k < n ==> (#[trigger] recs@[k]).0 == all[k].0,
            0 < i < n ==> key_int(all[i - 1].0) < key_int(all[ix(i)].0),
            in_order(recs@.take(ix(i)), by_key_and_line()),
        decreases n - i,
    {
        let key: u64 = recs[i].0;
        let mut j: usize = i + 1;
        while j < n && recs[j].0 == key
            invariant
                i < j <= n,
                n == recs@.len(),
                forall|k: int| i <= k < j ==> (#[trigger] recs@[k]).0 == key,
            decreases n - j,
        {
            j += 1;
        }
        let ghost before = recs@;
        if j - i > 1 {
            sort_range_unstable_by(recs, i, j, &ByBytes);
            proof {
                lemma_range_permuted(before, recs@, ix(i), ix(j), key);
            }
        }
        proof {
            lemma_run_sorted(all, before, recs@, ix(i), ix(j), key);
        }
        i = j;
    }
    assert(recs@.take(ix(i)) =~= recs@);
}

/// Rearranging a range rearranges the whole, and keeps the key that all records
/// of the range have.
proof fn lemma_range_permuted<'a>(s: Seq<(u64, &'a [u8])>, t: Seq<(u64, &'a [u8])>, i: int, j: int, key: u64)
    requires
        0 <= i <= j <= s.len(),
        forall|k: int| i <= k < j ==> (#[trigger] s[k]).0 == key,
        t.len() == s.len(),
        t.take(i) == s.take(i),
        t.skip(j) == s.skip(j),
        t.subrange(i, j).to_multiset() == s.subrange(i, j).to_multiset(),
    ensures
        t.to_multiset() == s.to_multiset(),
        forall|k: int| i <= k < j ==> (#[trigger] t[k]).0 == key,
{
    broadcast use vstd::seq_lib::group_to_multiset_ensures;

    let front = s.take(i);
    let back = s.skip(j);
    let a = s.subrange(i, j);
    let b = t.subrange(i, j);
    assert(s =~= (front + a) + back);
    assert(t =~= (front + b) + back);
    vstd::seq_lib::lemma_multiset_commutative(front, a);
    vstd::seq_lib::lemma_multiset_commutative(front, b);
    vstd::seq_lib::lemma_multiset_commutative(front + a, back);
    vstd::seq_lib::lemma_multiset_commutative(front + b, back);
    assert forall|k: int| i <= k < j implies (#[trigger] t[k]).0 == key by {
        lemma_permuted_element(a, b, k - i);
        let m = choose|m: int| 0 <= m < a.len() && a[m] == b[k - i];
        assert(s[i + m].0 == key);
    }
}

proof fn lemma_run_sorted<'a>(
    all: Seq<(u64, &'a [u8])>,
    before: Seq<(u64, &'a [u8])>,
    after: Seq<(u64, &'a [u8])>,
    i: int,
    j: int,
    key: u64,
)
    requires
        0 <= i < j <= all.len(),
        before.len() == all.len(),
        after.len() == all.len(),
        in_order(all, by_key()),
        forall|k: int| 0 <= k < all.len() ==> (#[trigger] before[k]).0 == all[k].0,
        0 < i ==> key_int(all[i - 1].0) < key_int(all[i].0),
        in_order(before.take(i), by_key_and_line()),
        forall|k: int| i <= k < j ==> (#[trigger] before[k]).0 == key,
        j < all.len() ==> before[j].0 != key,
        after.take(i) == before.take(i),
        after.skip(j) == before.skip(j),
        j - i > 1 ==> in_order(after.subrange(i, j), ByBytes.item_order()),
        j - i > 1 ==> (forall|k: int| i <= k < j ==> (#[trigger] after[k]).0 == key),
        j - i == 1 ==> after == before,
    ensures
        forall|k: int| 0 <= k < all.len() ==> (#[trigger] after[k]).0 == all[k].0,
        j < all.len() ==> key_int(all[j - 1].0) < key_int(all[j].0),
        in_order(after.take(j), by_key_and_line()),
{
    assert forall|k: int| 0 <= k < all.len() implies (#[trigger] after[k]).0 == all[k].0 by {
        if k < i {
            assert(after.take(i)[k] == before.take(i)[k]);
        } else if k >= j {
            assert(after.skip(j)[k - j] == before.skip(j)[k - j]);
        } else {
            assert(before[k].0 == key);
        }
    }
    if j < all.len() {
        assert((by_key::<'a>())(all[j - 1], all[j]) != Ordering::Greater);
        assert(before[j - 1].0 == key);
    }
    let front = after.take(j);
    let c = by_key_and_line::<'a>();
    assert forall|x: int, y: int| 0 <= x < y < front.len() implies c(
        #[trigger] front[x],
        #[trigger] front[y],
    ) != Ordering::Greater by {
        if y < i {
            assert(after.take(i)[x] == front[x] && after.take(i)[y] == front[y]);
            assert(c(before.take(i)[x], before.take(i)[y]) != Ordering::Greater);
        } else if x < i {
            assert(before[i].0 == key && before[y].0 == key);
            if x < i - 1 {
                assert((by_key::<'a>())(all[x], all[i - 1]) != Ordering::Greater);
            }
            assert(after[x].0 == all[x].0 && after[y].0 == all[y].0);
        } else {
            let mid = after.subrange(i, j);
            assert(mid[x - i] == front[x] && mid[y - i] == front[y]);
            assert(after[x].0 == key && after[y].0 == key);
            assert((ByBytes.item_order())(mid[x - i], mid[y - i]) != Ordering::Greater);
        }
    }
}

/// Reads the integer at the start of each line.
struct IntegerKeys;

impl<'a> ItemMap<&'a [u8]> for IntegerKeys {
    type Out = Option<i64>;

    closed spec fn maps_to(&self, item: &'a [u8], image: Option<i64>) -> bool {
        match image {
            Some(v) => integer_key(item@) == Some(v as int),
            None => integer_key(item@) is None,
        }
    }

    fn map_item(&self, item: &&'a [u8]) -> (image: Option<i64>) {
        parse_int_key(item)
    }
}

/// All lines start with integers.
pub open spec fn all_integers(lines: Seq<Seq<u8>>) -> bool {
    forall|i: int| 0 <= i < lines.len() ==> integer_key(#[trigger] lines[i]) is Some
}

/// The records that are sorted, unless a line has no integer.
fn keyed_records<'a>(lines: &Vec<&'a [u8]>, by: &IntegerLines) -> (r: Option<Vec<(u64, &'a [u8])>>)
    ensures
        r is Some <==> all_integers(views(lines@)),
        r is Some ==> all_admitted(by, r->Some_0@) && lines_of(by, r->Some_0@) == views(lines@),
{
    let keys: Vec<Option<i64>> = par_map(lines, &IntegerKeys);
    let mut recs: Vec<(u64, &'a [u8])> = Vec::new();
    let mut i: usize = 0;
    let ghost all = views(lines@);
    while i < lines.len()
        invariant
            i <= lines@.len(),
            all == views(lines@),
            keys@.len() == lines@.len(),
            forall|k: int|
                0 <= k < lines@.len() ==> IntegerKeys.maps_to(lines@[k], #[trigger] keys@[k]),
            recs@.len() == i,
            all_admitted(by, recs@),
            forall|k: int| 0 <= k < i ==> by.line(#[trigger] recs@[k]) == all[k],
            forall|k: int| 0 <= k < i ==> integer_key(#[trigger] all[k]) is Some,
        decreases lines@.len() - i,
    {
        assert(IntegerKeys.maps_to(lines@[i as int], keys@[i as int]));
        assert(all[i as int] == lines@[i as int]@);
        match keys[i] {
            None => {
                return None;
            },
            Some(v) => {
                let k: u64 = order_key(v);
                let stored: u64 = if by.suppress && by.reverse {
                    u64::MAX - k
                } else {
                    k
                };
                recs.push((stored, lines[i]));
            },
        }
        i += 1;
    }
    assert(lines_of(by, recs@) =~= all);
    Some(recs)
}

/// Sorting by keys sorts the lines by integers.
proof fn lemma_keys_sort_lines<'a>(by: &IntegerLines, s: Seq<(u64, &'a [u8])>, out: Seq<(u64, &'a [u8])>)
    requires
        by.suppress,
        all_admitted(by, s),
        is_stable_sort(s, out, by_key()),
    ensures
        all_admitted(by, out),
        lines_of(by, out) == stable_sort(lines_of(by, s), by.line_order()),
{
    lemma_orders_are_total(0);
    by.item_order_is_total();
    by.items_follow_lines();
    assert forall|i: int, j: int| 0 <= i < s.len() && 0 <= j < s.len() implies (by_key::<'a>())(
        #[trigger] s[i],
        #[trigger] s[j],
    ) == (by.item_order())(s[i], s[j]) by {
        assert(by.admits(s[i]) && by.admits(s[j]));
    }
    lemma_stable_sort_agrees(s, out, by_key(), by.item_order());
    lemma_same_ties_permutes(s, out, by.item_order());
    lemma_permuted_admitted(by, s, out);
    lemma_stable_sort_map(
        s,
        out,
        |item: (u64, &'a [u8])| by.line(item),
        by.item_order(),
        by.line_order(),
    );
}

/// Records in order by key and line, turned round for a reverse sort, are the
/// lines in order.
proof fn lemma_broken_ties_sort_lines<'a>(by: &IntegerLines, s: Seq<(u64, &'a [u8])>, t: Seq<(u64, &'a [u8])>, out: Seq<(u64, &'a [u8])>)
    requires
        !by.suppress,
        all_admitted(by, s),
        t.to_multiset() == s.to_multiset(),
        in_order(t, by_key_and_line()),
        out == (if by.reverse {
            t.reverse()
        } else {
            t
        }),
    ensures
        all_admitted(by, out),
        lines_of(by, out) == stable_sort(lines_of(by, s), by.line_order()),
{
    lemma_reverse_permutes(t);
    lemma_permuted_admitted(by, s, t);
    lemma_permuted_admitted(by, s, out);
    lemma_permutation_map(s, out, |item: (u64, &'a [u8])| by.line(item));
    by.items_follow_lines();
    let lines = lines_of(by, out);
    let d = by.line_order();
    let n = out.len() - 1;
    integer_order_is_total(false, false);
    assert forall|i: int, j: int| 0 <= i < j < lines.len() implies d(
        #[trigger] lines[i],
        #[trigger] lines[j],
    ) != Ordering::Greater by {
        let (x, y) = if by.reverse {
            (t[n - j], t[n - i])
        } else {
            (t[i], t[j])
        };
        assert((by_key_and_line::<'a>())(x, y) != Ordering::Greater);
        assert(by.admits(x) && by.admits(y));
        let up = by_integer(false, false);
        assert(up(x.1@, y.1@) == flipped(up(y.1@, x.1@)));
    }
    lemma_any_sort_is_stable(lines_of(by, s), lines, d);
}

proof fn lemma_reverse_permutes<T>(s: Seq<T>)
    ensures
        s.reverse().to_multiset() == s.to_multiset(),
    decreases s.len(),
{
    broadcast use vstd::seq_lib::group_to_multiset_ensures;

    if s.len() > 0 {
        let t = s.drop_last();
        lemma_reverse_permutes(t);
        let head = seq![s.last()];
        assert(s.reverse() =~= head + t.reverse());
        vstd::seq_lib::lemma_multiset_commutative(head, t.reverse());
        assert(t.push(s.last()) =~= s);
        assert(Seq::<T>::empty().push(s.last()) =~= head);
        assert(t.to_multiset().insert(s.last()) =~= head.to_multiset().add(t.to_multiset()));
    } else {
        assert(s.reverse() =~= s);
    }
}

fn reversed<'a>(recs: Vec<(u64, &'a [u8])>) -> (r: Vec<(u64, &'a [u8])>)
    ensures
        r@ == recs@.reverse(),
{
    let mut r: Vec<(u64, &'a [u8])> = Vec::new();
    let mut i: usize = recs.len();
    while i > 0
        invariant
            i <= recs@.len(),
            r@.len() == recs@.len() - i,
            forall|k: int| 0 <= k < r@.len() ==> #[trigger] r@[k] == recs@[recs@.len() - 1 - k],
        decreases i,
    {
        i -= 1;
        r.push(recs[i]);
    }
    assert(r@ =~= recs@.reverse());
    r
}

/// The lines of records.
fn lines_only<'a>(recs: &Vec<(u64, &'a [u8])>, by: &IntegerLines) -> (r: Vec<&'a [u8]>)
    ensures
        views(r@) == lines_of(by, recs@),
{
    let mut r: Vec<&'a [u8]> = Vec::new();
    let mut i: usize = 0;
    while i < recs.len()
        invariant
            i <= recs@.len(),
            r@.len() == i,
            forall|k: int| 0 <= k < i ==> (#[trigger] r@[k])@ == by.line(recs@[k]),
        decreases recs@.len() - i,
    {
        r.push(recs[i].1);
        i += 1;
    }
    assert(views(r@) =~= lines_of(by, recs@));
    r
}

/// Sorts lines that all start with integers: gives the lines, as many as `--top`
/// asks for, and how many `-u` removed. `None` where some line does not start
/// with an integer.
pub fn try_numeric_radix<'a>(lines: &Vec<&'a [u8]>, cfg: &Config) -> (r: Option<(Vec<&'a [u8]>, usize)>)
    ensures
        r is Some <==> all_integers(views(lines@)),
        r matches Some(out) ==> {
            let order = by_integer(cfg.reverse, cfg.stable || cfg.unique);
            &&& views(out.0@) == arranged(
                views(lines@),
                order,
                same_integer(),
                cfg.unique,
                cfg.top,
            )
            &&& out.1 == lines@.len() - distinct(
                views(lines@),
                order,
                same_integer(),
                cfg.unique,
            ).len()
        },
{
    let by = IntegerLines { reverse: cfg.reverse, suppress: cfg.stable || cfg.unique };
    let mut recs: Vec<(u64, &'a [u8])> = match keyed_records(lines, &by) {
        Some(recs) => recs,
        None => {
            return None;
        },
    };
    let ghost keyed = recs@;
    radix_sort(&mut recs);
    if by.suppress {
        proof {
            lemma_keys_sort_lines(&by, keyed, recs@);
        }
    } else {
        proof {
            lemma_orders_are_total(0);
            lemma_same_ties_permutes(keyed, recs@, by_key());
        }
        tie_break_by_line(&mut recs);
        let ghost broken = recs@;
        if by.reverse {
            recs = reversed(recs);
        }
        proof {
            lemma_broken_ties_sort_lines(&by, keyed, broken, recs@);
        }
    }
    let before: usize = recs.len();
    proof {
        by.items_follow_lines();
        stable_sort_exists(lines_of(&by, keyed), by.line_order());
        lemma_same_ties_permutes(
            lines_of(&by, keyed),
            stable_sort(lines_of(&by, keyed), by.line_order()),
            by.line_order(),
        );
        assert(before == lines@.len());
    }
    if cfg.unique {
        recs = dedup_items(recs, &by);
    }
    let removed: usize = before - recs.len();
    let ghost kept = recs@;
    match cfg.top {
        Some(n) => {
            recs.truncate(n);
            proof {
                if n < kept.len() {
                    assert(lines_of(&by, recs@) =~= lines_of(&by, kept).take(ix(n)));
                }
            }
        },
        None => {},
    }
    Some((lines_only(&recs, &by), removed))
}

} // verus!
