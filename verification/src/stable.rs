//! Facts about stable sorting: existence, permutation, and how it goes along
//! with mapping the elements.

use crate::index::nat_int;
use crate::order::{
    flipped, in_order, is_stable_sort, is_total_order, lemma_filter_last, lemma_filter_witness,
    stable_sort, stable_sort_is_unique, tie_broken, ties_with,
};
use std::cmp::Ordering;
use vstd::prelude::*;

verus! {

/// `x` put into `s` behind everything that is not greater.
spec fn inserted<T>(s: Seq<T>, x: T, c: spec_fn(T, T) -> Ordering) -> Seq<T>
    decreases s.len(),
{
    if s.len() == 0 || c(s.last(), x) != Ordering::Greater {
        s.push(x)
    } else {
        inserted(s.drop_last(), x, c).push(s.last())
    }
}

proof fn lemma_inserted<T>(s: Seq<T>, x: T, c: spec_fn(T, T) -> Ordering)
    requires
        is_total_order(c),
        in_order(s, c),
    ensures
        in_order(inserted(s, x, c), c),
        forall|i: int|
            0 <= i < inserted(s, x, c).len() ==> #[trigger] inserted(s, x, c)[i] == x || s.contains(
                inserted(s, x, c)[i],
            ),
        forall|z: T| #[trigger] ties_with(inserted(s, x, c), c, z) == ties_with(s.push(x), c, z),
    decreases s.len(),
{
    let out = inserted(s, x, c);
    if s.len() == 0 || c(s.last(), x) != Ordering::Greater {
        assert forall|i: int, j: int| 0 <= i < j < out.len() implies c(
            #[trigger] out[i],
            #[trigger] out[j],
        ) != Ordering::Greater by {
            if j < s.len() {
                assert(c(s[i], s[j]) != Ordering::Greater);
            } else if i < s.len() - 1 {
                assert(c(s[i], s[s.len() - 1]) != Ordering::Greater);
            }
        }
    } else {
        let t = s.drop_last();
        let l = s.last();
        assert(in_order(t, c)) by {
            assert forall|i: int, j: int| 0 <= i < j < t.len() implies c(#[trigger] t[i], #[trigger] t[j])
                != Ordering::Greater by {
                assert(c(s[i], s[j]) != Ordering::Greater);
            }
        }
        lemma_inserted(t, x, c);
        let inner = inserted(t, x, c);
        assert(out == inner.push(l));
        assert forall|i: int| 0 <= i < inner.len() implies c(#[trigger] inner[i], l)
            != Ordering::Greater by {
            if inner[i] == x {
                assert(c(x, l) == flipped(c(l, x)));
            } else {
                assert(t.contains(inner[i]));
                let k = choose|k: int| 0 <= k < t.len() && t[k] == inner[i];
                assert(c(s[k], s[s.len() - 1]) != Ordering::Greater);
            }
        }
        assert forall|i: int, j: int| 0 <= i < j < out.len() implies c(
            #[trigger] out[i],
            #[trigger] out[j],
        ) != Ordering::Greater by {
            if j < inner.len() {
                assert(c(inner[i], inner[j]) != Ordering::Greater);
            } else {
                assert(c(inner[i], l) != Ordering::Greater);
            }
        }
        assert forall|i: int| 0 <= i < out.len() implies #[trigger] out[i] == x || s.contains(
            out[i],
        ) by {
            if i < inner.len() {
                assert(out[i] == inner[i]);
                if out[i] != x {
                    assert(t.contains(inner[i]));
                    let k = choose|k: int| 0 <= k < t.len() && t[k] == inner[i];
                    assert(s[k] == out[i]);
                }
            } else {
                assert(s[s.len() - 1] == out[i]);
            }
        }
        assert forall|z: T| #[trigger] ties_with(out, c, z) == ties_with(s.push(x), c, z) by {
            let r = |w: T| c(z, w) == Ordering::Equal;
            assert(ties_with(inner, c, z) == ties_with(t.push(x), c, z));
            lemma_filter_last(inner, l, r);
            lemma_filter_last(t, x, r);
            lemma_filter_last(s, x, r);
            lemma_filter_last(t, l, r);
            assert(t.push(l) =~= s);
            if r(l) && r(x) {
                assert(c(l, z) == flipped(c(z, l)));
                assert(c(l, x) != Ordering::Greater);
            }
        }
    }
}

/// A total order has a stable sort of every sequence, and [`stable_sort`] is it.
pub proof fn stable_sort_exists<T>(s: Seq<T>, c: spec_fn(T, T) -> Ordering)
    requires
        is_total_order(c),
    ensures
        is_stable_sort(s, stable_sort(s, c), c),
    decreases s.len(),
{
    if s.len() == 0 {
        assert(is_stable_sort(s, s, c));
    } else {
        let t = s.drop_last();
        stable_sort_exists(t, c);
        let prev = stable_sort(t, c);
        let out = inserted(prev, s.last(), c);
        lemma_inserted(prev, s.last(), c);
        assert(t.push(s.last()) =~= s);
        assert forall|x: T| #[trigger] ties_with(out, c, x) == ties_with(s, c, x) by {
            let r = |w: T| c(x, w) == Ordering::Equal;
            assert(ties_with(out, c, x) == ties_with(prev.push(s.last()), c, x));
            assert(ties_with(prev, c, x) == ties_with(t, c, x));
            lemma_filter_last(prev, s.last(), r);
            lemma_filter_last(t, s.last(), r);
        }
        assert(is_stable_sort(s, out, c));
    }
}

/// Whatever is a stable sort of `s` is [`stable_sort`] of `s`.
pub proof fn lemma_is_stable_sort<T>(s: Seq<T>, out: Seq<T>, c: spec_fn(T, T) -> Ordering)
    requires
        is_total_order(c),
        is_stable_sort(s, out, c),
    ensures
        out == stable_sort(s, c),
{
    stable_sort_exists(s, c);
    stable_sort_is_unique(s, out, stable_sort(s, c), c);
}

/// A sequence that is in order is its own stable sort.
pub proof fn lemma_sorted_is_fixed<T>(s: Seq<T>, c: spec_fn(T, T) -> Ordering)
    requires
        is_total_order(c),
        in_order(s, c),
    ensures
        stable_sort(s, c) == s,
{
    assert(is_stable_sort(s, s, c));
    lemma_is_stable_sort(s, s, c);
}

/// How often `x` occurs among the elements that satisfy `p`.
pub proof fn lemma_filter_count<T>(s: Seq<T>, p: spec_fn(T) -> bool, x: T)
    ensures
        s.filter(p).to_multiset().count(x) == (if p(x) {
            s.to_multiset().count(x)
        } else {
            0
        }),
    decreases s.len(),
{
    broadcast use vstd::seq_lib::group_to_multiset_ensures;

    reveal(Seq::filter);
    if s.len() > 0 {
        let t = s.drop_last();
        let l = s.last();
        assert(t.push(l) =~= s);
        lemma_filter_count(t, p, x);
        lemma_filter_last(t, l, p);
    }
}

/// Sequences with the same ties hold the same elements.
pub proof fn lemma_same_ties_permutes<T>(s: Seq<T>, out: Seq<T>, c: spec_fn(T, T) -> Ordering)
    requires
        is_total_order(c),
        forall|x: T| #[trigger] ties_with(out, c, x) == ties_with(s, c, x),
    ensures
        out.to_multiset() == s.to_multiset(),
        out.len() == s.len(),
{
    broadcast use vstd::seq_lib::group_to_multiset_ensures;

    assert forall|x: T| out.to_multiset().count(x) == s.to_multiset().count(x) by {
        let p = |y: T| c(x, y) == Ordering::Equal;
        assert(c(x, x) == Ordering::Equal);
        lemma_filter_count(s, p, x);
        lemma_filter_count(out, p, x);
        assert(ties_with(out, c, x) == ties_with(s, c, x));
    }
    assert(out.to_multiset() =~= s.to_multiset());
    assert(out.len() == out.to_multiset().len());
    assert(s.len() == s.to_multiset().len());
}

/// Filtering commutes with mapping.
pub proof fn lemma_filter_map<T, U>(s: Seq<T>, f: spec_fn(T) -> U, q: spec_fn(U) -> bool)
    ensures
        s.map_values(f).filter(q) == s.filter(|x: T| q(f(x))).map_values(f),
    decreases s.len(),
{
    reveal(Seq::filter);
    let p = |x: T| q(f(x));
    if s.len() > 0 {
        let t = s.drop_last();
        let l = s.last();
        lemma_filter_map(t, f, q);
        lemma_filter_last(t, l, p);
        lemma_filter_last(t.map_values(f), f(l), q);
        assert(t.push(l) =~= s);
        assert(t.map_values(f).push(f(l)) =~= s.map_values(f));
        assert(s.filter(p).map_values(f) =~= s.map_values(f).filter(q));
    } else {
        assert(s.filter(p).map_values(f) =~= s.map_values(f).filter(q));
    }
}

/// Filters that agree on the elements of `s` keep the same elements.
pub proof fn lemma_filter_agrees<T>(s: Seq<T>, p: spec_fn(T) -> bool, q: spec_fn(T) -> bool)
    requires
        forall|i: int| 0 <= i < s.len() ==> p(#[trigger] s[i]) == q(s[i]),
    ensures
        s.filter(p) == s.filter(q),
    decreases s.len(),
{
    reveal(Seq::filter);
    if s.len() > 0 {
        let t = s.drop_last();
        assert forall|i: int| 0 <= i < t.len() implies p(#[trigger] t[i]) == q(t[i]) by {
            assert(t[i] == s[i]);
        }
        lemma_filter_agrees(t, p, q);
        assert(p(s[s.len() - 1]) == q(s[s.len() - 1]));
    }
}

/// A stable sort of the items, each mapped to what it is ordered by, is the
/// stable sort of what they are ordered by.
pub proof fn lemma_stable_sort_map<T, U>(
    s: Seq<T>,
    out: Seq<T>,
    f: spec_fn(T) -> U,
    c: spec_fn(T, T) -> Ordering,
    d: spec_fn(U, U) -> Ordering,
)
    requires
        is_total_order(c),
        is_total_order(d),
        is_stable_sort(s, out, c),
        forall|a: T, b: T| #[trigger] c(a, b) == d(f(a), f(b)),
    ensures
        out.map_values(f) == stable_sort(s.map_values(f), d),
{
    let fs = s.map_values(f);
    let fo = out.map_values(f);
    assert(in_order(fo, d)) by {
        assert forall|i: int, j: int| 0 <= i < j < fo.len() implies d(#[trigger] fo[i], #[trigger] fo[j])
            != Ordering::Greater by {
            assert(c(out[i], out[j]) != Ordering::Greater);
        }
    }
    assert forall|u: U| #[trigger] ties_with(fo, d, u) == ties_with(fs, d, u) by {
        let q = |v: U| d(u, v) == Ordering::Equal;
        let p = |x: T| q(f(x));
        lemma_filter_map(s, f, q);
        lemma_filter_map(out, f, q);
        if s.filter(p).len() == 0 && out.filter(p).len() == 0 {
            assert(s.filter(p) =~= out.filter(p));
        } else {
            let from_s = s.filter(p).len() > 0;
            let y0 = if from_s {
                s.filter(p)[0]
            } else {
                out.filter(p)[0]
            };
            if from_s {
                lemma_filter_witness(s, p, 0);
            } else {
                lemma_filter_witness(out, p, 0);
            }
            assert(d(u, f(y0)) == Ordering::Equal);
            let r = |y: T| c(y0, y) == Ordering::Equal;
            assert forall|y: T| #[trigger] p(y) == r(y) by {
                assert(c(y0, y) == d(f(y0), f(y)));
                assert(d(f(y0), u) == flipped(d(u, f(y0))));
                assert(d(f(y), u) == flipped(d(u, f(y))));
                assert(d(f(y), f(y0)) == flipped(d(f(y0), f(y))));
            }
            lemma_filter_agrees(s, p, r);
            lemma_filter_agrees(out, p, r);
            assert(ties_with(out, c, y0) == ties_with(s, c, y0));
        }
    }
    lemma_is_stable_sort(fs, fo, d);
}

/// Sequences with the same elements have the same images.
pub proof fn lemma_permutation_map<T, U>(s: Seq<T>, out: Seq<T>, f: spec_fn(T) -> U)
    requires
        s.to_multiset() == out.to_multiset(),
    ensures
        s.map_values(f).to_multiset() == out.map_values(f).to_multiset(),
    decreases s.len(),
{
    broadcast use vstd::seq_lib::group_to_multiset_ensures;

    assert(s.len() == s.to_multiset().len());
    assert(out.len() == out.to_multiset().len());
    if s.len() == 0 {
        assert(s.map_values(f) =~= out.map_values(f));
    } else {
        let l = s.last();
        assert(s[s.len() - 1] == l);
        assert(s.contains(l));
        assert(s.to_multiset().count(l) > 0);
        assert(out.contains(l));
        let k = choose|k: int| 0 <= k < out.len() && out[k] == l;
        let t = s.drop_last();
        let u = out.remove(k);
        assert(t.push(l) =~= s);
        assert(t.to_multiset() =~= s.to_multiset().remove(l));
        assert(u.to_multiset() =~= out.to_multiset().remove(l));
        lemma_permutation_map(t, u, f);
        assert(t.map_values(f).push(f(l)) =~= s.map_values(f));
        assert(out.map_values(f).remove(k) =~= u.map_values(f));
        assert(out.map_values(f)[k] == f(l));
        let m = out.map_values(f);
        assert(m.remove(k).to_multiset() =~= m.to_multiset().remove(m[k]));
        assert(m.contains(m[k]));
        assert(m.to_multiset() =~= m.remove(k).to_multiset().insert(f(l)));
    }
}

/// Where only equal elements tie, any arrangement that is in order is the
/// stable sort.
pub proof fn lemma_any_sort_is_stable<T>(s: Seq<T>, out: Seq<T>, c: spec_fn(T, T) -> Ordering)
    requires
        is_total_order(c),
        forall|a: T, b: T| #[trigger] c(a, b) == Ordering::Equal ==> a == b,
        in_order(out, c),
        out.to_multiset() == s.to_multiset(),
    ensures
        out == stable_sort(s, c),
{
    broadcast use vstd::seq_lib::group_to_multiset_ensures;

    assert forall|x: T| #[trigger] ties_with(out, c, x) == ties_with(s, c, x) by {
        let p = |y: T| c(x, y) == Ordering::Equal;
        lemma_filter_count(s, p, x);
        lemma_filter_count(out, p, x);
        assert(c(x, x) == Ordering::Equal);
        lemma_all_same(s.filter(p), x, s, p);
        lemma_all_same(out.filter(p), x, out, p);
        assert(s.filter(p) =~= out.filter(p));
    }
    lemma_is_stable_sort(s, out, c);
}

proof fn lemma_all_same<T>(t: Seq<T>, x: T, s: Seq<T>, p: spec_fn(T) -> bool)
    requires
        t == s.filter(p),
        forall|y: T| #[trigger] p(y) ==> x == y,
    ensures
        forall|i: int| 0 <= i < t.len() ==> #[trigger] t[i] == x,
        t.to_multiset().count(x) == t.len(),
{
    assert forall|i: int| 0 <= i < t.len() implies #[trigger] t[i] == x by {
        lemma_filter_witness(s, p, i);
    }
    lemma_constant_count(t, x);
}

proof fn lemma_constant_count<T>(t: Seq<T>, x: T)
    requires
        forall|i: int| 0 <= i < t.len() ==> #[trigger] t[i] == x,
    ensures
        t.to_multiset().count(x) == t.len(),
    decreases t.len(),
{
    broadcast use vstd::seq_lib::group_to_multiset_ensures;

    if t.len() > 0 {
        let u = t.drop_last();
        assert forall|i: int| 0 <= i < u.len() implies #[trigger] u[i] == x by {
            assert(u[i] == t[i]);
        }
        lemma_constant_count(u, x);
        assert(u.push(x) =~= t);
    }
}

/// Orders that agree on the elements of a sequence sort it alike.
pub proof fn lemma_stable_sort_agrees<T>(
    s: Seq<T>,
    out: Seq<T>,
    c: spec_fn(T, T) -> Ordering,
    d: spec_fn(T, T) -> Ordering,
)
    requires
        is_total_order(c),
        is_total_order(d),
        is_stable_sort(s, out, c),
        forall|i: int, j: int|
            0 <= i < s.len() && 0 <= j < s.len() ==> c(#[trigger] s[i], #[trigger] s[j]) == d(
                s[i],
                s[j],
            ),
    ensures
        is_stable_sort(s, out, d),
{
    lemma_same_ties_permutes(s, out, c);
    assert forall|i: int| 0 <= i < out.len() implies s.contains(#[trigger] out[i]) by {
        lemma_permuted_element(s, out, i);
    }
    assert(in_order(out, d)) by {
        assert forall|i: int, j: int| 0 <= i < j < out.len() implies d(
            #[trigger] out[i],
            #[trigger] out[j],
        ) != Ordering::Greater by {
            let k = choose|k: int| 0 <= k < s.len() && s[k] == out[i];
            let l = choose|l: int| 0 <= l < s.len() && s[l] == out[j];
            assert(c(s[k], s[l]) == d(s[k], s[l]));
            assert(c(out[i], out[j]) != Ordering::Greater);
        }
    }
    assert forall|x: T| #[trigger] ties_with(out, d, x) == ties_with(s, d, x) by {
        let p = |y: T| d(x, y) == Ordering::Equal;
        if s.filter(p).len() == 0 && out.filter(p).len() == 0 {
            assert(s.filter(p) =~= out.filter(p));
        } else {
            let y = if s.filter(p).len() > 0 {
                s.filter(p)[0]
            } else {
                out.filter(p)[0]
            };
            if s.filter(p).len() > 0 {
                lemma_filter_witness(s, p, 0);
            } else {
                lemma_filter_witness(out, p, 0);
                let k = choose|k: int| 0 <= k < out.len() && out[k] == y;
                assert(s.contains(out[k]));
            }
            let m = choose|m: int| 0 <= m < s.len() && s[m] == y;
            let r = |z: T| c(y, z) == Ordering::Equal;
            assert forall|i: int| 0 <= i < s.len() implies p(#[trigger] s[i]) == r(s[i]) by {
                assert(c(s[m], s[i]) == d(s[m], s[i]));
                lemma_tie_is_shared(d, x, y, s[i]);
            }
            assert forall|i: int| 0 <= i < out.len() implies p(#[trigger] out[i]) == r(out[i]) by {
                let k = choose|k: int| 0 <= k < s.len() && s[k] == out[i];
                assert(s.contains(out[i]));
                assert(p(s[k]) == r(s[k]));
            }
            lemma_filter_agrees(s, p, r);
            lemma_filter_agrees(out, p, r);
            assert(ties_with(out, c, y) == ties_with(s, c, y));
        }
    }
}

/// What ties with one of two that tie, ties with the other.
proof fn lemma_tie_is_shared<T>(d: spec_fn(T, T) -> Ordering, x: T, y: T, z: T)
    requires
        is_total_order(d),
        d(x, y) == Ordering::Equal,
    ensures
        d(x, z) == Ordering::Equal <==> d(y, z) == Ordering::Equal,
{
    assert(d(y, x) == flipped(d(x, y)));
    assert(d(z, x) == flipped(d(x, z)));
    assert(d(z, y) == flipped(d(y, z)));
}

/// An element of an arrangement is an element of what was arranged.
pub proof fn lemma_permuted_element<T>(s: Seq<T>, out: Seq<T>, i: int)
    requires
        out.to_multiset() == s.to_multiset(),
        0 <= i < out.len(),
    ensures
        s.contains(out[i]),
{
    broadcast use vstd::seq_lib::group_to_multiset_ensures;

    assert(out.contains(out[i]));
    assert(out.to_multiset().count(out[i]) > 0);
}

/// Filtering twice is filtering by both.
proof fn lemma_filter_twice<T>(s: Seq<T>, p: spec_fn(T) -> bool, q: spec_fn(T) -> bool)
    ensures
        s.filter(p).filter(q) == s.filter(|x: T| p(x) && q(x)),
    decreases s.len(),
{
    reveal(Seq::filter);
    let both = |x: T| p(x) && q(x);
    if s.len() > 0 {
        let t = s.drop_last();
        let l = s.last();
        lemma_filter_twice(t, p, q);
        lemma_filter_last(t, l, p);
        lemma_filter_last(t, l, both);
        lemma_filter_last(t.filter(p), l, q);
        assert(t.push(l) =~= s);
    }
}

/// A filtered sequence stays in order.
proof fn lemma_filter_in_order<T>(s: Seq<T>, p: spec_fn(T) -> bool, c: spec_fn(T, T) -> Ordering)
    requires
        in_order(s, c),
    ensures
        in_order(s.filter(p), c),
    decreases s.len(),
{
    reveal(Seq::filter);
    if s.len() > 0 {
        let t = s.drop_last();
        let l = s.last();
        assert(in_order(t, c)) by {
            assert forall|i: int, j: int| 0 <= i < j < t.len() implies c(
                #[trigger] t[i],
                #[trigger] t[j],
            ) != Ordering::Greater by {
                assert(c(s[i], s[j]) != Ordering::Greater);
            }
        }
        lemma_filter_in_order(t, p, c);
        lemma_filter_last(t, l, p);
        assert(t.push(l) =~= s);
        let f = s.filter(p);
        assert forall|i: int, j: int| 0 <= i < j < f.len() implies c(
            #[trigger] f[i],
            #[trigger] f[j],
        ) != Ordering::Greater by {
            let g = t.filter(p);
            if j < g.len() {
                assert(c(g[i], g[j]) != Ordering::Greater);
            } else {
                assert(f[i] == g[i]);
                lemma_filter_witness(t, p, i);
                let k = choose|k: int| 0 <= k < t.len() && #[trigger] t[k] == g[i];
                assert(c(s[k], s[s.len() - 1]) != Ordering::Greater);
            }
        }
    }
}

/// Two elements that pass a filter stand in the same order behind it.
proof fn lemma_filter_pair<T>(s: Seq<T>, p: spec_fn(T) -> bool, i: int, j: int)
    requires
        0 <= i < j < s.len(),
        p(s[i]),
        p(s[j]),
    ensures
        exists|a: int, b: int|
            0 <= a < b < s.filter(p).len() && #[trigger] s.filter(p)[a] == s[i]
                && #[trigger] s.filter(p)[b] == s[j],
    decreases s.len(),
{
    reveal(Seq::filter);
    let t = s.drop_last();
    let l = s.last();
    lemma_filter_last(t, l, p);
    assert(t.push(l) =~= s);
    let f = t.filter(p);
    if j < s.len() - 1 {
        lemma_filter_pair(t, p, i, j);
        let (a, b) = choose|a: int, b: int|
            0 <= a < b < f.len() && #[trigger] f[a] == t[i] && #[trigger] f[b] == t[j];
        assert(s.filter(p)[a] == s[i] && s.filter(p)[b] == s[j]);
    } else {
        lemma_filter_position(t, p, i);
        let a = choose|a: int| 0 <= a < f.len() && #[trigger] f[a] == t[i];
        assert(s.filter(p)[a] == s[i] && s.filter(p)[nat_int(f.len())] == s[j]);
    }
}

/// An element that passes a filter stands behind it.
pub proof fn lemma_filter_position<T>(s: Seq<T>, p: spec_fn(T) -> bool, i: int)
    requires
        0 <= i < s.len(),
        p(s[i]),
    ensures
        exists|a: int| 0 <= a < s.filter(p).len() && #[trigger] s.filter(p)[a] == s[i],
    decreases s.len(),
{
    reveal(Seq::filter);
    let t = s.drop_last();
    let l = s.last();
    lemma_filter_last(t, l, p);
    assert(t.push(l) =~= s);
    let f = t.filter(p);
    if i < s.len() - 1 {
        lemma_filter_position(t, p, i);
        let a = choose|a: int| 0 <= a < f.len() && #[trigger] f[a] == t[i];
        assert(s.filter(p)[a] == s[i]);
    } else {
        assert(s.filter(p)[nat_int(f.len())] == s[i]);
    }
}

/// Sorting stably by one order and then by another sorts by the second, ties
/// broken by the first.
pub proof fn stable_sorts_compose<T>(
    s: Seq<T>,
    t: Seq<T>,
    u: Seq<T>,
    first: spec_fn(T, T) -> Ordering,
    second: spec_fn(T, T) -> Ordering,
    both: spec_fn(T, T) -> Ordering,
)
    requires
        is_total_order(first),
        is_total_order(second),
        is_stable_sort(s, t, first),
        is_stable_sort(t, u, second),
        forall|a: T, b: T| #[trigger] both(a, b) == tie_broken(second(a, b), first(a, b)),
    ensures
        is_stable_sort(s, u, both),
{
    assert(in_order(u, both)) by {
        assert forall|i: int, j: int| 0 <= i < j < u.len() implies both(
            #[trigger] u[i],
            #[trigger] u[j],
        ) != Ordering::Greater by {
            assert(second(u[i], u[j]) != Ordering::Greater);
            if second(u[i], u[j]) == Ordering::Equal {
                let p = |y: T| second(u[i], y) == Ordering::Equal;
                assert(second(u[i], u[i]) == Ordering::Equal);
                lemma_filter_pair(u, p, i, j);
                assert(ties_with(u, second, u[i]) == ties_with(t, second, u[i]));
                let (a, b) = choose|a: int, b: int|
                    0 <= a < b < u.filter(p).len() && #[trigger] u.filter(p)[a] == u[i]
                        && #[trigger] u.filter(p)[b] == u[j];
                lemma_filter_in_order(t, p, first);
                assert(first(t.filter(p)[a], t.filter(p)[b]) != Ordering::Greater);
            }
        }
    }
    assert forall|x: T| #[trigger] ties_with(u, both, x) == ties_with(s, both, x) by {
        let p = |y: T| second(x, y) == Ordering::Equal;
        let q = |y: T| first(x, y) == Ordering::Equal;
        let r = |y: T| both(x, y) == Ordering::Equal;
        lemma_filter_twice(u, p, q);
        lemma_filter_twice(t, p, q);
        lemma_filter_twice(t, q, p);
        lemma_filter_twice(s, q, p);
        assert(ties_with(u, second, x) == ties_with(t, second, x));
        assert(ties_with(t, first, x) == ties_with(s, first, x));
        lemma_filter_agrees(u, |y: T| p(y) && q(y), r);
        lemma_filter_agrees(t, |y: T| p(y) && q(y), |y: T| q(y) && p(y));
        lemma_filter_agrees(s, |y: T| q(y) && p(y), r);
    }
}

} // verus!
