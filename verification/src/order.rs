//! Total orders, stable sorting and what a sorted sequence is.

use std::cmp::Ordering;
use vstd::prelude::*;

verus! {

/// The ordering read from the other side.
pub open spec fn flipped(o: Ordering) -> Ordering {
    match o {
        Ordering::Less => Ordering::Greater,
        Ordering::Equal => Ordering::Equal,
        Ordering::Greater => Ordering::Less,
    }
}

/// The ordering of two integers.
pub open spec fn int_order(a: int, b: int) -> Ordering {
    if a < b {
        Ordering::Less
    } else if a == b {
        Ordering::Equal
    } else {
        Ordering::Greater
    }
}

/// `first`, or `second` where `first` is a tie.
pub open spec fn tie_broken(first: Ordering, second: Ordering) -> Ordering {
    if first == Ordering::Equal {
        second
    } else {
        first
    }
}

/// `o`, flipped when `reverse` is set.
pub open spec fn directed(o: Ordering, reverse: bool) -> Ordering {
    if reverse {
        flipped(o)
    } else {
        o
    }
}

/// `c` orders every two values, one way round only, and is transitive. Distinct
/// values may tie.
pub open spec fn is_total_order<T>(c: spec_fn(T, T) -> Ordering) -> bool {
    &&& forall|a: T, b: T| #[trigger] c(a, b) == flipped(c(b, a))
    &&& forall|a: T, b: T, d: T|
        #![trigger c(a, b), c(b, d)]
        c(a, b) != Ordering::Greater && c(b, d) != Ordering::Greater ==> c(a, d)
            != Ordering::Greater
}

/// No element of `s` comes after a greater one.
pub open spec fn in_order<T>(s: Seq<T>, c: spec_fn(T, T) -> Ordering) -> bool {
    forall|i: int, j: int|
        #![trigger s[i], s[j]]
        0 <= i < j < s.len() ==> c(s[i], s[j]) != Ordering::Greater
}

/// The elements of `s` that tie with `x`, in their order in `s`.
pub open spec fn ties_with<T>(s: Seq<T>, c: spec_fn(T, T) -> Ordering, x: T) -> Seq<T> {
    s.filter(|y: T| c(x, y) == Ordering::Equal)
}

/// `out` is `s` put in order, with elements that tie kept in their order in `s`.
pub open spec fn is_stable_sort<T>(s: Seq<T>, out: Seq<T>, c: spec_fn(T, T) -> Ordering) -> bool {
    &&& in_order(out, c)
    &&& forall|x: T| #[trigger] ties_with(out, c, x) == ties_with(s, c, x)
}

/// The stable sort of `s`: for a total order there is exactly one.
pub open spec fn stable_sort<T>(s: Seq<T>, c: spec_fn(T, T) -> Ordering) -> Seq<T> {
    choose|out: Seq<T>| is_stable_sort(s, out, c)
}

/// Flips an ordering.
pub fn flip(o: Ordering) -> (r: Ordering)
    ensures
        r == flipped(o),
{
    match o {
        Ordering::Less => Ordering::Greater,
        Ordering::Equal => Ordering::Equal,
        Ordering::Greater => Ordering::Less,
    }
}

/// Two stable sorts of the same sequence are the same sequence.
pub proof fn stable_sort_is_unique<T>(s: Seq<T>, a: Seq<T>, b: Seq<T>, c: spec_fn(T, T) -> Ordering)
    requires
        is_total_order(c),
        is_stable_sort(s, a, c),
        is_stable_sort(s, b, c),
    ensures
        a == b,
{
    assert forall|x: T| #[trigger] ties_with(a, c, x) == ties_with(b, c, x) by {
        assert(ties_with(a, c, x) == ties_with(s, c, x));
        assert(ties_with(b, c, x) == ties_with(s, c, x));
    }
    lemma_same_ties_same_sequence(a, b, c);
}

/// The elements that satisfy `p` of a sequence that starts with `x`.
pub proof fn lemma_filter_first<T>(s: Seq<T>, p: spec_fn(T) -> bool)
    requires
        s.len() > 0,
    ensures
        s.filter(p) == (if p(s[0]) {
            seq![s[0]] + s.drop_first().filter(p)
        } else {
            s.drop_first().filter(p)
        }),
{
    let head = seq![s[0]];
    assert(s =~= head + s.drop_first());
    Seq::filter_distributes_over_add(head, s.drop_first(), p);
    assert(head.drop_last() =~= Seq::<T>::empty());
    assert(head.filter(p) =~= if p(s[0]) {
        head
    } else {
        Seq::empty()
    }) by {
        reveal_with_fuel(Seq::filter, 2);
    }
    assert(Seq::<T>::empty() + s.drop_first().filter(p) =~= s.drop_first().filter(p));
}

/// The elements that satisfy `p` of a sequence that ends with `x`.
pub proof fn lemma_filter_last<T>(s: Seq<T>, x: T, p: spec_fn(T) -> bool)
    ensures
        s.push(x).filter(p) == (if p(x) {
            s.filter(p).push(x)
        } else {
            s.filter(p)
        }),
{
    reveal(Seq::filter);
    assert(s.push(x).drop_last() =~= s);
}

proof fn lemma_same_ties_same_sequence<T>(a: Seq<T>, b: Seq<T>, c: spec_fn(T, T) -> Ordering)
    requires
        is_total_order(c),
        in_order(a, c),
        in_order(b, c),
        forall|x: T| #[trigger] ties_with(a, c, x) == ties_with(b, c, x),
    ensures
        a == b,
    decreases a.len(),
{
    if a.len() == 0 {
        if b.len() > 0 {
            let x = b[0];
            assert(c(x, x) == Ordering::Equal);
            lemma_filter_first(b, |y: T| c(x, y) == Ordering::Equal);
            assert(ties_with(b, c, x).len() > 0);
            reveal(Seq::filter);
            assert(ties_with(a, c, x).len() == 0);
        }
        assert(a =~= b);
    } else {
        let x = a[0];
        assert(c(x, x) == Ordering::Equal);
        let p = |y: T| c(x, y) == Ordering::Equal;
        lemma_filter_first(a, p);
        assert(ties_with(a, c, x)[0] == x);
        assert(ties_with(b, c, x) == ties_with(a, c, x));
        assert(b.filter(p).len() > 0);
        if b.len() == 0 {
            reveal(Seq::filter);
        }
        let y = b[0];
        // `y` ties with `x`: each stands first in its sequence and occurs in the other.
        lemma_filter_witness(b, p, 0);
        let i = choose|i: int| 0 <= i < b.len() && b[i] == x;
        assert(c(y, x) != Ordering::Greater) by {
            if i == 0 {
                assert(c(x, x) == Ordering::Equal);
            } else {
                assert(c(b[0], b[i]) != Ordering::Greater);
            }
        }
        let q = |z: T| c(y, z) == Ordering::Equal;
        assert(c(y, y) == Ordering::Equal);
        lemma_filter_first(b, q);
        assert(ties_with(b, c, y)[0] == y);
        assert(ties_with(b, c, y) == ties_with(a, c, y));
        lemma_filter_witness(a, q, 0);
        let j = choose|j: int| 0 <= j < a.len() && a[j] == y;
        assert(c(x, y) != Ordering::Greater) by {
            if j > 0 {
                assert(c(a[0], a[j]) != Ordering::Greater);
            }
        }
        assert(c(x, y) == Ordering::Equal);
        lemma_filter_first(b, p);
        assert(ties_with(b, c, x)[0] == y);
        assert(x == y);
        let a1 = a.drop_first();
        let b1 = b.drop_first();
        assert(in_order(a1, c)) by {
            assert forall|i: int, j: int| 0 <= i < j < a1.len() implies c(#[trigger] a1[i], #[trigger] a1[j])
                != Ordering::Greater by {
                assert(c(a[i + 1], a[j + 1]) != Ordering::Greater);
            }
        }
        assert(in_order(b1, c)) by {
            assert forall|i: int, j: int| 0 <= i < j < b1.len() implies c(#[trigger] b1[i], #[trigger] b1[j])
                != Ordering::Greater by {
                assert(c(b[i + 1], b[j + 1]) != Ordering::Greater);
            }
        }
        assert forall|z: T| #[trigger] ties_with(a1, c, z) == ties_with(b1, c, z) by {
            let r = |w: T| c(z, w) == Ordering::Equal;
            assert(ties_with(a, c, z) == ties_with(b, c, z));
            lemma_filter_first(a, r);
            lemma_filter_first(b, r);
            if r(x) {
                assert(a1.filter(r) =~= a.filter(r).drop_first());
                assert(b1.filter(r) =~= b.filter(r).drop_first());
            }
        }
        lemma_same_ties_same_sequence(a1, b1, c);
        assert(a =~= seq![x] + a1);
        assert(b =~= seq![x] + b1);
    }
}

/// Every element of a filtered sequence occurs in the sequence.
pub proof fn lemma_filter_witness<T>(s: Seq<T>, p: spec_fn(T) -> bool, i: int)
    requires
        0 <= i < s.filter(p).len(),
    ensures
        p(s.filter(p)[i]),
        exists|k: int| 0 <= k < s.len() && #[trigger] s[k] == s.filter(p)[i],
    decreases s.len(),
{
    reveal(Seq::filter);
    if s.len() > 0 {
        let t = s.drop_last();
        lemma_filter_last(t, s.last(), p);
        assert(t.push(s.last()) =~= s);
        if i < t.filter(p).len() {
            lemma_filter_witness(t, p, i);
            let k = choose|k: int| 0 <= k < t.len() && #[trigger] t[k] == t.filter(p)[i];
            assert(s[k] == s.filter(p)[i]);
        } else {
            assert(s[s.len() - 1] == s.filter(p)[i]);
        }
    }
}

/// An order read through a function is total.
pub proof fn lemma_pullback_is_total<T, U>(
    c: spec_fn(T, T) -> Ordering,
    d: spec_fn(U, U) -> Ordering,
    f: spec_fn(T) -> U,
)
    requires
        is_total_order(d),
        forall|a: T, b: T| #[trigger] c(a, b) == d(f(a), f(b)),
    ensures
        is_total_order(c),
{
    assert forall|a: T, b: T| #[trigger] c(a, b) == flipped(c(b, a)) by {
        assert(c(b, a) == d(f(b), f(a)));
        assert(d(f(a), f(b)) == flipped(d(f(b), f(a))));
    }
    assert forall|a: T, b: T, e: T|
        #![trigger c(a, b), c(b, e)]
        c(a, b) != Ordering::Greater && c(b, e) != Ordering::Greater implies c(a, e)
        != Ordering::Greater by {
        assert(c(a, e) == d(f(a), f(e)));
        assert(d(f(a), f(b)) != Ordering::Greater && d(f(b), f(e)) != Ordering::Greater);
    }
}

/// The order of the integers that `f` gives is total.
pub proof fn lemma_rank_order_is_total<T>(c: spec_fn(T, T) -> Ordering, f: spec_fn(T) -> int)
    requires
        forall|a: T, b: T| #[trigger] c(a, b) == int_order(f(a), f(b)),
    ensures
        is_total_order(c),
{
    let d = |x: int, y: int| int_order(x, y);
    assert(is_total_order(d));
    lemma_pullback_is_total(c, d, f);
}

/// Breaking the ties of one total order by another gives a total order.
pub proof fn lemma_tie_broken_is_total<T>(
    e: spec_fn(T, T) -> Ordering,
    c: spec_fn(T, T) -> Ordering,
    d: spec_fn(T, T) -> Ordering,
)
    requires
        is_total_order(c),
        is_total_order(d),
        forall|a: T, b: T| #[trigger] e(a, b) == tie_broken(c(a, b), d(a, b)),
    ensures
        is_total_order(e),
{
    assert forall|a: T, b: T| #[trigger] e(a, b) == flipped(e(b, a)) by {
        assert(c(a, b) == flipped(c(b, a)));
        assert(d(a, b) == flipped(d(b, a)));
        assert(e(b, a) == tie_broken(c(b, a), d(b, a)));
    }
    assert forall|x: T, y: T, z: T|
        #![trigger e(x, y), e(y, z)]
        e(x, y) != Ordering::Greater && e(y, z) != Ordering::Greater implies e(x, z)
        != Ordering::Greater by {
        assert(e(x, z) == tie_broken(c(x, z), d(x, z)));
        assert(c(x, y) != Ordering::Greater && c(y, z) != Ordering::Greater);
        assert(c(x, z) != Ordering::Greater);
        assert(c(y, x) == flipped(c(x, y)) && c(z, x) == flipped(c(x, z)) && c(z, y) == flipped(
            c(y, z),
        ));
        if c(x, z) == Ordering::Equal {
            // Both steps tie: z <= x, x <= y and y <= z.
            assert(c(z, x) != Ordering::Greater);
            assert(c(z, y) != Ordering::Greater) by {
                assert(c(z, x) != Ordering::Greater && c(x, y) != Ordering::Greater);
            }
            assert(c(y, x) != Ordering::Greater) by {
                assert(c(y, z) != Ordering::Greater && c(z, x) != Ordering::Greater);
            }
            assert(c(x, y) == Ordering::Equal && c(y, z) == Ordering::Equal);
            assert(d(x, y) != Ordering::Greater && d(y, z) != Ordering::Greater);
            assert(d(x, z) != Ordering::Greater);
        }
    }
}

/// A total order stays total when it is reversed.
pub proof fn lemma_directed_is_total<T>(
    e: spec_fn(T, T) -> Ordering,
    c: spec_fn(T, T) -> Ordering,
    reverse: bool,
)
    requires
        is_total_order(c),
        forall|a: T, b: T| #[trigger] e(a, b) == directed(c(a, b), reverse),
    ensures
        is_total_order(e),
{
    assert forall|a: T, b: T| #[trigger] e(a, b) == flipped(e(b, a)) by {
        assert(c(a, b) == flipped(c(b, a)));
        assert(e(b, a) == directed(c(b, a), reverse));
    }
    assert forall|x: T, y: T, z: T|
        #![trigger e(x, y), e(y, z)]
        e(x, y) != Ordering::Greater && e(y, z) != Ordering::Greater implies e(x, z)
        != Ordering::Greater by {
        assert(e(x, z) == directed(c(x, z), reverse));
        if reverse {
            assert(c(y, x) == flipped(c(x, y)));
            assert(c(z, y) == flipped(c(y, z)));
            assert(c(z, x) == flipped(c(x, z)));
            assert(c(z, y) != Ordering::Greater && c(y, x) != Ordering::Greater);
            assert(c(z, x) != Ordering::Greater);
        } else {
            assert(c(x, y) != Ordering::Greater && c(y, z) != Ordering::Greater);
        }
    }
}

} // verus!
