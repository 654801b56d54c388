//! Lexicographic order, and the byte order of lines.

use crate::index::{ints, ix};
use crate::order::{flipped, is_total_order};
use std::cmp::Ordering;
use vstd::prelude::*;

verus! {

/// Lexicographic order: the first difference decides, and a proper prefix comes
/// first.
pub open spec fn lex_order(a: Seq<int>, b: Seq<int>) -> Ordering
    decreases a.len(),
{
    if a.len() == 0 && b.len() == 0 {
        Ordering::Equal
    } else if a.len() == 0 {
        Ordering::Less
    } else if b.len() == 0 {
        Ordering::Greater
    } else if a[0] < b[0] {
        Ordering::Less
    } else if a[0] > b[0] {
        Ordering::Greater
    } else {
        lex_order(a.drop_first(), b.drop_first())
    }
}

/// The order of raw bytes.
pub open spec fn bytes_order(a: Seq<u8>, b: Seq<u8>) -> Ordering {
    lex_order(ints(a), ints(b))
}

/// [`lex_order`] as a function.
pub open spec fn lex() -> spec_fn(Seq<int>, Seq<int>) -> Ordering {
    |a: Seq<int>, b: Seq<int>| lex_order(a, b)
}

/// Equal starts do not matter.
pub proof fn lemma_lex_common_prefix(a: Seq<int>, b: Seq<int>, n: int)
    requires
        0 <= n <= a.len(),
        n <= b.len(),
        forall|i: int| 0 <= i < n ==> #[trigger] a[i] == b[i],
    ensures
        lex_order(a, b) == lex_order(a.skip(n), b.skip(n)),
    decreases n,
{
    if n == 0 {
        assert(a.skip(0) =~= a);
        assert(b.skip(0) =~= b);
    } else {
        assert(a[0] == b[0]);
        let a1 = a.drop_first();
        let b1 = b.drop_first();
        assert forall|i: int| 0 <= i < n - 1 implies #[trigger] a1[i] == b1[i] by {
            assert(a[i + 1] == b[i + 1]);
        }
        lemma_lex_common_prefix(a1, b1, n - 1);
        assert(a1.skip(n - 1) =~= a.skip(n));
        assert(b1.skip(n - 1) =~= b.skip(n));
    }
}

pub proof fn lemma_lex_flips(a: Seq<int>, b: Seq<int>)
    ensures
        lex_order(a, b) == flipped(lex_order(b, a)),
    decreases a.len(),
{
    if a.len() > 0 && b.len() > 0 {
        lemma_lex_flips(a.drop_first(), b.drop_first());
    }
}

proof fn lemma_lex_transitive(a: Seq<int>, b: Seq<int>, d: Seq<int>)
    requires
        lex_order(a, b) != Ordering::Greater,
        lex_order(b, d) != Ordering::Greater,
    ensures
        lex_order(a, d) != Ordering::Greater,
    decreases a.len(),
{
    if a.len() > 0 && b.len() > 0 && d.len() > 0 && a[0] == b[0] && b[0] == d[0] {
        lemma_lex_transitive(a.drop_first(), b.drop_first(), d.drop_first());
    }
}

/// Only equal sequences tie.
pub proof fn lemma_lex_equal(a: Seq<int>, b: Seq<int>)
    ensures
        lex_order(a, b) == Ordering::Equal <==> a == b,
    decreases a.len(),
{
    if a.len() == 0 || b.len() == 0 {
        assert(a.len() == 0 && b.len() == 0 ==> a =~= b);
    } else {
        lemma_lex_equal(a.drop_first(), b.drop_first());
        if a[0] == b[0] && a.drop_first() == b.drop_first() {
            assert(a =~= seq![a[0]] + a.drop_first());
            assert(b =~= seq![b[0]] + b.drop_first());
        }
    }
}

/// Lexicographic order is total.
pub proof fn lex_order_is_total()
    ensures
        is_total_order(lex()),
{
    assert forall|a: Seq<int>, b: Seq<int>| #[trigger] (lex())(a, b) == flipped((lex())(b, a)) by {
        lemma_lex_flips(a, b);
    }
    assert forall|a: Seq<int>, b: Seq<int>, d: Seq<int>|
        #![trigger (lex())(a, b), (lex())(b, d)]
        (lex())(a, b) != Ordering::Greater && (lex())(b, d) != Ordering::Greater implies (lex())(
        a,
        d,
    ) != Ordering::Greater by {
        lemma_lex_transitive(a, b, d);
    }
}

/// Lines tie in byte order only when they are the same bytes.
pub proof fn bytes_order_ties_only_equal(a: Seq<u8>, b: Seq<u8>)
    ensures
        bytes_order(a, b) == Ordering::Equal <==> a == b,
{
    lemma_lex_equal(ints(a), ints(b));
    if ints(a) == ints(b) {
        assert(a.len() == b.len());
        assert forall|i: int| 0 <= i < a.len() implies a[i] == b[i] by {
            assert(ints(a)[i] == ints(b)[i]);
        }
        assert(a =~= b);
    }
}

/// Compares two byte strings.
pub fn compare_bytes(a: &[u8], b: &[u8]) -> (o: Ordering)
    ensures
        o == bytes_order(a@, b@),
{
    let mut i: usize = 0;
    while i < a.len() && i < b.len()
        invariant
            i <= a@.len(),
            i <= b@.len(),
            forall|k: int| 0 <= k < i ==> #[trigger] a@[k] == b@[k],
        decreases a@.len() - i,
    {
        if a[i] != b[i] {
            proof {
                lemma_first_difference(a@, b@, ix(i));
            }
            return if a[i] < b[i] {
                Ordering::Less
            } else {
                Ordering::Greater
            };
        }
        i += 1;
    }
    proof {
        lemma_first_difference(a@, b@, ix(i));
    }
    if a.len() < b.len() {
        Ordering::Less
    } else if a.len() > b.len() {
        Ordering::Greater
    } else {
        Ordering::Equal
    }
}

/// What stands behind an equal start decides.
proof fn lemma_first_difference(a: Seq<u8>, b: Seq<u8>, n: int)
    requires
        0 <= n <= a.len(),
        n <= b.len(),
        forall|k: int| 0 <= k < n ==> #[trigger] a[k] == b[k],
    ensures
        n < a.len() && n < b.len() && a[n] < b[n] ==> bytes_order(a, b) == Ordering::Less,
        n < a.len() && n < b.len() && a[n] > b[n] ==> bytes_order(a, b) == Ordering::Greater,
        n == a.len() && n < b.len() ==> bytes_order(a, b) == Ordering::Less,
        n < a.len() && n == b.len() ==> bytes_order(a, b) == Ordering::Greater,
        n == a.len() && n == b.len() ==> bytes_order(a, b) == Ordering::Equal,
{
    assert forall|k: int| 0 <= k < n implies #[trigger] ints(a)[k] == ints(b)[k] by {
        assert(a[k] == b[k]);
    }
    lemma_lex_common_prefix(ints(a), ints(b), n);
}

} // verus!
