//! What the orders of values and of bytes mean.

use crate::index::{ints, nat_int};
use crate::lex::{bytes_order, lemma_lex_common_prefix, lex_order};
use crate::order::{directed, flipped, int_order, tie_broken};
use std::cmp::Ordering;
use vstd::prelude::*;

verus! {

/// The order the other way round.
pub open spec fn opposite(o: Ordering) -> Ordering {
    match o {
        Ordering::Less => Ordering::Greater,
        Ordering::Equal => Ordering::Equal,
        Ordering::Greater => Ordering::Less,
    }
}

/// Where sequences first differ, the lesser element decides; where one is the start of
/// the other, the shorter one comes first; and only equal ones tie.
pub open spec fn goes_by_first_difference<T>(
    o: Ordering,
    a: Seq<T>,
    b: Seq<T>,
    value: spec_fn(T) -> int,
) -> bool {
    &&& forall|i: int|
        0 <= i < a.len() && i < b.len() && (forall|j: int|
            0 <= j < i ==> value(#[trigger] a[j]) == value(b[j])) ==> {
            &&& value(#[trigger] a[i]) < value(b[i]) ==> o == Ordering::Less
            &&& value(a[i]) > value(b[i]) ==> o == Ordering::Greater
        }
    &&& (a.len() <= b.len() && forall|j: int|
        0 <= j < a.len() ==> value(#[trigger] a[j]) == value(b[j])) ==> o == (if a.len() < b.len() {
        Ordering::Less
    } else {
        Ordering::Equal
    })
    &&& (b.len() < a.len() && forall|j: int|
        0 <= j < b.len() ==> value(#[trigger] a[j]) == value(b[j])) ==> o == Ordering::Greater
}

/// Integers are ordered by size, `reverse` turns an order round, and a tie is broken
/// by what comes second.
pub proof fn orders_are_what_they_say(x: int, y: int, first: Ordering, second: Ordering)
    ensures
        int_order(x, y) == Ordering::Less <==> x < y,
        int_order(x, y) == Ordering::Equal <==> x == y,
        int_order(x, y) == Ordering::Greater <==> x > y,
        flipped(first) == opposite(first),
        directed(first, true) == opposite(first),
        directed(first, false) == first,
        first != Ordering::Equal ==> tie_broken(first, second) == first,
        first == Ordering::Equal ==> tie_broken(first, second) == second,
{
}

proof fn lemma_lex_decides(a: Seq<int>, b: Seq<int>, i: int)
    requires
        0 <= i <= a.len(),
        i <= b.len(),
        forall|j: int| 0 <= j < i ==> #[trigger] a[j] == b[j],
    ensures
        i < a.len() && i < b.len() && a[i] < b[i] ==> lex_order(a, b) == Ordering::Less,
        i < a.len() && i < b.len() && a[i] > b[i] ==> lex_order(a, b) == Ordering::Greater,
        i == a.len() && i < b.len() ==> lex_order(a, b) == Ordering::Less,
        i < a.len() && i == b.len() ==> lex_order(a, b) == Ordering::Greater,
        i == a.len() && i == b.len() ==> lex_order(a, b) == Ordering::Equal,
{
    lemma_lex_common_prefix(a, b, i);
    if i < a.len() {
        assert(a.skip(i)[0] == a[i]);
    }
    if i < b.len() {
        assert(b.skip(i)[0] == b[i]);
    }
}

/// The first difference between sequences of integers decides.
pub proof fn integers_go_by_first_difference(a: Seq<int>, b: Seq<int>)
    ensures
        goes_by_first_difference(lex_order(a, b), a, b, |n: int| n),
{
    let value = |n: int| n;
    let o = lex_order(a, b);
    assert forall|i: int|
        0 <= i < a.len() && i < b.len() && (forall|j: int|
            0 <= j < i ==> value(#[trigger] a[j]) == value(b[j])) implies {
        &&& value(#[trigger] a[i]) < value(b[i]) ==> o == Ordering::Less
        &&& value(a[i]) > value(b[i]) ==> o == Ordering::Greater
    } by {
        assert forall|j: int| 0 <= j < i implies #[trigger] a[j] == b[j] by {
            assert(value(a[j]) == value(b[j]));
        }
        lemma_lex_decides(a, b, i);
    }
    if a.len() <= b.len() && forall|j: int|
        0 <= j < a.len() ==> value(#[trigger] a[j]) == value(b[j]) {
        assert forall|j: int| 0 <= j < a.len() implies #[trigger] a[j] == b[j] by {
            assert(value(a[j]) == value(b[j]));
        }
        lemma_lex_decides(a, b, nat_int(a.len()));
    }
    if b.len() < a.len() && forall|j: int|
        0 <= j < b.len() ==> value(#[trigger] a[j]) == value(b[j]) {
        assert forall|j: int| 0 <= j < b.len() implies #[trigger] a[j] == b[j] by {
            assert(value(a[j]) == value(b[j]));
        }
        lemma_lex_decides(a, b, nat_int(b.len()));
    }
}

/// The first difference between integers that stand for the elements decides.
pub proof fn lemma_image_goes_by_first_difference<T>(a: Seq<T>, b: Seq<T>, value: spec_fn(T) -> int, x: Seq<int>, y: Seq<int>)
    requires
        x.len() == a.len(),
        y.len() == b.len(),
        forall|i: int| 0 <= i < a.len() ==> #[trigger] x[i] == value(a[i]),
        forall|i: int| 0 <= i < b.len() ==> #[trigger] y[i] == value(b[i]),
    ensures
        goes_by_first_difference(lex_order(x, y), a, b, value),
{
    let o = lex_order(x, y);
    assert forall|i: int|
        0 <= i < a.len() && i < b.len() && (forall|j: int|
            0 <= j < i ==> value(#[trigger] a[j]) == value(b[j])) implies {
        &&& value(#[trigger] a[i]) < value(b[i]) ==> o == Ordering::Less
        &&& value(a[i]) > value(b[i]) ==> o == Ordering::Greater
    } by {
        assert forall|j: int| 0 <= j < i implies #[trigger] x[j] == y[j] by {
            assert(value(a[j]) == value(b[j]));
        }
        assert(x[i] == value(a[i]) && y[i] == value(b[i]));
        lemma_lex_decides(x, y, i);
    }
    if a.len() <= b.len() && forall|j: int|
        0 <= j < a.len() ==> value(#[trigger] a[j]) == value(b[j]) {
        assert forall|j: int| 0 <= j < a.len() implies #[trigger] x[j] == y[j] by {
            assert(value(a[j]) == value(b[j]));
        }
        lemma_lex_decides(x, y, nat_int(a.len()));
    }
    if b.len() < a.len() && forall|j: int|
        0 <= j < b.len() ==> value(#[trigger] a[j]) == value(b[j]) {
        assert forall|j: int| 0 <= j < b.len() implies #[trigger] x[j] == y[j] by {
            assert(value(a[j]) == value(b[j]));
        }
        lemma_lex_decides(x, y, nat_int(b.len()));
    }
}

/// A byte as an integer.
pub open spec fn byte_value() -> spec_fn(u8) -> int {
    |b: u8| b + 0
}

/// The first byte that differs decides between lines.
pub proof fn bytes_go_by_first_difference(a: Seq<u8>, b: Seq<u8>)
    ensures
        goes_by_first_difference(bytes_order(a, b), a, b, byte_value()),
{
    lemma_image_goes_by_first_difference(a, b, byte_value(), ints(a), ints(b));
}

} // verus!
