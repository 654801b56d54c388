//! Sorting and mapping, in parallel and in place, of items under an order that
//! is known to be total.

use crate::index::ix;
use crate::order::{in_order, is_stable_sort, is_total_order};
use rayon::iter::{IntoParallelRefIterator, ParallelIterator};
use rayon::slice::ParallelSliceMut;
use std::cmp::Ordering;
use vstd::prelude::*;

verus! {

/// A way to order items of type `T`. Implementors prove that the order is total,
/// so that it can be handed to any sort.
pub trait ItemOrder<T>: Sync {
    /// The items that [`ItemOrder::compare_items`] takes.
    spec fn admits(&self, item: T) -> bool;

    /// The order of the items.
    spec fn item_order(&self) -> spec_fn(T, T) -> Ordering;

    /// The order is total.
    proof fn item_order_is_total(&self)
        ensures
            is_total_order(self.item_order()),
    ;

    /// Computes the order of two items.
    fn compare_items(&self, a: &T, b: &T) -> (o: Ordering)
        requires
            self.admits(*a),
            self.admits(*b),
        ensures
            o == (self.item_order())(*a, *b),
    ;
}

/// A function on items of type `T`.
pub trait ItemMap<T>: Sync {
    /// What an item is mapped to.
    type Out: Send;

    /// Whether `image` is what `item` is mapped to.
    spec fn maps_to(&self, item: T, image: Self::Out) -> bool;

    /// Maps one item.
    fn map_item(&self, item: &T) -> (image: Self::Out)
        ensures
            self.maps_to(*item, image),
    ;
}

/// Calls rayon's `par_sort_by`, which sorts stably: items that tie keep their
/// order.
#[verifier::external_body]
pub(crate) fn par_sort_by<T: Send, C: ItemOrder<T>>(items: &mut Vec<T>, by: &C)
    requires
        forall|i: int| 0 <= i < old(items)@.len() ==> by.admits(#[trigger] old(items)@[i]),
    ensures
        is_stable_sort(old(items)@, final(items)@, by.item_order()),
{
    items.par_sort_by(|a, b| by.compare_items(a, b));
}

/// Calls rayon's `par_sort_unstable_by`, which puts the items in order and says
/// nothing of the order of items that tie.
#[verifier::external_body]
pub(crate) fn par_sort_unstable_by<T: Send, C: ItemOrder<T>>(items: &mut Vec<T>, by: &C)
    requires
        forall|i: int| 0 <= i < old(items)@.len() ==> by.admits(#[trigger] old(items)@[i]),
    ensures
        final(items)@.to_multiset() == old(items)@.to_multiset(),
        in_order(final(items)@, by.item_order()),
{
    items.par_sort_unstable_by(|a, b| by.compare_items(a, b));
}

/// Calls rayon's `par_iter` with `map` and `collect`: the images come in the
/// order of the items.
#[verifier::external_body]
pub(crate) fn par_map<T: Sync, M: ItemMap<T>>(items: &Vec<T>, by: &M) -> (images: Vec<M::Out>)
    ensures
        images@.len() == items@.len(),
        forall|i: int| 0 <= i < items@.len() ==> by.maps_to(items@[i], #[trigger] images@[i]),
{
    items.par_iter().map(|item| by.map_item(item)).collect()
}

/// Calls `select_nth_unstable_by` of std's slices: puts at `nth` the item that
/// would stand there if the items were sorted, nothing greater before it and
/// nothing less behind it.
#[verifier::external_body]
pub(crate) fn select_nth_unstable_by<T, C: ItemOrder<T>>(items: &mut Vec<T>, nth: usize, by: &C)
    requires
        nth < old(items)@.len(),
        forall|i: int| 0 <= i < old(items)@.len() ==> by.admits(#[trigger] old(items)@[i]),
    ensures
        final(items)@.to_multiset() == old(items)@.to_multiset(),
        forall|i: int|
            0 <= i < nth ==> (by.item_order())(
                #[trigger] final(items)@[i],
                final(items)@[ix(nth)],
            ) != Ordering::Greater,
        forall|i: int|
            nth < i < final(items)@.len() ==> (by.item_order())(
                final(items)@[ix(nth)],
                #[trigger] final(items)@[i],
            ) != Ordering::Greater,
{
    items.select_nth_unstable_by(nth, |a, b| by.compare_items(a, b));
}

/// Calls `sort_unstable_by` of std's slices on the items from `from` to `to`: puts
/// them in order, says nothing of the order of items that tie, and leaves the
/// others where they are.
#[verifier::external_body]
pub(crate) fn sort_range_unstable_by<T, C: ItemOrder<T>>(items: &mut Vec<T>, from: usize, to: usize, by: &C)
    requires
        from <= to <= old(items)@.len(),
        forall|i: int| from <= i < to ==> by.admits(#[trigger] old(items)@[i]),
    ensures
        final(items)@.len() == old(items)@.len(),
        final(items)@.take(ix(from)) == old(items)@.take(ix(from)),
        final(items)@.skip(ix(to)) == old(items)@.skip(ix(to)),
        final(items)@.subrange(ix(from), ix(to)).to_multiset() == old(items)@.subrange(
            ix(from),
            ix(to),
        ).to_multiset(),
        in_order(final(items)@.subrange(ix(from), ix(to)), by.item_order()),
{
    items[from..to].sort_unstable_by(|a, b| by.compare_items(a, b));
}

} // verus!
