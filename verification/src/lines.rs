//! Lines put in order: sorted, without repeated keys, and cut off.

use crate::index::{ix, nat_int};
use crate::order::{in_order, is_total_order, stable_sort};
use crate::parallel::{par_sort_by, par_sort_unstable_by, select_nth_unstable_by, ItemOrder};
use crate::stable::{
    lemma_any_sort_is_stable, lemma_permutation_map, lemma_same_ties_permutes,
    lemma_stable_sort_map, stable_sort_exists,
};
use std::cmp::Ordering;
use vstd::prelude::*;

verus! {

/// The bytes of lines.
pub open spec fn views(lines: Seq<&[u8]>) -> Seq<Seq<u8>> {
    lines.map_values(|l: &[u8]| l@)
}

/// `s` without the elements that are the same as the last one kept before them.
pub open spec fn deduped<T>(s: Seq<T>, same: spec_fn(T, T) -> bool) -> Seq<T>
    decreases s.len(),
{
    if s.len() == 0 {
        s
    } else {
        let kept = deduped(s.drop_last(), same);
        if kept.len() > 0 && same(kept.last(), s.last()) {
            kept
        } else {
            kept.push(s.last())
        }
    }
}

/// The first `top` elements, or all of them.
pub open spec fn first_n<T>(s: Seq<T>, top: Option<usize>) -> Seq<T> {
    match top {
        Some(n) => if n < s.len() {
            s.take(n as int)
        } else {
            s
        },
        None => s,
    }
}

/// The lines in order; with `unique`, the first of each run of lines that are the
/// same.
pub open spec fn distinct<T>(
    lines: Seq<T>,
    order: spec_fn(T, T) -> Ordering,
    same: spec_fn(T, T) -> bool,
    unique: bool,
) -> Seq<T> {
    if unique {
        deduped(stable_sort(lines, order), same)
    } else {
        stable_sort(lines, order)
    }
}

/// The lines that a sort writes.
pub open spec fn arranged<T>(
    lines: Seq<T>,
    order: spec_fn(T, T) -> Ordering,
    same: spec_fn(T, T) -> bool,
    unique: bool,
    top: Option<usize>,
) -> Seq<T> {
    first_n(distinct(lines, order, same, unique), top)
}

/// Items that stand for lines and are ordered as the lines are.
pub trait LineItems<T>: ItemOrder<T> {
    /// What an item stands for: the bytes of a line, or the parts of a record.
    type Line;

    /// The line of an item.
    spec fn line(&self, item: T) -> Self::Line;

    /// The order of the lines.
    spec fn line_order(&self) -> spec_fn(Self::Line, Self::Line) -> Ordering;

    /// Whether two lines count as the same.
    spec fn same_line(&self) -> spec_fn(Self::Line, Self::Line) -> bool;

    /// Only identical lines tie.
    spec fn ties_are_identical(&self) -> bool;

    /// The items are ordered as their lines, and the order of lines is total.
    proof fn items_follow_lines(&self)
        ensures
            is_total_order(self.line_order()),
            forall|a: T, b: T| #[trigger]
                (self.item_order())(a, b) == (self.line_order())(self.line(a), self.line(b)),
            self.ties_are_identical() ==> forall|a: Self::Line, b: Self::Line| #[trigger]
                (self.line_order())(a, b) == Ordering::Equal ==> a == b,
    ;

    /// Computes whether the lines of two items count as the same.
    fn same_items(&self, a: &T, b: &T) -> (r: bool)
        requires
            self.admits(*a),
            self.admits(*b),
        ensures
            r == (self.same_line())(self.line(*a), self.line(*b)),
    ;
}

/// The lines of items.
pub open spec fn lines_of<T, C: LineItems<T>>(by: &C, items: Seq<T>) -> Seq<C::Line> {
    items.map_values(|item: T| by.line(item))
}

/// All items can be compared.
pub open spec fn all_admitted<T, C: LineItems<T>>(by: &C, items: Seq<T>) -> bool {
    forall|i: int| 0 <= i < items.len() ==> by.admits(#[trigger] items[i])
}

pub proof fn lemma_permuted_admitted<T, C: LineItems<T>>(by: &C, s: Seq<T>, out: Seq<T>)
    requires
        all_admitted(by, s),
        out.to_multiset() == s.to_multiset(),
    ensures
        all_admitted(by, out),
        out.len() == s.len(),
{
    broadcast use vstd::seq_lib::group_to_multiset_ensures;

    assert(s.len() == s.to_multiset().len());
    assert(out.len() == out.to_multiset().len());
    assert forall|i: int| 0 <= i < out.len() implies by.admits(#[trigger] out[i]) by {
        assert(out.contains(out[i]));
        assert(out.to_multiset().count(out[i]) > 0);
        assert(s.contains(out[i]));
        let k = choose|k: int| 0 <= k < s.len() && s[k] == out[i];
        assert(by.admits(s[k]));
    }
}

/// What stands in front after a selection, once sorted, is the start of the whole
/// sort.
proof fn lemma_selected_start<L>(
    all: Seq<L>,
    front: Seq<L>,
    back: Seq<L>,
    out: Seq<L>,
    c: spec_fn(L, L) -> Ordering,
)
    requires
        is_total_order(c),
        forall|a: L, b: L| #[trigger] c(a, b) == Ordering::Equal ==> a == b,
        (front + back).to_multiset() == all.to_multiset(),
        out.to_multiset() == front.to_multiset(),
        in_order(out, c),
        forall|i: int, j: int|
            0 <= i < front.len() && 0 <= j < back.len() ==> c(
                #[trigger] front[i],
                #[trigger] back[j],
            ) != Ordering::Greater,
    ensures
        out == stable_sort(all, c).take(nat_int(front.len())),
        out.len() == front.len(),
{
    broadcast use vstd::seq_lib::group_to_multiset_ensures;

    let rest = stable_sort(back, c);
    stable_sort_exists(back, c);
    lemma_same_ties_permutes(back, rest, c);
    let whole = out + rest;
    assert(out.len() == out.to_multiset().len());
    assert(front.len() == front.to_multiset().len());
    vstd::seq_lib::lemma_multiset_commutative(out, rest);
    vstd::seq_lib::lemma_multiset_commutative(front, back);
    assert(whole.to_multiset() =~= all.to_multiset());
    assert(in_order(whole, c)) by {
        assert forall|i: int, j: int| 0 <= i < j < whole.len() implies c(
            #[trigger] whole[i],
            #[trigger] whole[j],
        ) != Ordering::Greater by {
            if j < out.len() {
                assert(c(out[i], out[j]) != Ordering::Greater);
            } else if i >= out.len() {
                assert(c(rest[i - out.len()], rest[j - out.len()]) != Ordering::Greater);
            } else {
                let x = out[i];
                let y = rest[j - out.len()];
                assert(out.contains(x));
                assert(out.to_multiset().count(x) > 0);
                assert(front.contains(x));
                assert(rest.contains(y));
                assert(rest.to_multiset().count(y) > 0);
                assert(back.contains(y));
                let k = choose|k: int| 0 <= k < front.len() && front[k] == x;
                let l = choose|l: int| 0 <= l < back.len() && back[l] == y;
                assert(c(front[k], back[l]) != Ordering::Greater);
            }
        }
    }
    lemma_any_sort_is_stable(all, whole, c);
    assert(whole.take(nat_int(out.len())) =~= out);
}

/// An unstable sort of items whose lines tie only when identical.
proof fn lemma_unstable<T, C: LineItems<T>>(by: &C, s: Seq<T>, out: Seq<T>)
    requires
        by.ties_are_identical(),
        out.to_multiset() == s.to_multiset(),
        in_order(out, by.item_order()),
    ensures
        lines_of(by, out).to_multiset() == lines_of(by, s).to_multiset(),
        in_order(lines_of(by, out), by.line_order()),
        lines_of(by, out) == stable_sort(lines_of(by, s), by.line_order()),
{
    let f = |item: T| by.line(item);
    by.items_follow_lines();
    lemma_permutation_map(s, out, f);
    let lines = lines_of(by, out);
    assert(in_order(lines, by.line_order())) by {
        assert forall|i: int, j: int| 0 <= i < j < lines.len() implies (by.line_order())(
            #[trigger] lines[i],
            #[trigger] lines[j],
        ) != Ordering::Greater by {
            assert((by.item_order())(out[i], out[j]) != Ordering::Greater);
        }
    }
    lemma_any_sort_is_stable(lines_of(by, s), lines, by.line_order());
}

/// Sorts the items and keeps the first `n`, without sorting the others.
fn sort_first<T: Copy + Send, C: LineItems<T>>(items: Vec<T>, by: &C, n: usize) -> (r: Vec<T>)
    requires
        by.ties_are_identical(),
        all_admitted(by, items@),
    ensures
        all_admitted(by, r@),
        lines_of(by, r@) == first_n(
            stable_sort(lines_of(by, items@), by.line_order()),
            Some(n),
        ),
{
    let mut v = items;
    proof {
        by.items_follow_lines();
        stable_sort_exists(lines_of(by, items@), by.line_order());
        lemma_same_ties_permutes(
            lines_of(by, items@),
            stable_sort(lines_of(by, items@), by.line_order()),
            by.line_order(),
        );
    }
    let n: usize = if n < v.len() {
        n
    } else {
        v.len()
    };
    if n == 0 {
        let none: Vec<T> = Vec::new();
        proof {
            let sorted = stable_sort(lines_of(by, items@), by.line_order());
            assert(lines_of(by, none@) =~= first_n(sorted, Some(0)));
            assert(lines_of(by, none@) =~= sorted.take(0));
        }
        return none;
    }
    let ghost mut back: Seq<T> = Seq::empty();
    if n < v.len() {
        select_nth_unstable_by(&mut v, n - 1, by);
        let ghost chosen = v@;
        proof {
            back = chosen.skip(ix(n));
            lemma_permuted_admitted(by, items@, chosen);
            lemma_front_and_back(by, chosen, n - 1);
            assert(chosen.take(ix(n)) + back =~= chosen);
        }
        v.truncate(n);
        assert(v@ =~= chosen.take(ix(n)));
        assert(all_admitted(by, v@)) by {
            assert forall|i: int| 0 <= i < v@.len() implies by.admits(#[trigger] v@[i]) by {
                assert(v@[i] == chosen[i]);
            }
        }
    } else {
        assert(v@ + back =~= v@);
    }
    let ghost front = v@;
    assert((front + back).to_multiset() == items@.to_multiset());
    par_sort_unstable_by(&mut v, by);
    proof {
        lemma_permuted_admitted(by, front, v@);
        lemma_unstable(by, front, v@);
        lemma_permutation_map(front + back, items@, |item: T| by.line(item));
        assert(lines_of(by, front + back) =~= lines_of(by, front) + lines_of(by, back));
        lemma_selected_start(
            lines_of(by, items@),
            lines_of(by, front),
            lines_of(by, back),
            lines_of(by, v@),
            by.line_order(),
        );
        let sorted = stable_sort(lines_of(by, items@), by.line_order());
        assert(sorted.len() == items@.len());
        assert(n == items@.len() ==> sorted.take(ix(n)) =~= sorted);
    }
    v
}

/// The front of a selection against its back.
proof fn lemma_front_and_back<T, C: LineItems<T>>(by: &C, chosen: Seq<T>, nth: int)
    requires
        0 <= nth < chosen.len(),
        forall|i: int|
            0 <= i < nth ==> (by.item_order())(#[trigger] chosen[i], chosen[nth])
                != Ordering::Greater,
        forall|i: int|
            nth < i < chosen.len() ==> (by.item_order())(chosen[nth], #[trigger] chosen[i])
                != Ordering::Greater,
    ensures
        ({
            let front = lines_of(by, chosen.take(nth + 1));
            let back = lines_of(by, chosen.skip(nth + 1));
            forall|i: int, j: int|
                0 <= i < front.len() && 0 <= j < back.len() ==> (by.line_order())(
                    #[trigger] front[i],
                    #[trigger] back[j],
                ) != Ordering::Greater
        }),
{
    by.items_follow_lines();
    by.item_order_is_total();
    let front = lines_of(by, chosen.take(nth + 1));
    let back = lines_of(by, chosen.skip(nth + 1));
    let c = by.item_order();
    assert forall|i: int, j: int| 0 <= i < front.len() && 0 <= j < back.len() implies (
    by.line_order())(#[trigger] front[i], #[trigger] back[j]) != Ordering::Greater by {
        let x = chosen[i];
        let y = chosen[nth + 1 + j];
        assert(c(chosen[nth], y) != Ordering::Greater);
        if i < nth {
            assert(c(x, chosen[nth]) != Ordering::Greater);
        }
        assert(c(x, y) != Ordering::Greater);
    }
}

/// Removes items whose lines are the same as the last one kept.
pub(crate) fn dedup_items<T: Copy, C: LineItems<T>>(items: Vec<T>, by: &C) -> (r: Vec<T>)
    requires
        all_admitted(by, items@),
    ensures
        all_admitted(by, r@),
        lines_of(by, r@) == deduped(lines_of(by, items@), by.same_line()),
        r@.len() <= items@.len(),
{
    let mut kept: Vec<T> = Vec::new();
    let mut i: usize = 0;
    let ghost lines = lines_of(by, items@);
    proof {
        assert(lines.take(0) =~= Seq::<C::Line>::empty());
        assert(lines_of(by, kept@) =~= Seq::<C::Line>::empty());
    }
    while i < items.len()
        invariant
            i <= items@.len(),
            lines == lines_of(by, items@),
            all_admitted(by, items@),
            all_admitted(by, kept@),
            kept@.len() <= i,
            lines_of(by, kept@) == deduped(lines.take(ix(i)), by.same_line()),
        decreases items@.len() - i,
    {
        let item: T = items[i];
        let ghost before = kept@;
        proof {
            assert(lines.take(i + 1).drop_last() =~= lines.take(ix(i)));
            assert(lines.take(i + 1).last() == by.line(item));
        }
        let repeated: bool = kept.len() > 0 && by.same_items(&kept[kept.len() - 1], &item);
        if !repeated {
            kept.push(item);
            assert(lines_of(by, kept@) =~= lines_of(by, before).push(by.line(item)));
        }
        i += 1;
    }
    assert(lines.take(ix(i)) =~= lines);
    kept
}

/// Sorts items, removes repeated lines where `unique` is set, and keeps the first
/// `top`. Also says how many were removed. Unless `stable` is set only identical
/// lines may tie.
pub(crate) fn arrange<T: Copy + Send, C: LineItems<T>>(
    items: Vec<T>,
    by: &C,
    stable: bool,
    unique: bool,
    top: Option<usize>,
) -> (r: (Vec<T>, usize))
    requires
        all_admitted(by, items@),
        stable || by.ties_are_identical(),
    ensures
        all_admitted(by, r.0@),
        lines_of(by, r.0@) == arranged(
            lines_of(by, items@),
            by.line_order(),
            by.same_line(),
            unique,
            top,
        ),
        r.1 == items@.len() - distinct(
            lines_of(by, items@),
            by.line_order(),
            by.same_line(),
            unique,
        ).len(),
{
    let ghost lines = lines_of(by, items@);
    proof {
        by.items_follow_lines();
        stable_sort_exists(lines, by.line_order());
        lemma_same_ties_permutes(lines, stable_sort(lines, by.line_order()), by.line_order());
    }
    match top {
        Some(n) => {
            if !unique && !stable {
                return (sort_first(items, by, n), 0);
            }
        },
        None => {},
    }
    let mut v = items;
    if stable {
        par_sort_by(&mut v, by);
        proof {
            by.item_order_is_total();
            lemma_same_ties_permutes(items@, v@, by.item_order());
            lemma_permuted_admitted(by, items@, v@);
            lemma_stable_sort_map(
                items@,
                v@,
                |item: T| by.line(item),
                by.item_order(),
                by.line_order(),
            );
        }
    } else {
        par_sort_unstable_by(&mut v, by);
        proof {
            lemma_permuted_admitted(by, items@, v@);
            lemma_unstable(by, items@, v@);
        }
    }
    let before: usize = v.len();
    if unique {
        v = dedup_items(v, by);
    }
    let removed: usize = before - v.len();
    let ghost all = v@;
    match top {
        Some(n) => {
            v.truncate(n);
            proof {
                if n < all.len() {
                    assert(v@ =~= all.take(ix(n)));
                    assert(lines_of(by, v@) =~= lines_of(by, all).take(ix(n)));
                }
                assert forall|i: int| 0 <= i < v@.len() implies by.admits(#[trigger] v@[i]) by {
                    assert(v@[i] == all[i]);
                }
            }
        },
        None => {},
    }
    (v, removed)
}

/// What is written is no more than what was read.
pub proof fn lemma_arranged_len<T>(
    lines: Seq<T>,
    order: spec_fn(T, T) -> Ordering,
    same: spec_fn(T, T) -> bool,
    unique: bool,
    top: Option<usize>,
)
    requires
        is_total_order(order),
    ensures
        distinct(lines, order, same, unique).len() <= lines.len(),
        arranged(lines, order, same, unique, top).len() <= lines.len(),
{
    stable_sort_exists(lines, order);
    lemma_same_ties_permutes(lines, stable_sort(lines, order), order);
    lemma_deduped_len(stable_sort(lines, order), same);
}

pub proof fn lemma_deduped_len<T>(s: Seq<T>, same: spec_fn(T, T) -> bool)
    ensures
        deduped(s, same).len() <= s.len(),
    decreases s.len(),
{
    if s.len() > 0 {
        lemma_deduped_len(s.drop_last(), same);
    }
}

/// Relations that agree on the elements of a sequence remove the same ones.
pub proof fn lemma_deduped_agrees<T>(s: Seq<T>, p: spec_fn(T, T) -> bool, q: spec_fn(T, T) -> bool)
    requires
        forall|i: int, j: int|
            0 <= i < s.len() && 0 <= j < s.len() ==> p(#[trigger] s[i], #[trigger] s[j]) == q(
                s[i],
                s[j],
            ),
    ensures
        deduped(s, p) == deduped(s, q),
        deduped(s, p).len() > 0 ==> s.contains(deduped(s, p).last()),
    decreases s.len(),
{
    if s.len() > 0 {
        let t = s.drop_last();
        assert forall|i: int, j: int| 0 <= i < t.len() && 0 <= j < t.len() implies p(
            #[trigger] t[i],
            #[trigger] t[j],
        ) == q(t[i], t[j]) by {
            assert(p(s[i], s[j]) == q(s[i], s[j]));
        }
        lemma_deduped_agrees(t, p, q);
        let kept = deduped(t, p);
        if kept.len() > 0 {
            let k = choose|k: int| 0 <= k < t.len() && t[k] == kept.last();
            assert(s[k] == kept.last());
            assert(p(s[k], s[s.len() - 1]) == q(s[k], s[s.len() - 1]));
        }
        assert(s[s.len() - 1] == s.last());
    }
}

} // verus!
