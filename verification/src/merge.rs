//! Merging inputs that are already sorted.

use crate::config::Config;
use crate::index::{ix, nat_int};
use crate::inmemory::{by_sorter, same_keys};
use crate::key::{sorter_order_is_total, Sorter};
use crate::lines::{deduped, views};
use crate::order::{
    flipped, in_order, is_stable_sort, is_total_order, lemma_filter_first, stable_sort, ties_with,
};
use crate::stable::{lemma_filter_agrees, lemma_is_stable_sort, lemma_permuted_element, lemma_same_ties_permutes, stable_sort_exists};
use std::cmp::Ordering;
use vstd::prelude::*;

verus! {

/// The number of elements of all sequences.
pub open spec fn total_len<T>(files: Seq<Seq<T>>) -> nat
    decreases files.len(),
{
    if files.len() == 0 {
        0
    } else {
        total_len(files.drop_last()) + files.last().len()
    }
}

/// Which of the first `n` sequences has the least first element; of several, the
/// first one.
pub open spec fn least_head<T>(files: Seq<Seq<T>>, c: spec_fn(T, T) -> Ordering, n: int) -> Option<int>
    decreases n,
{
    if n <= 0 {
        None
    } else {
        let before = least_head(files, c, n - 1);
        if files[n - 1].len() == 0 {
            before
        } else {
            match before {
                None => Some(n - 1),
                Some(b) => if c(files[n - 1][0], files[b][0]) == Ordering::Less {
                    Some(n - 1)
                } else {
                    Some(b)
                },
            }
        }
    }
}

/// The sequences without the first element of sequence `f`.
pub open spec fn without_head<T>(files: Seq<Seq<T>>, f: int) -> Seq<Seq<T>> {
    files.update(f, files[f].drop_first())
}

/// The elements of all sequences, always the least of the first elements next.
pub open spec fn merged<T>(files: Seq<Seq<T>>, c: spec_fn(T, T) -> Ordering) -> Seq<T>
    decreases total_len(files),
{
    match least_head(files, c, nat_int(files.len())) {
        None => Seq::empty(),
        Some(f) => {
            proof {
                lemma_least_head(files, c, nat_int(files.len()));
                lemma_without_head(files, f);
            }
            seq![files[f][0]] + merged(without_head(files, f), c)
        },
    }
}

pub proof fn lemma_least_head<T>(files: Seq<Seq<T>>, c: spec_fn(T, T) -> Ordering, n: int)
    requires
        n <= files.len(),
    ensures
        match least_head(files, c, n) {
            None => forall|f: int| 0 <= f < n ==> (#[trigger] files[f]).len() == 0,
            Some(b) => 0 <= b < n && files[b].len() > 0,
        },
    decreases n,
{
    if n > 0 {
        lemma_least_head(files, c, n - 1);
    }
}

pub proof fn lemma_without_head<T>(files: Seq<Seq<T>>, f: int)
    requires
        0 <= f < files.len(),
        files[f].len() > 0,
    ensures
        total_len(without_head(files, f)) + 1 == total_len(files),
    decreases files.len(),
{
    let rest = without_head(files, f);
    let init = files.drop_last();
    if f < files.len() - 1 {
        lemma_without_head(init, f);
        assert(rest.drop_last() =~= without_head(init, f));
    } else {
        assert(rest.drop_last() =~= init);
    }
}

/// A merge takes every element once.
pub proof fn lemma_merged_len<T>(files: Seq<Seq<T>>, c: spec_fn(T, T) -> Ordering)
    ensures
        merged(files, c).len() == total_len(files),
    decreases total_len(files),
{
    lemma_least_head(files, c, nat_int(files.len()));
    match least_head(files, c, nat_int(files.len())) {
        Some(f) => {
            lemma_without_head(files, f);
            lemma_merged_len(without_head(files, f), c);
        },
        None => {
            lemma_all_empty(files);
        },
    }
}

proof fn lemma_all_empty<T>(files: Seq<Seq<T>>)
    requires
        forall|f: int| 0 <= f < files.len() ==> (#[trigger] files[f]).len() == 0,
    ensures
        total_len(files) == 0,
    decreases files.len(),
{
    if files.len() > 0 {
        let init = files.drop_last();
        assert forall|f: int| 0 <= f < init.len() implies (#[trigger] init[f]).len() == 0 by {
            assert(init[f] == files[f]);
        }
        lemma_all_empty(init);
    }
}

/// The least head is below the heads before it and no greater than those behind.
proof fn lemma_least_is_least<T>(files: Seq<Seq<T>>, c: spec_fn(T, T) -> Ordering, n: int, b: int)
    requires
        is_total_order(c),
        n <= files.len(),
        least_head(files, c, n) == Some(b),
    ensures
        0 <= b < n,
        files[b].len() > 0,
        forall|f: int|
            0 <= f < n && (#[trigger] files[f]).len() > 0 ==> c(files[b][0], files[f][0])
                != Ordering::Greater,
        forall|f: int|
            0 <= f < b && (#[trigger] files[f]).len() > 0 ==> c(files[b][0], files[f][0])
                == Ordering::Less,
    decreases n,
{
    lemma_least_head(files, c, n);
    lemma_least_head(files, c, n - 1);
    let before = least_head(files, c, n - 1);
    if before is Some {
        lemma_least_is_least(files, c, n - 1, before->Some_0);
    }
    let h = files[b][0];
    if files[n - 1].len() > 0 {
        let last = files[n - 1][0];
        assert(c(last, last) == Ordering::Equal);
        assert(c(h, last) == flipped(c(last, h)));
        if b == n - 1 && before is Some {
            let o = files[before->Some_0][0];
            assert forall|f: int| 0 <= f < b && (#[trigger] files[f]).len() > 0 implies c(
                h,
                files[f][0],
            ) == Ordering::Less by {
                let x = files[f][0];
                assert(c(o, x) != Ordering::Greater);
                assert(c(h, o) == Ordering::Less);
                lemma_less_then_not_greater(c, h, o, x);
            }
        }
    }
}

proof fn lemma_less_then_not_greater<T>(c: spec_fn(T, T) -> Ordering, a: T, b: T, d: T)
    requires
        is_total_order(c),
        c(a, b) == Ordering::Less,
        c(b, d) != Ordering::Greater,
    ensures
        c(a, d) == Ordering::Less,
{
    assert(c(a, d) != Ordering::Greater);
    assert(c(d, a) == flipped(c(a, d)));
    assert(c(b, a) == flipped(c(a, b)));
    if c(a, d) == Ordering::Equal {
        assert(c(b, d) != Ordering::Greater && c(d, a) != Ordering::Greater);
        assert(c(b, a) != Ordering::Greater);
    }
}

/// All sequences are in order.
pub open spec fn all_in_order<T>(files: Seq<Seq<T>>, c: spec_fn(T, T) -> Ordering) -> bool {
    forall|f: int| 0 <= f < files.len() ==> in_order(#[trigger] files[f], c)
}

/// The elements of all sequences, one sequence behind the other.
pub open spec fn concatenated<T>(files: Seq<Seq<T>>) -> Seq<T>
    decreases files.len(),
{
    if files.len() == 0 {
        Seq::empty()
    } else {
        concatenated(files.drop_last()) + files.last()
    }
}

/// An element of a concatenation is an element of one of the sequences.
pub proof fn lemma_concatenated_element<T>(files: Seq<Seq<T>>, i: int)
    requires
        0 <= i < concatenated(files).len(),
    ensures
        exists|f: int, k: int|
            0 <= f < files.len() && 0 <= k < files[f].len() && #[trigger] files[f][k]
                == concatenated(files)[i],
    decreases files.len(),
{
    let init = files.drop_last();
    let n = concatenated(init).len();
    if i < n {
        lemma_concatenated_element(init, i);
        let (f, k) = choose|f: int, k: int|
            0 <= f < init.len() && 0 <= k < init[f].len() && #[trigger] init[f][k] == concatenated(
                init,
            )[i];
        assert(files[f][k] == concatenated(files)[i]);
    } else {
        assert(files[files.len() - 1][i - n] == concatenated(files)[i]);
    }
}

/// What a filter lets through of a concatenation without one first element.
proof fn lemma_concatenated_without_head<T>(files: Seq<Seq<T>>, f: int, p: spec_fn(T) -> bool)
    requires
        0 <= f < files.len(),
        files[f].len() > 0,
        p(files[f][0]) ==> forall|g: int, k: int|
            0 <= g < f && 0 <= k < files[g].len() ==> !p(#[trigger] files[g][k]),
    ensures
        concatenated(files).filter(p) == (if p(files[f][0]) {
            seq![files[f][0]] + concatenated(without_head(files, f)).filter(p)
        } else {
            concatenated(without_head(files, f)).filter(p)
        }),
    decreases files.len(),
{
    let init = files.drop_last();
    let rest = without_head(files, f);
    let h = files[f][0];
    Seq::filter_distributes_over_add(concatenated(init), files.last(), p);
    Seq::filter_distributes_over_add(concatenated(rest.drop_last()), rest.last(), p);
    if f < files.len() - 1 {
        assert forall|g: int, k: int| 0 <= g < f && 0 <= k < init[g].len() && p(init[f][0]) implies !p(
            #[trigger] init[g][k],
        ) by {
            assert(!p(files[g][k]));
        }
        lemma_concatenated_without_head(init, f, p);
        assert(rest.drop_last() =~= without_head(init, f));
        let a = concatenated(without_head(init, f)).filter(p);
        let b = files.last().filter(p);
        assert((seq![h] + a) + b =~= seq![h] + (a + b));
    } else {
        assert(rest.drop_last() =~= init);
        lemma_filter_first(files.last(), p);
        if p(h) {
            let all = concatenated(init);
            assert forall|i: int| 0 <= i < all.len() implies p(#[trigger] all[i]) == false by {
                lemma_concatenated_element(init, i);
                let (g, k) = choose|g: int, k: int|
                    0 <= g < init.len() && 0 <= k < init[g].len() && #[trigger] init[g][k]
                        == all[i];
                assert(!p(files[g][k]));
            }
            lemma_filter_agrees(all, p, |x: T| false);
            lemma_filter_none(all);
            let a = files.last().drop_first().filter(p);
            assert(Seq::<T>::empty() + (seq![h] + a) =~= seq![h] + (Seq::<T>::empty() + a));
        }
    }
}

proof fn lemma_filter_none<T>(s: Seq<T>)
    ensures
        s.filter(|x: T| false) == Seq::<T>::empty(),
    decreases s.len(),
{
    reveal(Seq::filter);
    if s.len() > 0 {
        lemma_filter_none(s.drop_last());
    }
}

/// Merging inputs that are in order sorts them: it is the stable sort of all their
/// lines, taken in the order of the inputs.
pub proof fn merging_sorts<T>(files: Seq<Seq<T>>, c: spec_fn(T, T) -> Ordering)
    requires
        is_total_order(c),
        all_in_order(files, c),
    ensures
        merged(files, c) == stable_sort(concatenated(files), c),
    decreases total_len(files),
{
    let all = concatenated(files);
    let n = nat_int(files.len());
    lemma_least_head(files, c, n);
    match least_head(files, c, n) {
        None => {
            if all.len() > 0 {
                lemma_concatenated_element(files, 0);
                let (f, k) = choose|f: int, k: int|
                    0 <= f < files.len() && 0 <= k < files[f].len() && #[trigger] files[f][k]
                        == all[0];
                assert(files[f].len() == 0);
            }
            assert(all =~= Seq::<T>::empty());
            assert(is_stable_sort(all, merged(files, c), c));
            lemma_is_stable_sort(all, merged(files, c), c);
        },
        Some(b) => {
            let rest = without_head(files, b);
            let h = files[b][0];
            let m = merged(rest, c);
            lemma_least_is_least(files, c, n, b);
            lemma_without_head(files, b);
            assert(all_in_order(rest, c)) by {
                assert forall|f: int| 0 <= f < rest.len() implies in_order(#[trigger] rest[f], c) by {
                    assert(in_order(files[f], c));
                    if f == b {
                        let t = files[b].drop_first();
                        assert forall|i: int, j: int| 0 <= i < j < t.len() implies c(
                            #[trigger] t[i],
                            #[trigger] t[j],
                        ) != Ordering::Greater by {
                            assert(c(files[b][i + 1], files[b][j + 1]) != Ordering::Greater);
                        }
                    }
                }
            }
            merging_sorts(rest, c);
            stable_sort_exists(concatenated(rest), c);
            lemma_same_ties_permutes(concatenated(rest), m, c);
            let out = seq![h] + m;
            // The least head comes first.
            assert(in_order(out, c)) by {
                assert forall|i: int, j: int| 0 <= i < j < out.len() implies c(
                    #[trigger] out[i],
                    #[trigger] out[j],
                ) != Ordering::Greater by {
                    if i > 0 {
                        assert(c(m[i - 1], m[j - 1]) != Ordering::Greater);
                    } else {
                        lemma_permuted_element(concatenated(rest), m, j - 1);
                        let q = choose|q: int|
                            0 <= q < concatenated(rest).len() && concatenated(rest)[q] == m[j - 1];
                        lemma_concatenated_element(rest, q);
                        let (f, k) = choose|f: int, k: int|
                            0 <= f < rest.len() && 0 <= k < rest[f].len() && #[trigger] rest[f][k]
                                == concatenated(rest)[q];
                        lemma_head_is_below(files, c, b, f, if f == b { k + 1 } else { k });
                    }
                }
            }
            assert forall|x: T| #[trigger] ties_with(out, c, x) == ties_with(all, c, x) by {
                let p = |y: T| c(x, y) == Ordering::Equal;
                lemma_filter_first(out, p);
                assert(out.drop_first() =~= m);
                assert(ties_with(m, c, x) == ties_with(concatenated(rest), c, x));
                assert forall|g: int, k: int| 0 <= g < b && 0 <= k < files[g].len() && p(h) implies !p(
                    #[trigger] files[g][k],
                ) by {
                    lemma_head_is_below(files, c, b, g, k);
                    let y = files[g][k];
                    assert(c(h, x) == flipped(c(x, h)));
                    if c(x, y) == Ordering::Equal {
                        assert(c(y, x) == flipped(c(x, y)));
                        assert(c(y, h) == flipped(c(h, y)));
                        assert(c(y, x) != Ordering::Greater && c(x, h) != Ordering::Greater);
                        assert(c(y, h) != Ordering::Greater);
                    }
                }
                lemma_concatenated_without_head(files, b, p);
            }
            lemma_is_stable_sort(all, out, c);
        },
    }
}

/// The least head is no greater than any element, and below those of earlier
/// sequences.
proof fn lemma_head_is_below<T>(files: Seq<Seq<T>>, c: spec_fn(T, T) -> Ordering, b: int, f: int, k: int)
    requires
        is_total_order(c),
        all_in_order(files, c),
        least_head(files, c, nat_int(files.len())) == Some(b),
        0 <= f < files.len(),
        0 <= k < files[f].len(),
    ensures
        c(files[b][0], files[f][k]) != Ordering::Greater,
        f < b ==> c(files[b][0], files[f][k]) == Ordering::Less,
{
    lemma_least_is_least(files, c, nat_int(files.len()), b);
    let h = files[b][0];
    let x = files[f][0];
    let y = files[f][k];
    assert(c(h, x) != Ordering::Greater);
    assert(in_order(files[f], c));
    if k > 0 {
        assert(c(files[f][0], files[f][k]) != Ordering::Greater);
        if f < b {
            lemma_less_then_not_greater(c, h, x, y);
        }
    }
}

/// The bytes of the lines of several inputs.
pub open spec fn all_views(files: Seq<Vec<&[u8]>>) -> Seq<Seq<Seq<u8>>> {
    files.map_values(|v: Vec<&[u8]>| views(v@))
}

/// What is left of the inputs behind the lines already taken.
spec fn remaining<'a>(files: Seq<Vec<&'a [u8]>>, heads: Seq<usize>) -> Seq<Seq<Seq<u8>>> {
    Seq::new(files.len(), |f: int| views(files[f]@).skip(ix(heads[f])))
}

/// The input whose next line is the least, the first of several.
fn least_input<'a>(per_file: &Vec<Vec<&'a [u8]>>, heads: &Vec<usize>, sorter: &Sorter) -> (best: Option<usize>)
    requires
        sorter.is_valid(),
        heads@.len() == per_file@.len(),
        forall|f: int| 0 <= f < heads@.len() ==> #[trigger] heads@[f] <= per_file@[f]@.len(),
    ensures
        match best {
            Some(b) => least_head(
                remaining(per_file@, heads@),
                by_sorter(*sorter),
                nat_int(per_file@.len()),
            ) == Some(ix(b)) && b < per_file@.len() && heads@[ix(b)] < per_file@[ix(b)]@.len(),
            None => least_head(
                remaining(per_file@, heads@),
                by_sorter(*sorter),
                nat_int(per_file@.len()),
            ) is None,
        },
{
    let mut best: Option<usize> = None;
    let mut f: usize = 0;
    let ghost left = remaining(per_file@, heads@);
    while f < per_file.len()
        invariant
            f <= per_file@.len(),
            sorter.is_valid(),
            left == remaining(per_file@, heads@),
            heads@.len() == per_file@.len(),
            forall|g: int| 0 <= g < heads@.len() ==> #[trigger] heads@[g] <= per_file@[g]@.len(),
            match best {
                Some(b) => least_head(left, by_sorter(*sorter), ix(f)) == Some(ix(b)) && b < f
                    && heads@[ix(b)] < per_file@[ix(b)]@.len(),
                None => least_head(left, by_sorter(*sorter), ix(f)) is None,
            },
        decreases per_file@.len() - f,
    {
        assert(heads@[ix(f)] <= per_file@[ix(f)]@.len());
        if heads[f] < per_file[f].len() {
            match best {
                None => {
                    best = Some(f);
                },
                Some(b) => {
                    match sorter.compare(per_file[f][heads[f]], per_file[b][heads[b]]) {
                        Ordering::Less => {
                            best = Some(f);
                        },
                        _ => {},
                    }
                },
            }
        }
        f += 1;
    }
    best
}

/// Taking the next line of input `b`.
proof fn lemma_taken<'a>(files: Seq<Vec<&'a [u8]>>, heads: Seq<usize>, c: spec_fn(Seq<u8>, Seq<u8>) -> Ordering, b: int)
    requires
        heads.len() == files.len(),
        forall|f: int| 0 <= f < heads.len() ==> #[trigger] heads[f] <= files[f]@.len(),
        0 <= b < files.len(),
        heads[b] < files[b]@.len(),
        least_head(remaining(files, heads), c, nat_int(files.len())) == Some(b),
    ensures
        forall|next: usize|
            next == heads[b] + 1 ==> {
                let rest = #[trigger] remaining(files, heads.update(b, next));
                &&& merged(remaining(files, heads), c) == seq![files[b]@[ix(heads[b])]@] + merged(
                    rest,
                    c,
                )
                &&& total_len(rest) + 1 == total_len(remaining(files, heads))
            },
{
    let left = remaining(files, heads);
    let h = heads[b];
    lemma_without_head(left, b);
    assert forall|next: usize| next == h + 1 implies #[trigger] remaining(
        files,
        heads.update(b, next),
    ) == without_head(left, b) by {
        let rest = remaining(files, heads.update(b, next));
        assert forall|f: int| 0 <= f < rest.len() implies rest[f] == without_head(left, b)[f] by {
            if f == b {
                let v = views(files[f]@);
                assert(v.skip(h + 1) =~= v.skip(ix(h)).drop_first());
            }
        }
        assert(rest =~= without_head(left, b));
    }
}

/// Sequence `f` is the first that holds anything.
pub open spec fn is_first_filled<T>(files: Seq<Seq<T>>, f: int) -> bool {
    &&& 0 <= f < files.len()
    &&& files[f].len() > 0
    &&& forall|g: int| 0 <= g < f ==> (#[trigger] files[g]).len() == 0
}

/// Which input the header stands at the start of: the first that holds anything.
pub open spec fn header_at<T>(files: Seq<Seq<T>>, header: bool) -> Option<int> {
    if header && exists|f: int| is_first_filled(files, f) {
        Some(choose|f: int| is_first_filled(files, f))
    } else {
        None
    }
}

/// The inputs without the header.
pub open spec fn below_header<T>(files: Seq<Seq<T>>, header: bool) -> Seq<Seq<T>> {
    match header_at(files, header) {
        Some(f) => without_head(files, f),
        None => files,
    }
}

/// Takes the header off the inputs.
pub fn take_header<'a>(per_file: Vec<Vec<&'a [u8]>>, header: bool) -> (r: (
    Option<&'a [u8]>,
    Vec<Vec<&'a [u8]>>,
))
    ensures
        match header_at(all_views(per_file@), header) {
            Some(f) => r.0 is Some && r.0->Some_0@ == all_views(per_file@)[f][0],
            None => r.0 is None,
        },
        all_views(r.1@) == below_header(all_views(per_file@), header),
{
    let ghost files = all_views(per_file@);
    let mut rest = per_file;
    if header {
        let mut i: usize = 0;
        while i < rest.len()
            invariant
                i <= rest@.len(),
                rest@ == per_file@,
                files == all_views(per_file@),
                header,
                forall|g: int| 0 <= g < i ==> (#[trigger] files[g]).len() == 0,
            decreases rest@.len() - i,
        {
            assert(files[ix(i)] == views(rest@[ix(i)]@));
            if rest[i].len() > 0 {
                let head: &'a [u8] = rest[i].remove(0);
                proof {
                    assert(is_first_filled(files, ix(i)));
                    let f = choose|f: int| is_first_filled(files, f);
                    assert(f == i) by {
                        if f < i {
                            assert(files[f].len() == 0);
                        } else if f > i {
                            assert(files[ix(i)].len() == 0);
                        }
                    }
                    assert(views(rest@[ix(i)]@) =~= files[ix(i)].drop_first());
                    assert(all_views(rest@) =~= without_head(files, ix(i)));
                }
                return (Some(head), rest);
            }
            i += 1;
        }
    }
    (None, rest)
}

/// The header of several inputs is the first of all their elements.
pub proof fn header_comes_first<T>(files: Seq<Seq<T>>, header: bool)
    ensures
        match header_at(files, header) {
            Some(f) => {
                &&& concatenated(files).len() > 0
                &&& concatenated(files)[0] == files[f][0]
                &&& concatenated(below_header(files, header)) == concatenated(files).drop_first()
            },
            None => header ==> concatenated(files).len() == 0,
        },
{
    match header_at(files, header) {
        Some(f) => {
            lemma_first_filled(files, f);
        },
        None => {
            if header {
                lemma_first_exists(files, nat_int(files.len()));
                lemma_nothing_in_empty(files);
            }
        },
    }
}

/// Where some sequence holds something there is a first one.
proof fn lemma_first_exists<T>(files: Seq<Seq<T>>, n: int)
    requires
        0 <= n <= files.len(),
        forall|f: int| !is_first_filled(files, f),
    ensures
        forall|f: int| 0 <= f < n ==> (#[trigger] files[f]).len() == 0,
    decreases n,
{
    if n > 0 {
        lemma_first_exists(files, n - 1);
        assert(!is_first_filled(files, n - 1));
    }
}

proof fn lemma_nothing_in_empty<T>(files: Seq<Seq<T>>)
    requires
        forall|f: int| 0 <= f < files.len() ==> (#[trigger] files[f]).len() == 0,
    ensures
        concatenated(files).len() == 0,
    decreases files.len(),
{
    if files.len() > 0 {
        let init = files.drop_last();
        assert forall|f: int| 0 <= f < init.len() implies (#[trigger] init[f]).len() == 0 by {
            assert(init[f] == files[f]);
        }
        lemma_nothing_in_empty(init);
        assert(files[files.len() - 1].len() == 0);
    }
}

proof fn lemma_first_filled<T>(files: Seq<Seq<T>>, f: int)
    requires
        is_first_filled(files, f),
    ensures
        concatenated(files).len() > 0,
        concatenated(files)[0] == files[f][0],
        concatenated(without_head(files, f)) == concatenated(files).drop_first(),
    decreases files.len(),
{
    let init = files.drop_last();
    let rest = without_head(files, f);
    if f == files.len() - 1 {
        assert forall|g: int| 0 <= g < init.len() implies (#[trigger] init[g]).len() == 0 by {
            assert(init[g] == files[g]);
        }
        lemma_nothing_in_empty(init);
        assert(rest.drop_last() =~= init);
        assert(concatenated(init) + files.last() =~= files.last());
        assert(concatenated(init) + rest.last() =~= rest.last());
    } else {
        assert(is_first_filled(init, f)) by {
            assert forall|g: int| 0 <= g < f implies (#[trigger] init[g]).len() == 0 by {
                assert(init[g] == files[g]);
            }
        }
        lemma_first_filled(init, f);
        assert(rest.drop_last() =~= without_head(init, f));
        assert(concatenated(rest) =~= concatenated(files).drop_first());
    }
}

/// Merges inputs that are already sorted (`-m`): of several lines that tie, the one
/// of the first input comes first. Gives the lines and how many `-u` removed.
pub fn merge_sorted<'a>(per_file: Vec<Vec<&'a [u8]>>, cfg: &Config, sorter: &Sorter) -> (r: (Vec<&'a [u8]>, usize))
    requires
        sorter.is_valid(),
        total_len(all_views(per_file@)) <= usize::MAX,
    ensures
        ({
            let all = merged(all_views(per_file@), by_sorter(*sorter));
            &&& views(r.0@) == (if cfg.unique {
                deduped(all, same_keys(*sorter))
            } else {
                all
            })
            &&& r.1 == all.len() - r.0@.len()
        }),
{
    merge_inputs(per_file, cfg.unique, sorter)
}

/// Merges inputs that are already sorted, without repeated keys where `unique` is set.
/// Gives the lines and how many were left out.
pub fn merge_inputs<'a>(per_file: Vec<Vec<&'a [u8]>>, unique: bool, sorter: &Sorter) -> (r: (Vec<&'a [u8]>, usize))
    requires
        sorter.is_valid(),
        total_len(all_views(per_file@)) <= usize::MAX,
    ensures
        ({
            let all = merged(all_views(per_file@), by_sorter(*sorter));
            &&& views(r.0@) == (if unique {
                deduped(all, same_keys(*sorter))
            } else {
                all
            })
            &&& r.1 == all.len() - r.0@.len()
        }),
{
    let mut heads: Vec<usize> = Vec::new();
    let mut i: usize = 0;
    while i < per_file.len()
        invariant
            i <= per_file@.len(),
            heads@.len() == i,
            forall|f: int| 0 <= f < i ==> #[trigger] heads@[f] == 0,
        decreases per_file@.len() - i,
    {
        heads.push(0);
        i += 1;
    }
    let mut out: Vec<&'a [u8]> = Vec::new();
    let mut dups: usize = 0;
    let ghost files = all_views(per_file@);
    let ghost c = by_sorter(*sorter);
    let ghost mut taken: Seq<Seq<u8>> = Seq::empty();
    proof {
        assert(remaining(per_file@, heads@) =~= files) by {
            assert forall|f: int| 0 <= f < files.len() implies remaining(per_file@, heads@)[f]
                == files[f] by {
                assert(files[f].skip(0) =~= files[f]);
            }
        }
        assert(taken + merged(files, c) =~= merged(files, c));
        assert(views(out@) =~= Seq::<Seq<u8>>::empty());
    }
    loop
        invariant
            sorter.is_valid(),
            files == all_views(per_file@),
            c == by_sorter(*sorter),
            total_len(files) <= usize::MAX,
            heads@.len() == per_file@.len(),
            forall|f: int| 0 <= f < heads@.len() ==> #[trigger] heads@[f] <= per_file@[f]@.len(),
            merged(files, c) == taken + merged(remaining(per_file@, heads@), c),
            taken.len() + total_len(remaining(per_file@, heads@)) == total_len(files),
            views(out@) == (if unique {
                deduped(taken, same_keys(*sorter))
            } else {
                taken
            }),
            dups == taken.len() - out@.len(),
        ensures
            merged(files, c) == taken,
            views(out@) == (if unique {
                deduped(taken, same_keys(*sorter))
            } else {
                taken
            }),
            dups == taken.len() - out@.len(),
        decreases total_len(remaining(per_file@, heads@)),
    {
        let ghost left = remaining(per_file@, heads@);
        let best = least_input(&per_file, &heads, sorter);
        let b: usize = match best {
            Some(b) => b,
            None => {
                assert(taken + merged(left, c) =~= taken);
                break;
            },
        };
        let line: &'a [u8] = per_file[b][heads[b]];
        let ghost old_heads = heads@;
        let ghost before = taken;
        let h: usize = heads[b];
        heads[b] = h + 1;
        proof {
            lemma_taken(per_file@, old_heads, c, ix(b));
            assert(heads@ == old_heads.update(ix(b), heads@[ix(b)]));
            let rest = merged(remaining(per_file@, heads@), c);
            taken = taken.push(line@);
            assert(before + (seq![line@] + rest) =~= taken + rest);
            assert(taken.drop_last() =~= before);
        }
        let ghost kept = out@;
        let repeated: bool = unique && out.len() > 0 && sorter.key_equal(
            out[out.len() - 1],
            line,
        );
        if repeated {
            dups += 1;
        } else {
            out.push(line);
            assert(views(out@) =~= views(kept).push(line@));
        }
    }
    (out, dups)
}

/// With sorted inputs `-m` writes what sorting all their lines would.
pub proof fn merge_agrees_with_sort(files: Seq<Seq<Seq<u8>>>, sorter: Sorter)
    requires
        all_in_order(files, by_sorter(sorter)),
    ensures
        merged(files, by_sorter(sorter)) == stable_sort(concatenated(files), by_sorter(sorter)),
{
    sorter_order_is_total(sorter);
    assert(by_sorter(sorter) =~= (|a: Seq<u8>, b: Seq<u8>| sorter.order(a, b)));
    merging_sorts(files, by_sorter(sorter));
}

} // verus!
