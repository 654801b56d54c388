//! What `--count`, `-u` and `--top` leave of sorted lines.

use crate::check::by_keys;
use crate::config::Config;
use crate::engine::{all_groups, job_distinct, job_groups, job_lines};
use crate::index::index_nat;
use crate::inmemory::{by_sorter, same_keys};
use crate::key::{
    compare_refines_check, keys_order, keys_order_is_total, sorter_order_is_total, Sorter,
};
use crate::laws::{lemma_ties, sorting_keeps_lines};
use crate::order::{in_order, is_total_order, lemma_filter_last, stable_sort, ties_with};
use crate::output::counted;
use crate::stable::{
    lemma_filter_count, lemma_permuted_element, lemma_same_ties_permutes, stable_sort_exists,
};
use std::cmp::Ordering;
use vstd::prelude::*;

verus! {

/// How many elements of `s` tie with `x`.
pub open spec fn tie_count<T>(s: Seq<T>, c: spec_fn(T, T) -> Ordering, x: T) -> nat {
    s.filter(|y: T| c(x, y) == Ordering::Equal).len()
}

proof fn lemma_tie_count_push<T>(s: Seq<T>, l: T, c: spec_fn(T, T) -> Ordering, x: T)
    ensures
        tie_count(s.push(l), c, x) == tie_count(s, c, x) + (if c(x, l) == Ordering::Equal {
            1nat
        } else {
            0nat
        }),
{
    lemma_filter_last(s, l, |y: T| c(x, y) == Ordering::Equal);
}

proof fn lemma_no_ties<T>(s: Seq<T>, c: spec_fn(T, T) -> Ordering, x: T)
    requires
        forall|i: int| 0 <= i < s.len() ==> c(x, #[trigger] s[i]) != Ordering::Equal,
    ensures
        tie_count(s, c, x) == 0,
    decreases s.len(),
{
    reveal(Seq::filter);
    if s.len() > 0 {
        let init = s.drop_last();
        assert forall|i: int| 0 <= i < init.len() implies c(x, #[trigger] init[i])
            != Ordering::Equal by {
            assert(init[i] == s[i]);
        }
        lemma_no_ties(init, c, x);
        assert(c(x, s[s.len() - 1]) != Ordering::Equal);
        assert(init.push(s[s.len() - 1]) =~= s);
        lemma_tie_count_push(init, s[s.len() - 1], c, x);
    }
}

/// Some group ties with `x`.
pub open spec fn has_group<T>(groups: Seq<(nat, T)>, c: spec_fn(T, T) -> Ordering, x: T) -> bool {
    exists|i: int| 0 <= i < groups.len() && c((#[trigger] groups[i]).1, x) == Ordering::Equal
}

/// The groups of a sequence in order: one for each set of elements that tie, with their
/// number.
pub open spec fn are_groups<T>(s: Seq<T>, c: spec_fn(T, T) -> Ordering, groups: Seq<(nat, T)>) -> bool {
    &&& forall|i: int|
        0 <= i < groups.len() ==> (#[trigger] groups[i]).0 == tie_count(s, c, groups[i].1)
    &&& forall|i: int, j: int|
        #![trigger groups[i], groups[j]]
        0 <= i < j < groups.len() ==> c(groups[i].1, groups[j].1) == Ordering::Less
    &&& forall|k: int| 0 <= k < s.len() ==> has_group(groups, c, #[trigger] s[k])
}

proof fn lemma_counted<T>(s: Seq<T>, c: spec_fn(T, T) -> Ordering, same: spec_fn(T, T) -> bool)
    requires
        is_total_order(c),
        in_order(s, c),
        forall|a: T, b: T| #[trigger] same(a, b) <==> c(a, b) == Ordering::Equal,
    ensures
        are_groups(s, c, counted(s, same)),
    decreases s.len(),
{
    if s.len() > 0 {
        let init = s.drop_last();
        let l = s[s.len() - 1];
        assert(in_order(init, c)) by {
            assert forall|i: int, j: int|
                #![trigger init[i], init[j]]
                0 <= i < j < init.len() implies c(init[i], init[j]) != Ordering::Greater by {
                assert(init[i] == s[i] && init[j] == s[j]);
            }
        }
        lemma_counted(init, c, same);
        lemma_counted_push(init, l, c, same);
        assert(init.push(l) =~= s);
    }
}

/// Every group is one of the elements.
proof fn lemma_groups_are_elements<T>(s: Seq<T>, same: spec_fn(T, T) -> bool, i: int)
    requires
        0 <= i < counted(s, same).len(),
    ensures
        s.contains(counted(s, same)[i].1),
    decreases s.len(),
{
    let init = s.drop_last();
    let before = counted(init, same);
    if i < before.len() {
        lemma_groups_are_elements(init, same, i);
        let k = choose|k: int| 0 <= k < init.len() && init[k] == before[i].1;
        assert(s[k] == init[k]);
    } else {
        assert(s[s.len() - 1] == s.last());
    }
}

proof fn lemma_counted_push<T>(s: Seq<T>, l: T, c: spec_fn(T, T) -> Ordering, same: spec_fn(T, T) -> bool)
    requires
        is_total_order(c),
        in_order(s.push(l), c),
        forall|a: T, b: T| #[trigger] same(a, b) <==> c(a, b) == Ordering::Equal,
        are_groups(s, c, counted(s, same)),
    ensures
        are_groups(s.push(l), c, counted(s.push(l), same)),
{
    let all = s.push(l);
    let before = counted(s, same);
    let groups = counted(all, same);
    assert(all.drop_last() =~= s);
    assert(all.last() == l);
    let n = before.len() - 1;
    // No group comes after the new element.
    assert forall|i: int| 0 <= i < before.len() implies c((#[trigger] before[i]).1, l)
        != Ordering::Greater by {
        lemma_groups_are_elements(s, same, i);
        let k = choose|k: int| 0 <= k < s.len() && s[k] == before[i].1;
        assert(all[k] == s[k] && all[s.len() - 0] == l);
    }
    let joins = before.len() > 0 && c(before[n].1, l) == Ordering::Equal;
    assert(joins == (before.len() > 0 && same(before.last().1, l)));
    // Of the groups before the last, none ties with it.
    assert forall|i: int| 0 <= i < before.len() && (i < n || !joins) implies c(
        (#[trigger] before[i]).1,
        l,
    ) == Ordering::Less by {
        if i < n {
            assert(c(before[i].1, before[n].1) == Ordering::Less);
            assert(c(before[n].1, l) != Ordering::Greater);
            lemma_ties(c, before[i].1, before[n].1, l);
        }
    }
    assert forall|i: int| 0 <= i < groups.len() implies (#[trigger] groups[i]).0 == tie_count(
        all,
        c,
        groups[i].1,
    ) by {
        if i < before.len() {
            assert(groups[i].1 == before[i].1);
            assert(before[i].0 == tie_count(s, c, before[i].1));
            lemma_tie_count_push(s, l, c, before[i].1);
        } else {
            lemma_new_group(s, l, c, before);
        }
    }
    assert forall|i: int, j: int|
        #![trigger groups[i], groups[j]]
        0 <= i < j < groups.len() implies c(groups[i].1, groups[j].1) == Ordering::Less by {
        assert(groups[i].1 == before[i].1);
        if j < before.len() {
            assert(groups[j].1 == before[j].1);
            assert(c(before[i].1, before[j].1) == Ordering::Less);
        }
    }
    assert forall|k: int| 0 <= k < all.len() implies has_group(groups, c, #[trigger] all[k]) by {
        if k < s.len() {
            assert(has_group(before, c, s[k]));
            let i = choose|i: int|
                0 <= i < before.len() && c((#[trigger] before[i]).1, s[k]) == Ordering::Equal;
            assert(groups[i].1 == before[i].1);
        } else {
            lemma_ties(c, l, l, l);
            let last = groups.len() - 1;
            assert(c(groups[last].1, l) == Ordering::Equal);
        }
    }
}

/// An element that comes after all groups ties with itself alone.
proof fn lemma_new_group<T>(s: Seq<T>, l: T, c: spec_fn(T, T) -> Ordering, before: Seq<(nat, T)>)
    requires
        is_total_order(c),
        are_groups(s, c, before),
        forall|i: int| 0 <= i < before.len() ==> c((#[trigger] before[i]).1, l) == Ordering::Less,
    ensures
        tie_count(s.push(l), c, l) == 1,
{
    assert forall|k: int| 0 <= k < s.len() implies c(l, #[trigger] s[k]) != Ordering::Equal by {
        assert(has_group(before, c, s[k]));
        let i = choose|i: int|
            0 <= i < before.len() && c((#[trigger] before[i]).1, s[k]) == Ordering::Equal;
        lemma_ties(c, before[i].1, s[k], l);
        lemma_ties(c, l, s[k], before[i].1);
        lemma_ties(c, s[k], l, l);
        lemma_ties(c, before[i].1, l, l);
    }
    lemma_no_ties(s, c, l);
    lemma_tie_count_push(s, l, c, l);
    lemma_ties(c, l, l, l);
}

/// A permutation has as many elements that tie with `x`.
proof fn lemma_tie_count_permutes<T>(s: Seq<T>, out: Seq<T>, c: spec_fn(T, T) -> Ordering, x: T)
    requires
        out.to_multiset() == s.to_multiset(),
    ensures
        tie_count(out, c, x) == tie_count(s, c, x),
{
    broadcast use vstd::seq_lib::group_to_multiset_ensures;

    let p = |y: T| c(x, y) == Ordering::Equal;
    assert forall|y: T| out.filter(p).to_multiset().count(y) == s.filter(p).to_multiset().count(
        y,
    ) by {
        lemma_filter_count(s, p, y);
        lemma_filter_count(out, p, y);
    }
    assert(out.filter(p).to_multiset() =~= s.filter(p).to_multiset());
    assert(out.filter(p).len() == out.filter(p).to_multiset().len());
    assert(s.filter(p).len() == s.filter(p).to_multiset().len());
}

/// The groups of a permutation are those of the sequence.
proof fn lemma_groups_permute<T>(s: Seq<T>, out: Seq<T>, c: spec_fn(T, T) -> Ordering, groups: Seq<(nat, T)>)
    requires
        out.to_multiset() == s.to_multiset(),
        are_groups(out, c, groups),
    ensures
        are_groups(s, c, groups),
{
    assert forall|i: int| 0 <= i < groups.len() implies (#[trigger] groups[i]).0 == tie_count(
        s,
        c,
        groups[i].1,
    ) by {
        lemma_tie_count_permutes(s, out, c, groups[i].1);
    }
    assert forall|k: int| 0 <= k < s.len() implies has_group(groups, c, #[trigger] s[k]) by {
        lemma_permuted_element(out, s, k);
        let m = choose|m: int| 0 <= m < out.len() && out[m] == s[k];
        assert(has_group(groups, c, out[m]));
    }
}

proof fn lemma_sorted_groups(sorter: Sorter, sorted: Seq<Seq<u8>>)
    requires
        in_order(sorted, by_sorter(sorter)),
    ensures
        are_groups(sorted, by_keys(sorter), counted(sorted, same_keys(sorter))),
{
    keys_order_is_total(sorter.keys@, sorter.tab);
    assert(by_keys(sorter) =~= (|a: Seq<u8>, b: Seq<u8>|
        keys_order(sorter.keys@, sorter.tab, a, b)));
    lemma_in_key_order(sorted, sorter);
    lemma_counted(sorted, by_keys(sorter), same_keys(sorter));
}

proof fn lemma_sorted(sorter: Sorter, lines: Seq<Seq<u8>>)
    ensures
        in_order(stable_sort(lines, by_sorter(sorter)), by_sorter(sorter)),
        stable_sort(lines, by_sorter(sorter)).to_multiset() == lines.to_multiset(),
{
    sorter_order_is_total(sorter);
    assert(by_sorter(sorter) =~= (|a: Seq<u8>, b: Seq<u8>| sorter.order(a, b)));
    stable_sort_exists(lines, by_sorter(sorter));
    lemma_same_ties_permutes(lines, stable_sort(lines, by_sorter(sorter)), by_sorter(sorter));
}

/// `--count` writes one group for each set of lines that the keys do not tell apart, in
/// the order of the keys, with the number of its lines; and the line of a group is one
/// of them.
pub proof fn groups_count_ties(sorter: Sorter, lines: Seq<Seq<u8>>)
    ensures
        are_groups(
            lines,
            |a: Seq<u8>, b: Seq<u8>| sorter.key_order(a, b),
            all_groups(sorter, lines),
        ),
        forall|i: int|
            0 <= i < all_groups(sorter, lines).len() ==> lines.contains(
                (#[trigger] all_groups(sorter, lines)[i]).1,
            ),
{
    let sorted = stable_sort(lines, by_sorter(sorter));
    let groups = all_groups(sorter, lines);
    lemma_sorted(sorter, lines);
    lemma_sorted_groups(sorter, sorted);
    lemma_groups_permute(lines, sorted, by_keys(sorter), groups);
    assert(by_keys(sorter) =~= (|a: Seq<u8>, b: Seq<u8>| sorter.key_order(a, b)));
    assert forall|i: int| 0 <= i < groups.len() implies lines.contains((#[trigger] groups[i]).1) by {
        lemma_groups_are_elements(sorted, same_keys(sorter), i);
        let k = choose|k: int| 0 <= k < sorted.len() && sorted[k] == groups[i].1;
        lemma_permuted_element(lines, sorted, k);
    }
}

proof fn lemma_in_key_order(s: Seq<Seq<u8>>, sorter: Sorter)
    requires
        in_order(s, by_sorter(sorter)),
    ensures
        in_order(s, by_keys(sorter)),
{
    assert forall|i: int, j: int|
        #![trigger s[i], s[j]]
        0 <= i < j < s.len() implies by_keys(sorter)(s[i], s[j]) != Ordering::Greater by {
        assert(by_sorter(sorter)(s[i], s[j]) != Ordering::Greater);
        compare_refines_check(sorter, s[i], s[j]);
    }
}

/// A sort writes all the lines it reads, and no line before one that is less.
pub proof fn jobs_sort_lines(cfg: Config, sorter: Sorter, lines: Seq<Seq<u8>>)
    requires
        !cfg.unique,
        cfg.top is None,
    ensures
        ({
            let out = job_lines(cfg, sorter, lines);
            &&& out.to_multiset() == lines.to_multiset()
            &&& forall|i: int, j: int|
                #![trigger out[i], out[j]]
                0 <= i < j < out.len() ==> sorter.order(out[i], out[j]) != Ordering::Greater
        }),
{
    lemma_sorted(sorter, lines);
    let out = job_lines(cfg, sorter, lines);
    assert forall|i: int, j: int|
        #![trigger out[i], out[j]]
        0 <= i < j < out.len() implies sorter.order(out[i], out[j]) != Ordering::Greater by {
        assert(by_sorter(sorter)(out[i], out[j]) != Ordering::Greater);
    }
}

/// Of lines that tie, the one that was read first is written first.
pub proof fn jobs_keep_ties(cfg: Config, sorter: Sorter, lines: Seq<Seq<u8>>, x: Seq<u8>)
    requires
        !cfg.unique,
        cfg.top is None,
    ensures
        job_lines(cfg, sorter, lines).filter(
            |y: Seq<u8>| sorter.order(x, y) == Ordering::Equal,
        ) == lines.filter(|y: Seq<u8>| sorter.order(x, y) == Ordering::Equal),
{
    lemma_ties_are_kept(cfg, sorter, lines, x);
    assert((|y: Seq<u8>| by_sorter(sorter)(x, y) == Ordering::Equal) =~= (|y: Seq<u8>|
        sorter.order(x, y) == Ordering::Equal));
}

proof fn lemma_ties_are_kept(cfg: Config, sorter: Sorter, lines: Seq<Seq<u8>>, x: Seq<u8>)
    requires
        !cfg.unique,
        cfg.top is None,
    ensures
        ties_with(job_lines(cfg, sorter, lines), by_sorter(sorter), x) == ties_with(
            lines,
            by_sorter(sorter),
            x,
        ),
{
    sorting_keeps_lines(cfg, sorter, lines);
}

/// `cut` holds the first elements of `full`: as many as `top` asks for, or all.
pub open spec fn is_start_of<T>(cut: Seq<T>, full: Seq<T>, top: Option<usize>) -> bool {
    &&& cut.len() <= full.len()
    &&& forall|i: int| 0 <= i < cut.len() ==> #[trigger] cut[i] == full[i]
    &&& match top {
        Some(n) => if index_nat(n) < full.len() {
            cut.len() == index_nat(n)
        } else {
            cut.len() == full.len()
        },
        None => cut.len() == full.len(),
    }
}

/// `--top N` writes the first `N` of the lines or groups that a job writes without it,
/// or all where there are no more.
pub proof fn top_cuts_off(cfg: Config, sorter: Sorter, lines: Seq<Seq<u8>>)
    ensures
        is_start_of(
            job_lines(cfg, sorter, lines),
            job_lines((Config { top: None, ..cfg }), sorter, lines),
            cfg.top,
        ),
        is_start_of(job_groups(cfg, sorter, lines), all_groups(sorter, lines), cfg.top),
        job_distinct(cfg, sorter, lines) == job_lines((Config { top: None, ..cfg }), sorter, lines),
{
}

} // verus!
