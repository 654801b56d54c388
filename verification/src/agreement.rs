//! The ways to sort agree: whole lines compared as one key are compared as by a
//! comparison plan, and sorting by integers is sorting by numbers.

use crate::compare::{key_order, key_part, line_order, KeyOpts};
use crate::config::Config;
use crate::decimal::{fixed_order, pow10, Fixed};
use crate::inmemory::{by_line, by_sorter, numeric_opts, same_key, same_keys};
use crate::key::{keys_order, one_key_order, whole_line_key, whole_line_key_covers_line, Sorter};
use crate::lines::{arranged, distinct};
use crate::numeric::{leading_number, numeric_value};
use crate::order::{directed, int_order, stable_sort};
use crate::radix::{
    all_integers, by_integer, integer_key, integer_order, integer_order_is_total, integer_rank,
    same_integer,
};
use crate::stable::{
    lemma_is_stable_sort, lemma_stable_sort_agrees, stable_sort_exists,
};
use crate::text::{blank, lead, lemma_lead, lemma_lead_is, past};
use std::cmp::Ordering;
use vstd::prelude::*;

verus! {

/// Skipping blanks twice is skipping them once.
proof fn lemma_past_twice(s: Seq<u8>)
    ensures
        past(past(s, blank()), blank()) == past(s, blank()),
{
    let t = past(s, blank());
    lemma_lead(s, blank());
    if t.len() > 0 {
        assert(t[0] == s[lead(s, blank())]);
    }
    lemma_lead_is(t, blank(), 0);
    assert(t.skip(0) =~= t);
}

/// A comparison plan for whole lines orders them as one key.
pub proof fn plan_orders_whole_lines(cfg: Config, sorter: Sorter, a: Seq<u8>, b: Seq<u8>)
    requires
        cfg.compares_whole_lines(),
        cfg.is_sorter(sorter),
    ensures
        sorter.key_order(a, b) == directed(key_order(a, b, cfg.global_opts()), cfg.reverse),
        sorter.order(a, b) == line_order(
            a,
            b,
            cfg.global_opts(),
            cfg.reverse,
            cfg.stable || cfg.unique,
        ),
{
    let opts = cfg.global_opts();
    let key = whole_line_key(opts, cfg.kind(), cfg.reverse);
    assert(sorter.keys@ =~= seq![key]);
    whole_line_key_covers_line(a, opts, cfg.kind(), cfg.reverse, sorter.tab);
    whole_line_key_covers_line(b, opts, cfg.kind(), cfg.reverse, sorter.tab);
    reveal_with_fuel(keys_order, 2);
    assert(sorter.key_order(a, b) == one_key_order(key, sorter.tab, a, b));
}

/// Where lines that differ cannot tie, breaking ties by their bytes changes nothing.
proof fn lemma_raw_bytes_need_no_tie_break(a: Seq<u8>, b: Seq<u8>, opts: KeyOpts, reverse: bool)
    requires
        !opts.numeric,
        !opts.fold,
        !opts.ignore_blanks,
    ensures
        line_order(a, b, opts, reverse, false) == line_order(a, b, opts, reverse, true),
{
}

/// Blanks before a number, and case, make no difference to its value.
proof fn lemma_numeric_ignores_options(a: Seq<u8>, b: Seq<u8>, opts: KeyOpts)
    requires
        opts.numeric,
    ensures
        key_order(a, b, opts) == key_order(a, b, numeric_opts()),
{
    lemma_past_twice(a);
    lemma_past_twice(b);
    assert(leading_number(key_part(a, opts)) == leading_number(a));
    assert(leading_number(key_part(b, opts)) == leading_number(b));
}

/// The byte path sorts as the comparison plan does.
pub proof fn byte_path_agrees(cfg: Config, sorter: Sorter)
    requires
        cfg.compares_whole_lines(),
        !cfg.numeric,
        cfg.is_sorter(sorter),
    ensures
        by_line(
            cfg.global_opts(),
            cfg.reverse,
            cfg.stable || cfg.unique && (cfg.fold_case || cfg.ignore_leading_blanks),
        ) == by_sorter(sorter),
        same_key(cfg.global_opts()) == same_keys(sorter),
{
    let opts = cfg.global_opts();
    let stable = cfg.stable || cfg.unique && (cfg.fold_case || cfg.ignore_leading_blanks);
    assert forall|a: Seq<u8>, b: Seq<u8>| #[trigger]
        (by_line(opts, cfg.reverse, stable))(a, b) == (by_sorter(sorter))(a, b) by {
        plan_orders_whole_lines(cfg, sorter, a, b);
        if stable != (cfg.stable || cfg.unique) {
            lemma_raw_bytes_need_no_tie_break(a, b, opts, cfg.reverse);
        }
    }
    assert(by_line(opts, cfg.reverse, stable) =~= by_sorter(sorter));
    assert forall|a: Seq<u8>, b: Seq<u8>| #[trigger]
        (same_key(opts))(a, b) == (same_keys(sorter))(a, b) by {
        plan_orders_whole_lines(cfg, sorter, a, b);
    }
    assert(same_key(opts) =~= same_keys(sorter));
}

/// The numeric path sorts as the comparison plan does.
pub proof fn numeric_path_agrees(cfg: Config, sorter: Sorter)
    requires
        cfg.compares_whole_lines(),
        cfg.numeric,
        cfg.is_sorter(sorter),
    ensures
        by_line(numeric_opts(), cfg.reverse, cfg.stable || cfg.unique) == by_sorter(sorter),
        same_key(numeric_opts()) == same_keys(sorter),
{
    let opts = cfg.global_opts();
    let stable = cfg.stable || cfg.unique;
    assert forall|a: Seq<u8>, b: Seq<u8>| #[trigger]
        (by_line(numeric_opts(), cfg.reverse, stable))(a, b) == (by_sorter(sorter))(a, b) by {
        plan_orders_whole_lines(cfg, sorter, a, b);
        lemma_numeric_ignores_options(a, b, opts);
    }
    assert(by_line(numeric_opts(), cfg.reverse, stable) =~= by_sorter(sorter));
    assert forall|a: Seq<u8>, b: Seq<u8>| #[trigger]
        (same_key(numeric_opts()))(a, b) == (same_keys(sorter))(a, b) by {
        plan_orders_whole_lines(cfg, sorter, a, b);
        lemma_numeric_ignores_options(a, b, opts);
    }
    assert(same_key(numeric_opts()) =~= same_keys(sorter));
}

/// The integer at the start of a line is the number there.
proof fn lemma_integer_is_number(s: Seq<u8>)
    requires
        integer_key(s) is Some,
    ensures
        numeric_value(s) == (Fixed { units: integer_rank(s), scale: 0 }),
{
    let (neg, whole, frac) = leading_number(s);
    assert(frac =~= Seq::<u8>::empty());
    assert(whole + frac =~= whole);
}

/// Lines that start with integers are ordered by them as by their numbers, and the
/// same lines tie.
pub proof fn integers_order_as_numbers(a: Seq<u8>, b: Seq<u8>, reverse: bool, stable: bool)
    requires
        integer_key(a) is Some,
        integer_key(b) is Some,
    ensures
        integer_order(a, b, reverse, stable) == line_order(a, b, numeric_opts(), reverse, stable),
        (integer_rank(a) == integer_rank(b)) == (key_order(a, b, numeric_opts())
            == Ordering::Equal),
{
    lemma_integer_is_number(a);
    lemma_integer_is_number(b);
    let x = Fixed { units: integer_rank(a), scale: 0 };
    let y = Fixed { units: integer_rank(b), scale: 0 };
    crate::numeric::lemma_same_value_same_order(numeric_value(a), x, numeric_value(b), y);
    let (p, q) = (x.units, y.units);
    assert(pow10(0) == 1);
    assert(p * 1 == p && q * 1 == q) by (nonlinear_arith);
    assert(fixed_order(x, y) == int_order(p, q));
}

/// Sorting by integers gives what comparing numbers gives, whatever `-r`, `-s`, `-u`
/// and `--top` say: the same lines in the same order.
pub proof fn integer_path_agrees(lines: Seq<Seq<u8>>, reverse: bool, stable: bool, unique: bool, top: Option<usize>)
    requires
        all_integers(lines),
    ensures
        arranged(lines, by_integer(reverse, stable), same_integer(), unique, top) == arranged(
            lines,
            by_line(numeric_opts(), reverse, stable),
            same_key(numeric_opts()),
            unique,
            top,
        ),
        distinct(lines, by_integer(reverse, stable), same_integer(), unique) == distinct(
            lines,
            by_line(numeric_opts(), reverse, stable),
            same_key(numeric_opts()),
            unique,
        ),
{
    let c = by_integer(reverse, stable);
    let d = by_line(numeric_opts(), reverse, stable);
    integer_order_is_total(reverse, stable);
    crate::compare::line_order_is_total(numeric_opts(), reverse, stable);
    assert(d =~= (|a: Seq<u8>, b: Seq<u8>| line_order(a, b, numeric_opts(), reverse, stable)));
    stable_sort_exists(lines, c);
    let sorted = stable_sort(lines, c);
    assert forall|i: int, j: int| 0 <= i < lines.len() && 0 <= j < lines.len() implies c(
        #[trigger] lines[i],
        #[trigger] lines[j],
    ) == d(lines[i], lines[j]) by {
        assert(integer_key(lines[i]) is Some && integer_key(lines[j]) is Some);
        integers_order_as_numbers(lines[i], lines[j], reverse, stable);
    }
    lemma_stable_sort_agrees(lines, sorted, c, d);
    lemma_is_stable_sort(lines, sorted, d);
    crate::stable::lemma_same_ties_permutes(lines, sorted, c);
    assert forall|i: int, j: int|
        0 <= i < sorted.len() && 0 <= j < sorted.len() implies (same_integer())(
        #[trigger] sorted[i],
        #[trigger] sorted[j],
    ) == (same_key(numeric_opts()))(sorted[i], sorted[j]) by {
        crate::stable::lemma_permuted_element(lines, sorted, i);
        crate::stable::lemma_permuted_element(lines, sorted, j);
        let k = choose|k: int| 0 <= k < lines.len() && lines[k] == sorted[i];
        let l = choose|l: int| 0 <= l < lines.len() && lines[l] == sorted[j];
        assert(integer_key(lines[k]) is Some && integer_key(lines[l]) is Some);
        integers_order_as_numbers(lines[k], lines[l], reverse, stable);
    }
    crate::lines::lemma_deduped_agrees(sorted, same_integer(), same_key(numeric_opts()));
}

} // verus!
