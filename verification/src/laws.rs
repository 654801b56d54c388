//! What holds of every sort job.

use crate::check::{disorder_at, sorted_output_passes_check};
use crate::compress::decoded;
use crate::config::{texts, Config};
use crate::csv_format::{arranged_rows, by_record, record_order_is_total, ColKey};
use crate::engine::{
    all_groups, body_of, head_of, job_distinct, job_groups, job_lines, merge_head, merge_lines,
};
use crate::external::{external_lines, streaming_keeps_lines};
use crate::inmemory::{by_sorter, same_keys};
use crate::input::{
    contents, joining_keeps_lines, lines_of_each, split, terminated,
    termination_keeps_lines, Input,
};
use crate::json_format::{
    arranged_trees, by_paths, job_paths, trees_order_is_total, JsonTree,
};
use crate::key::{sorter_order_is_total, Sorter};
use crate::lines::{deduped, first_n};
use crate::merge::{
    all_in_order, below_header, concatenated, header_comes_first, merge_agrees_with_sort, merged,
};
use crate::order::{
    flipped, in_order, is_stable_sort, is_total_order, lemma_filter_last, stable_sort, ties_with,
};
use crate::output::{counted, counting_keeps_lines, total_count, written_highlighted};
use crate::spill::stream_of;
use crate::stable::{
    lemma_permuted_element, lemma_same_ties_permutes, lemma_sorted_is_fixed, stable_sort_exists,
};
use std::cmp::Ordering;
use vstd::prelude::*;

verus! {

proof fn lemma_plan_is_total(sorter: Sorter)
    ensures
        is_total_order(by_sorter(sorter)),
{
    sorter_order_is_total(sorter);
    assert(by_sorter(sorter) =~= (|a: Seq<u8>, b: Seq<u8>| sorter.order(a, b)));
}

/// A sort writes the lines it reads, no more and no fewer, in order, and keeps lines
/// that tie in the order of the input.
pub proof fn sorting_keeps_lines(cfg: Config, sorter: Sorter, lines: Seq<Seq<u8>>)
    requires
        !cfg.unique,
        cfg.top is None,
    ensures
        is_stable_sort(lines, job_lines(cfg, sorter, lines), by_sorter(sorter)),
        job_lines(cfg, sorter, lines).to_multiset() == lines.to_multiset(),
        job_lines(cfg, sorter, lines).len() == lines.len(),
{
    lemma_plan_is_total(sorter);
    stable_sort_exists(lines, by_sorter(sorter));
    lemma_same_ties_permutes(lines, job_lines(cfg, sorter, lines), by_sorter(sorter));
}

/// With `--top` a job writes the first lines of what it writes without.
pub proof fn top_gives_the_first_lines(cfg: Config, sorter: Sorter, lines: Seq<Seq<u8>>)
    ensures
        job_lines(cfg, sorter, lines) == first_n(
            job_lines((Config { top: None, ..cfg }), sorter, lines),
            cfg.top,
        ),
{
}

/// All comparisons that fit a job order lines alike, take the same lines for the same
/// and highlight the same bytes.
pub proof fn plans_of_a_job_agree(cfg: Config, a: Sorter, b: Sorter)
    requires
        cfg.is_sorter(a),
        cfg.is_sorter(b),
    ensures
        by_sorter(a) == by_sorter(b),
        same_keys(a) == same_keys(b),
        forall|lines: Seq<Seq<u8>>, t: u8|
            written_highlighted(lines, a, t) == #[trigger] written_highlighted(lines, b, t),
{
    assert(by_sorter(a) =~= by_sorter(b));
    assert(same_keys(a) =~= same_keys(b));
    assert forall|lines: Seq<Seq<u8>>, t: u8|
        written_highlighted(lines, a, t) == #[trigger] written_highlighted(lines, b, t) by {
        lemma_same_highlights(lines, a, b, t);
    }
}

proof fn lemma_same_highlights(lines: Seq<Seq<u8>>, a: Sorter, b: Sorter, t: u8)
    requires
        a.keys@ == b.keys@,
        a.tab == b.tab,
    ensures
        written_highlighted(lines, a, t) == written_highlighted(lines, b, t),
    decreases lines.len(),
{
    if lines.len() > 0 {
        lemma_same_highlights(lines.drop_last(), a, b, t);
    }
}

/// The order of two elements that tie with a third.
pub proof fn lemma_ties<T>(c: spec_fn(T, T) -> Ordering, a: T, b: T, d: T)
    requires
        is_total_order(c),
    ensures
        c(a, a) == Ordering::Equal,
        c(a, b) == flipped(c(b, a)),
        c(a, b) == Ordering::Equal && c(b, d) == Ordering::Equal ==> c(a, d) == Ordering::Equal,
        c(a, b) == Ordering::Less && c(b, d) != Ordering::Greater ==> c(a, d) == Ordering::Less,
        c(a, b) != Ordering::Greater && c(b, d) == Ordering::Less ==> c(a, d) == Ordering::Less,
        c(a, b) != Ordering::Greater && c(b, d) != Ordering::Greater && c(a, d) == Ordering::Equal
            ==> c(b, d) == Ordering::Equal,
{
    assert(c(a, a) == flipped(c(a, a)));
    assert(c(b, a) == flipped(c(a, b)));
    assert(c(d, b) == flipped(c(b, d)));
    assert(c(d, a) == flipped(c(a, d)));
    if c(a, b) != Ordering::Greater && c(b, d) != Ordering::Greater {
        assert(c(a, d) != Ordering::Greater);
        if c(a, d) == Ordering::Equal {
            assert(c(d, a) != Ordering::Greater && c(a, b) != Ordering::Greater);
            assert(c(d, b) != Ordering::Greater);
            assert(c(b, d) != Ordering::Greater && c(d, a) != Ordering::Greater);
            assert(c(b, a) != Ordering::Greater);
        }
    }
}

/// What is left of a sorted sequence without repeated elements.
pub proof fn lemma_distinct<T>(s: Seq<T>, c: spec_fn(T, T) -> Ordering, same: spec_fn(T, T) -> bool)
    requires
        is_total_order(c),
        in_order(s, c),
        forall|a: T, b: T| #[trigger] same(a, b) <==> c(a, b) == Ordering::Equal,
    ensures
        s.len() > 0 ==> deduped(s, same).len() > 0 && c(deduped(s, same).last(), s.last())
            == Ordering::Equal,
        forall|i: int, j: int|
            #![trigger deduped(s, same)[i], deduped(s, same)[j]]
            0 <= i < j < deduped(s, same).len() ==> c(deduped(s, same)[i], deduped(s, same)[j])
                == Ordering::Less,
        forall|i: int|
            0 <= i < deduped(s, same).len() ==> is_first_tie(s, c, #[trigger] deduped(s, same)[i]),
        forall|j: int|
            0 <= j < s.len() ==> has_tie(deduped(s, same), c, #[trigger] s[j]),
    decreases s.len(),
{
    if s.len() > 0 {
        let init = s.drop_last();
        let l = s.last();
        let before = deduped(init, same);
        let kept = deduped(s, same);
        assert(init.push(l) =~= s);
        assert(in_order(init, c)) by {
            assert forall|i: int, j: int|
                #![trigger init[i], init[j]]
                0 <= i < j < init.len() implies c(init[i], init[j]) != Ordering::Greater by {
                assert(init[i] == s[i] && init[j] == s[j]);
            }
        }
        lemma_distinct(init, c, same);
        lemma_ties(c, l, l, l);
        let repeated = before.len() > 0 && same(before.last(), l);
        if init.len() > 0 {
            let m = init.last();
            assert(c(s[s.len() - 2], s[s.len() - 1]) != Ordering::Greater);
            lemma_ties(c, before.last(), m, l);
            assert forall|i: int| 0 <= i < before.len() implies c(#[trigger] before[i], l)
                != Ordering::Greater && (!repeated ==> c(before[i], l) == Ordering::Less) by {
                lemma_ties(c, before[i], before.last(), l);
                lemma_ties(c, before[i], l, l);
            }
        }
        assert forall|i: int| 0 <= i < kept.len() implies is_first_tie(s, c, #[trigger] kept[i]) by {
            let x = kept[i];
            let p = |y: T| c(x, y) == Ordering::Equal;
            lemma_filter_last(init, l, p);
            if i < before.len() {
                assert(x == before[i]);
                assert(is_first_tie(init, c, before[i]));
                assert(ties_with(s, c, x)[0] == ties_with(init, c, x)[0]);
            } else {
                lemma_none_ties(init, before, c, l);
                assert(ties_with(init, c, x).len() == 0);
                assert(ties_with(s, c, x) =~= seq![l]);
            }
        }
        assert forall|j: int| 0 <= j < s.len() implies has_tie(kept, c, #[trigger] s[j]) by {
            if j < init.len() {
                assert(has_tie(before, c, init[j]));
                let i = choose|i: int|
                    0 <= i < before.len() && c(#[trigger] before[i], init[j]) == Ordering::Equal;
                assert(kept[i] == before[i]);
            } else {
                assert(c(kept[kept.len() - 1], l) == Ordering::Equal);
            }
        }
    }
}

/// `x` is the first of the elements that tie with it.
pub open spec fn is_first_tie<T>(s: Seq<T>, c: spec_fn(T, T) -> Ordering, x: T) -> bool {
    ties_with(s, c, x).len() > 0 && ties_with(s, c, x)[0] == x
}

/// An element of `s` ties with `x`.
pub open spec fn has_tie<T>(s: Seq<T>, c: spec_fn(T, T) -> Ordering, x: T) -> bool {
    exists|i: int| 0 <= i < s.len() && c(#[trigger] s[i], x) == Ordering::Equal
}

/// Where no distinct element ties with `x` no element does.
proof fn lemma_none_ties<T>(s: Seq<T>, kept: Seq<T>, c: spec_fn(T, T) -> Ordering, x: T)
    requires
        is_total_order(c),
        forall|j: int| 0 <= j < s.len() ==> has_tie(kept, c, #[trigger] s[j]),
        forall|i: int| 0 <= i < kept.len() ==> c(#[trigger] kept[i], x) != Ordering::Equal,
    ensures
        ties_with(s, c, x).len() == 0,
    decreases s.len(),
{
    let p = |y: T| c(x, y) == Ordering::Equal;
    reveal(Seq::filter);
    if s.len() > 0 {
        let init = s.drop_last();
        assert forall|j: int| 0 <= j < init.len() implies has_tie(kept, c, #[trigger] init[j]) by {
            assert(init[j] == s[j]);
        }
        lemma_none_ties(init, kept, c, x);
        let l = s[s.len() - 1];
        assert(has_tie(kept, c, l));
        let i = choose|i: int| 0 <= i < kept.len() && c(#[trigger] kept[i], l) == Ordering::Equal;
        lemma_ties(c, kept[i], l, x);
        lemma_ties(c, x, l, l);
        assert(init.push(l) =~= s);
        lemma_filter_last(init, l, p);
    }
}

/// With `-u` a job writes, of the lines that the keys do not tell apart, the first
/// one of the input, and each such group has a line in the output.
pub proof fn unique_keeps_the_first_of_each_key(cfg: Config, sorter: Sorter, lines: Seq<Seq<u8>>)
    requires
        cfg.is_sorter(sorter),
        cfg.unique,
        cfg.top is None,
    ensures
        ({
            let out = job_lines(cfg, sorter, lines);
            let keys = |a: Seq<u8>, b: Seq<u8>| sorter.key_order(a, b);
            &&& forall|i: int| 0 <= i < out.len() ==> is_first_tie(lines, keys, #[trigger] out[i])
            &&& forall|j: int| 0 <= j < lines.len() ==> has_tie(out, keys, #[trigger] lines[j])
            &&& forall|i: int, j: int|
                #![trigger out[i], out[j]]
                0 <= i < j < out.len() ==> sorter.key_order(out[i], out[j]) == Ordering::Less
        }),
{
    let c = by_sorter(sorter);
    let out = job_lines(cfg, sorter, lines);
    let keys = |a: Seq<u8>, b: Seq<u8>| sorter.key_order(a, b);
    lemma_plan_is_total(sorter);
    assert(c =~= keys);
    stable_sort_exists(lines, c);
    let sorted = stable_sort(lines, c);
    lemma_distinct(sorted, c, same_keys(sorter));
    lemma_same_ties_permutes(lines, sorted, c);
    assert forall|i: int| 0 <= i < out.len() implies is_first_tie(lines, keys, #[trigger] out[i]) by {
        assert(is_first_tie(sorted, c, out[i]));
        assert(ties_with(sorted, c, out[i]) == ties_with(lines, c, out[i]));
    }
    assert forall|j: int| 0 <= j < lines.len() implies has_tie(out, keys, #[trigger] lines[j]) by {
        lemma_permuted_element(sorted, lines, j);
        let k = choose|k: int| 0 <= k < sorted.len() && sorted[k] == lines[j];
        assert(has_tie(out, c, sorted[k]));
    }
}

/// No two elements are the same.
pub open spec fn none_same<T>(s: Seq<T>, same: spec_fn(T, T) -> bool) -> bool {
    forall|i: int, j: int|
        #![trigger s[i], s[j]]
        0 <= i < j < s.len() ==> !same(s[i], s[j])
}

proof fn lemma_nothing_repeats<T>(s: Seq<T>, same: spec_fn(T, T) -> bool)
    requires
        none_same(s, same),
    ensures
        deduped(s, same) == s,
    decreases s.len(),
{
    if s.len() > 0 {
        let init = s.drop_last();
        assert forall|i: int, j: int|
            #![trigger init[i], init[j]]
            0 <= i < j < init.len() implies !same(init[i], init[j]) by {
            assert(init[i] == s[i] && init[j] == s[j]);
        }
        lemma_nothing_repeats(init, same);
        assert(init.push(s.last()) =~= s);
        if init.len() > 0 {
            assert(!same(s[s.len() - 2], s[s.len() - 1]));
        }
    }
}

/// The distinct lines of a job are in order, and with `-u` no two of them have the
/// same keys.
proof fn lemma_distinct_lines(cfg: Config, sorter: Sorter, lines: Seq<Seq<u8>>)
    requires
        cfg.is_sorter(sorter),
    ensures
        in_order(job_distinct(cfg, sorter, lines), by_sorter(sorter)),
        cfg.unique ==> none_same(job_distinct(cfg, sorter, lines), same_keys(sorter)),
{
    let c = by_sorter(sorter);
    lemma_plan_is_total(sorter);
    stable_sort_exists(lines, c);
    if cfg.unique {
        assert(c =~= (|a: Seq<u8>, b: Seq<u8>| sorter.key_order(a, b)));
        lemma_distinct(stable_sort(lines, c), c, same_keys(sorter));
    }
}

proof fn lemma_prefix<T>(s: Seq<T>, top: Option<usize>, c: spec_fn(T, T) -> Ordering, same: spec_fn(T, T) -> bool)
    ensures
        in_order(s, c) ==> in_order(first_n(s, top), c),
        none_same(s, same) ==> none_same(first_n(s, top), same),
        first_n(first_n(s, top), top) == first_n(s, top),
{
    let out = first_n(s, top);
    assert(forall|i: int| 0 <= i < out.len() ==> #[trigger] out[i] == s[i]);
    if in_order(s, c) {
        assert forall|i: int, j: int|
            #![trigger out[i], out[j]]
            0 <= i < j < out.len() implies c(out[i], out[j]) != Ordering::Greater by {
            assert(out[i] == s[i] && out[j] == s[j]);
        }
    }
    if none_same(s, same) {
        assert forall|i: int, j: int|
            #![trigger out[i], out[j]]
            0 <= i < j < out.len() implies !same(out[i], out[j]) by {
            assert(out[i] == s[i] && out[j] == s[j]);
        }
    }
}

/// Sorting what a job wrote changes nothing.
pub proof fn sorting_twice_changes_nothing(cfg: Config, sorter: Sorter, lines: Seq<Seq<u8>>)
    requires
        cfg.is_sorter(sorter),
    ensures
        job_lines(cfg, sorter, job_lines(cfg, sorter, lines)) == job_lines(cfg, sorter, lines),
{
    let out = job_lines(cfg, sorter, lines);
    lemma_distinct_lines(cfg, sorter, lines);
    lemma_prefix(
        job_distinct(cfg, sorter, lines),
        cfg.top,
        by_sorter(sorter),
        same_keys(sorter),
    );
    assert(stable_sort(out, by_sorter(sorter)) == out) by {
        lemma_plan_is_total(sorter);
        lemma_sorted_is_fixed(out, by_sorter(sorter));
    }
    if cfg.unique {
        lemma_nothing_repeats(out, same_keys(sorter));
    }
}

/// What a job wrote passes the check of the same job.
pub proof fn sorted_jobs_pass_the_check(cfg: Config, sorter: Sorter, lines: Seq<Seq<u8>>)
    requires
        cfg.is_sorter(sorter),
    ensures
        forall|i: int|
            !#[trigger] disorder_at(job_lines(cfg, sorter, lines), sorter, cfg.unique, i),
{
    sorted_output_passes_check(lines, sorter, cfg.unique);
    let all = job_distinct(cfg, sorter, lines);
    let out = job_lines(cfg, sorter, lines);
    assert forall|i: int| !#[trigger] disorder_at(out, sorter, cfg.unique, i) by {
        if 0 <= i < out.len() - 1 {
            assert(out[i] == all[i] && out[i + 1] == all[i + 1]);
            assert(!disorder_at(all, sorter, cfg.unique, i));
        }
    }
}

/// The counts of `--count` add up to the number of lines, and its lines are the
/// sorted lines without repeated ones.
pub proof fn counts_add_up(cfg: Config, sorter: Sorter, lines: Seq<Seq<u8>>)
    requires
        cfg.top is None,
    ensures
        total_count(job_groups(cfg, sorter, lines)) == lines.len(),
        job_groups(cfg, sorter, lines).map_values(|g: (nat, Seq<u8>)| g.1) == deduped(
            stable_sort(lines, by_sorter(sorter)),
            same_keys(sorter),
        ),
{
    lemma_plan_is_total(sorter);
    stable_sort_exists(lines, by_sorter(sorter));
    let sorted = stable_sort(lines, by_sorter(sorter));
    lemma_same_ties_permutes(lines, sorted, by_sorter(sorter));
    counting_keeps_lines(sorted, same_keys(sorter));
}

/// The lines of the inputs, one behind the other, are the lines of all input.
pub proof fn inputs_hold_the_lines(input: Input, t: u8)
    requires
        input.is_readable(),
    ensures
        concatenated(lines_of_each(input.texts(t), t)) == split(input.text(t), t),
{
    match input {
        Input::Stdin(data) => {
            let text = decoded(data@)->Some_0;
            termination_keeps_lines(text, t);
            let each = lines_of_each(input.texts(t), t);
            assert(each =~= seq![split(text, t)]);
            assert(each.drop_last() =~= Seq::<Seq<Seq<u8>>>::empty());
            assert(concatenated(each.drop_last()) + each.last() =~= split(text, t));
        },
        Input::Files(files) => {
            let all = contents(files@);
            joining_keeps_lines(all, t);
            assert forall|f: int| 0 <= f < all.len() implies split(terminated(all[f], t), t)
                == split(all[f], t) by {
                termination_keeps_lines(all[f], t);
            }
            assert(lines_of_each(input.texts(t), t) =~= lines_of_each(all, t));
        },
    }
}

/// A merge of inputs that are sorted below the header writes what a job in memory
/// writes of the same inputs: the same header, and the same lines below it.
pub proof fn merging_sorted_inputs_sorts(cfg: Config, sorter: Sorter, input: Input)
    requires
        input.is_readable(),
        all_in_order(
            below_header(
                lines_of_each(input.texts(cfg.line_end()), cfg.line_end()),
                cfg.header,
            ),
            by_sorter(sorter),
        ),
    ensures
        ({
            let t = cfg.line_end();
            let files = lines_of_each(input.texts(t), t);
            let lines = split(input.text(t), t);
            &&& merge_head(files, cfg.header, t) == head_of(lines, cfg.header, t)
            &&& merge_lines(cfg, sorter, below_header(files, cfg.header)) == job_distinct(
                cfg,
                sorter,
                body_of(lines, cfg.header),
            )
            &&& counted(
                merged(below_header(files, cfg.header), by_sorter(sorter)),
                same_keys(sorter),
            ) == all_groups(sorter, body_of(lines, cfg.header))
        }),
{
    let t = cfg.line_end();
    let files = lines_of_each(input.texts(t), t);
    inputs_hold_the_lines(input, t);
    header_comes_first(files, cfg.header);
    merge_agrees_with_sort(below_header(files, cfg.header), sorter);
}

/// Sorting in blocks writes what sorting in memory writes of the same inputs,
/// compressed or not.
pub proof fn sorting_in_blocks_sorts(cfg: Config, sorter: Sorter, input: Input)
    requires
        input.is_readable(),
    ensures
        external_lines(
            stream_of(input.plain(), cfg.line_end()),
            sorter,
            cfg.unique,
            cfg.line_end(),
        ) == job_distinct(cfg, sorter, split(input.text(cfg.line_end()), cfg.line_end())),
{
    let t = cfg.line_end();
    match input {
        Input::Stdin(_) => {},
        Input::Files(files) => {
            streaming_keeps_lines(contents(files@), t);
        },
    }
}

/// Sorting in blocks is stable across blocks: the lines written are all lines of the
/// stream, in order, and lines that tie keep the order of the input.
pub proof fn sorting_in_blocks_is_stable(stream: Seq<u8>, sorter: Sorter, t: u8)
    ensures
        is_stable_sort(
            split(stream, t),
            external_lines(stream, sorter, false, t),
            by_sorter(sorter),
        ),
        external_lines(stream, sorter, false, t).len() == split(stream, t).len(),
{
    lemma_plan_is_total(sorter);
    stable_sort_exists(split(stream, t), by_sorter(sorter));
    lemma_same_ties_permutes(
        split(stream, t),
        external_lines(stream, sorter, false, t),
        by_sorter(sorter),
    );
}

/// Without `-u` and `--top` the records of a job are all written, ordered by the
/// columns.
pub proof fn sorting_keeps_records(cfg: Config, keys: Seq<ColKey>, rows: Seq<Seq<Seq<u8>>>)
    requires
        !cfg.unique,
        cfg.top is None,
    ensures
        arranged_rows(rows, cfg, keys).to_multiset() == rows.to_multiset(),
        in_order(arranged_rows(rows, cfg, keys), by_record(keys, cfg.stable)),
{
    let c = by_record(keys, cfg.stable);
    record_order_is_total(keys, cfg.stable);
    stable_sort_exists(rows, c);
    lemma_same_ties_permutes(rows, stable_sort(rows, c), c);
}

/// Without `-u` and `--top` the JSON values of a job are all written, ordered by what
/// they hold at the paths, and values that tie keep the order of the input.
pub proof fn sorting_keeps_values(cfg: Config, values: Seq<JsonTree>)
    requires
        !cfg.unique,
        cfg.top is None,
    ensures
        arranged_trees(values, cfg).to_multiset() == values.to_multiset(),
        is_stable_sort(
            values,
            arranged_trees(values, cfg),
            by_paths(job_paths(texts(cfg.keys@)), cfg.reverse),
        ),
{
    let c = by_paths(job_paths(texts(cfg.keys@)), cfg.reverse);
    trees_order_is_total(job_paths(texts(cfg.keys@)), cfg.reverse);
    stable_sort_exists(values, c);
    lemma_same_ties_permutes(values, stable_sort(values, c), c);
}

} // verus!
