//! What a job leaves of records and of JSON values.

use crate::config::{texts, Config};
use crate::count_laws::is_start_of;
use crate::csv_format::{
    arranged_rows, csv_rows, csv_text, delimiter_of, distinct_rows, header_of, is_csv_run,
    job_columns, job_order, job_order_is_total, output_rows, same_columns, ColKey,
};
use crate::json_format::{
    arranged_trees, by_paths, distinct_trees, is_json_run, job_paths, job_values, json_bytes,
    lemma_same_either_way, same_at_paths, trees_order, trees_order_is_total, JsonTree,
};
use crate::laws::{has_tie, is_first_tie, lemma_distinct};
use crate::lines::{deduped, lemma_arranged_len};
use crate::order::{is_total_order, stable_sort, ties_with};
use crate::outcome::Run;
use crate::stable::{lemma_permuted_element, lemma_same_ties_permutes, stable_sort_exists};
use std::cmp::Ordering;
use vstd::prelude::*;

verus! {

/// The elements of `s` that tie with `x`, one behind the other.
pub open spec fn tied_elements<T>(s: Seq<T>, c: spec_fn(T, T) -> Ordering, x: T) -> Seq<T> {
    s.filter(|y: T| c(x, y) == Ordering::Equal)
}

/// `out` holds the elements of `s`, none before one that is less, and those that tie
/// in their order in `s`.
pub open spec fn is_arrangement<T>(s: Seq<T>, out: Seq<T>, c: spec_fn(T, T) -> Ordering) -> bool {
    &&& out.to_multiset() == s.to_multiset()
    &&& forall|i: int, j: int|
        #![trigger out[i], out[j]]
        0 <= i < j < out.len() ==> c(out[i], out[j]) != Ordering::Greater
    &&& forall|x: T| #[trigger] tied_elements(out, c, x) == tied_elements(s, c, x)
}

/// `out` holds, of the elements of `s` that tie, the first one, and these in ascending
/// order.
pub open spec fn keeps_first_of_ties<T>(s: Seq<T>, out: Seq<T>, c: spec_fn(T, T) -> Ordering) -> bool {
    &&& forall|i: int| 0 <= i < out.len() ==> is_first_tie(s, c, #[trigger] out[i])
    &&& forall|j: int| 0 <= j < s.len() ==> has_tie(out, c, #[trigger] s[j])
    &&& forall|i: int, j: int|
        #![trigger out[i], out[j]]
        0 <= i < j < out.len() ==> c(out[i], out[j]) == Ordering::Less
}

proof fn lemma_arranged<T>(s: Seq<T>, c: spec_fn(T, T) -> Ordering)
    requires
        is_total_order(c),
    ensures
        is_arrangement(s, stable_sort(s, c), c),
{
    let out = stable_sort(s, c);
    stable_sort_exists(s, c);
    lemma_same_ties_permutes(s, out, c);
    assert forall|x: T| #[trigger] tied_elements(out, c, x) == tied_elements(s, c, x) by {
        assert(ties_with(out, c, x) == ties_with(s, c, x));
    }
}

proof fn lemma_kept<T>(s: Seq<T>, c: spec_fn(T, T) -> Ordering, same: spec_fn(T, T) -> bool)
    requires
        is_total_order(c),
        forall|a: T, b: T| #[trigger] same(a, b) <==> c(a, b) == Ordering::Equal,
    ensures
        keeps_first_of_ties(s, deduped(stable_sort(s, c), same), c),
{
    let sorted = stable_sort(s, c);
    let out = deduped(sorted, same);
    stable_sort_exists(s, c);
    lemma_same_ties_permutes(s, sorted, c);
    lemma_distinct(sorted, c, same);
    assert forall|i: int| 0 <= i < out.len() implies is_first_tie(s, c, #[trigger] out[i]) by {
        assert(is_first_tie(sorted, c, out[i]));
        assert(ties_with(sorted, c, out[i]) == ties_with(s, c, out[i]));
    }
    assert forall|j: int| 0 <= j < s.len() implies has_tie(out, c, #[trigger] s[j]) by {
        lemma_permuted_element(sorted, s, j);
        let k = choose|k: int| 0 <= k < sorted.len() && sorted[k] == s[j];
        assert(has_tie(out, c, sorted[k]));
    }
}

/// A job writes all its records in order, or with `-u` the first of each set of records
/// that its order does not tell apart; and with `--top` the first of these.
pub proof fn jobs_sort_records(cfg: Config, keys: Seq<ColKey>, rows: Seq<Seq<Seq<u8>>>)
    ensures
        ({
            let c = job_order(keys, cfg.stable, cfg.unique);
            let all = arranged_rows(rows, (Config { top: None, ..cfg }), keys);
            &&& !cfg.unique ==> is_arrangement(rows, all, c)
            &&& cfg.unique ==> keeps_first_of_ties(rows, all, c)
            &&& is_start_of(arranged_rows(rows, cfg, keys), all, cfg.top)
            &&& distinct_rows(rows, cfg, keys) == all
        }),
{
    if cfg.unique {
        lemma_rows_kept(keys, cfg.stable, rows);
    } else {
        lemma_rows_arranged(keys, cfg.stable, rows);
    }
}

proof fn lemma_rows_arranged(keys: Seq<ColKey>, stable: bool, rows: Seq<Seq<Seq<u8>>>)
    ensures
        is_arrangement(
            rows,
            stable_sort(rows, job_order(keys, stable, false)),
            job_order(keys, stable, false),
        ),
{
    job_order_is_total(keys, stable, false);
    lemma_arranged(rows, job_order(keys, stable, false));
}

proof fn lemma_rows_kept(keys: Seq<ColKey>, stable: bool, rows: Seq<Seq<Seq<u8>>>)
    ensures
        keeps_first_of_ties(
            rows,
            deduped(stable_sort(rows, job_order(keys, stable, true)), same_columns(keys)),
            job_order(keys, stable, true),
        ),
{
    job_order_is_total(keys, stable, true);
    lemma_kept(rows, job_order(keys, stable, true), same_columns(keys));
}

/// A job writes all its values in order, or with `-u` the first of each set of values
/// that its paths do not tell apart; and with `--top` the first of these.
pub proof fn jobs_sort_values(cfg: Config, values: Seq<JsonTree>)
    ensures
        ({
            let paths = job_paths(texts(cfg.keys@));
            let c = |a: JsonTree, b: JsonTree| trees_order(paths, cfg.reverse, a, b);
            let all = arranged_trees(values, (Config { top: None, ..cfg }));
            &&& !cfg.unique ==> is_arrangement(values, all, c)
            &&& cfg.unique ==> keeps_first_of_ties(values, all, c)
            &&& is_start_of(arranged_trees(values, cfg), all, cfg.top)
            &&& distinct_trees(values, cfg) == all
        }),
{
    let paths = job_paths(texts(cfg.keys@));
    let c = by_paths(paths, cfg.reverse);
    assert(c =~= (|a: JsonTree, b: JsonTree| trees_order(paths, cfg.reverse, a, b)));
    trees_order_is_total(paths, cfg.reverse);
    let same = same_at_paths(paths);
    if cfg.unique {
        assert forall|a: JsonTree, b: JsonTree| #[trigger] same(a, b) <==> c(a, b)
            == Ordering::Equal by {
            lemma_same_either_way(paths, a, b);
        }
        lemma_kept(values, c, same);
    } else {
        lemma_arranged(values, c);
    }
}

/// What a CSV job writes and counts: the records that it read and wrote, and how many
/// `-u` left out.
pub proof fn csv_jobs_write_records(cfg: Config, data: Seq<u8>, run: Run)
    requires
        is_csv_run(cfg, data, run),
    ensures
        ({
            let d = delimiter_of(cfg);
            let keys = job_columns(cfg, header_of(cfg, data));
            let rows = csv_rows(data, d, cfg.header);
            &&& keys is Ok && rows is Some
            &&& run.output is Some
            &&& csv_text(output_rows(cfg, data, keys->Ok_0), d) == Some(run.output->0@)
            &&& run.report@.len() == 0
            &&& run.outcome.exit_code == 0
            &&& run.outcome.stats is Some <==> cfg.stats
            &&& cfg.stats && rows->0.len() <= usize::MAX ==> {
                let s = run.outcome.stats->0;
                let out = arranged_rows(rows->0, cfg, keys->Ok_0);
                &&& s.lines_in == rows->0.len()
                &&& s.lines_out == out.len()
                &&& cfg.top is None ==> s.duplicates_removed == rows->0.len() - out.len()
                &&& s.chunks is None
            }
        }),
{
    let keys = job_columns(cfg, header_of(cfg, data))->Ok_0;
    let rows = csv_rows(data, delimiter_of(cfg), cfg.header)->0;
    lemma_rows_len(cfg, keys, rows);
}

proof fn lemma_rows_len(cfg: Config, keys: Seq<ColKey>, rows: Seq<Seq<Seq<u8>>>)
    ensures
        arranged_rows(rows, cfg, keys).len() <= rows.len(),
        cfg.top is None ==> distinct_rows(rows, cfg, keys).len() == arranged_rows(
            rows,
            cfg,
            keys,
        ).len(),
{
    let c = job_order(keys, cfg.stable, cfg.unique);
    job_order_is_total(keys, cfg.stable, cfg.unique);
    lemma_arranged_len(rows, c, same_columns(keys), cfg.unique, cfg.top);
}

/// What a JSON job writes and counts.
pub proof fn json_jobs_write_values(cfg: Config, data: Seq<u8>, lines_mode: bool, run: Run)
    requires
        is_json_run(cfg, data, lines_mode, run),
    ensures
        ({
            let values = job_values(data, lines_mode);
            &&& values is Some
            &&& run.output is Some
            &&& run.output->0@ == json_bytes(arranged_trees(values->0, cfg), lines_mode)
            &&& run.report@.len() == 0
            &&& run.outcome.exit_code == 0
            &&& run.outcome.stats is Some <==> cfg.stats
            &&& cfg.stats && values->0.len() <= usize::MAX ==> {
                let s = run.outcome.stats->0;
                let out = arranged_trees(values->0, cfg);
                &&& s.lines_in == values->0.len()
                &&& s.lines_out == out.len()
                &&& cfg.top is None ==> s.duplicates_removed == values->0.len() - out.len()
                &&& s.chunks is None
            }
        }),
{
    lemma_values_len(cfg, job_values(data, lines_mode)->0);
}

proof fn lemma_values_len(cfg: Config, values: Seq<JsonTree>)
    ensures
        arranged_trees(values, cfg).len() <= values.len(),
        cfg.top is None ==> distinct_trees(values, cfg).len() == arranged_trees(values, cfg).len(),
{
    let paths = job_paths(texts(cfg.keys@));
    trees_order_is_total(paths, cfg.reverse);
    lemma_arranged_len(
        values,
        by_paths(paths, cfg.reverse),
        same_at_paths(paths),
        cfg.unique,
        cfg.top,
    );
}

} // verus!
