//! What a whole job leaves behind: its output, its exit code and its counts.

use crate::check::{breaking_range, disorder_at, first_disorder, report_at};
use crate::compress::decoded;
use crate::config::{ColorChoice, Config, Format};
use crate::count_laws::is_start_of;
use crate::csv_format::is_csv_run;
use crate::diag::{disorder_report, wants_color, Terminal};
use crate::engine::{
    all_groups, body_of, head_of, is_block_run, is_check_run, is_count_run, is_group_run,
    is_merge_run, is_run, is_run_fault, is_sort_run, job_distinct, job_lines, memory_stats,
    merge_head, merge_lines, plan_of, Plan,
};
use crate::external::{external_lines, is_run_count};
use crate::index::ix;
use crate::inmemory::{by_sorter, same_keys};
use crate::input::{split, Input};
use crate::json_format::is_json_run;
use crate::key::{sorter_order_is_total, KeyDef, Sorter};
use crate::lines::{first_n, lemma_arranged_len, lemma_deduped_len};
use crate::merge::{below_header, lemma_merged_len, merged, total_len};
use crate::order::stable_sort;
use crate::outcome::{success, Run, RunError};
use crate::output::{counted, lemma_fewer_groups, written, written_counts, written_highlighted};
use crate::size::size_of_text;
use crate::stable::{lemma_same_ties_permutes, stable_sort_exists};
use crate::text_laws::{lines_text, written_lines_are_ended};
use std::cmp::Ordering;
use vstd::prelude::*;

verus! {

/// The header of lines, if they have one.
pub open spec fn header_part(lines: Seq<Seq<u8>>, header: bool) -> Seq<Seq<u8>> {
    if header && lines.len() > 0 {
        seq![lines[0]]
    } else {
        Seq::empty()
    }
}

/// The lines below the header.
pub open spec fn body_part(lines: Seq<Seq<u8>>, header: bool) -> Seq<Seq<u8>> {
    if header && lines.len() > 0 {
        lines.skip(1)
    } else {
        lines
    }
}

/// Something is in color: always, never, or on a terminal where nothing speaks
/// against it.
pub open spec fn in_color(cfg: Config, no_color: bool, terminal: bool) -> bool {
    cfg.color == ColorChoice::Always || cfg.color == ColorChoice::Auto && terminal && !no_color
}

/// Output is written in color: not to a file.
pub open spec fn writes_in_color(cfg: Config, terminal: Terminal) -> bool {
    cfg.output is None && in_color(cfg, terminal.no_color, terminal.stdout)
}

proof fn lemma_parts(lines: Seq<Seq<u8>>, header: bool, rest: Seq<Seq<u8>>, t: u8)
    ensures
        body_of(lines, header) == body_part(lines, header),
        head_of(lines, header, t) == lines_text(header_part(lines, header), t),
        lines_text(header_part(lines, header) + rest, t) == head_of(lines, header, t) + lines_text(
            rest,
            t,
        ),
{
    let head = header_part(lines, header);
    if header && lines.len() > 0 {
        assert(lines.drop_first() =~= lines.skip(1));
        assert(head.drop_first() =~= Seq::<Seq<u8>>::empty());
        reveal_with_fuel(lines_text, 2);
        assert(lines[0] + seq![t] + Seq::<u8>::empty() =~= lines[0].push(t));
        assert((head + rest).drop_first() =~= rest);
        assert(lines[0] + seq![t] + lines_text(rest, t) =~= lines[0].push(t) + lines_text(rest, t));
    } else {
        assert(head + rest =~= rest);
        assert(Seq::<u8>::empty() + lines_text(rest, t) =~= lines_text(rest, t));
    }
}

proof fn lemma_job_len(cfg: Config, sorter: Sorter, lines: Seq<Seq<u8>>)
    ensures
        job_lines(cfg, sorter, lines).len() <= lines.len(),
        job_distinct(cfg, sorter, lines).len() <= lines.len(),
        cfg.top is None ==> job_distinct(cfg, sorter, lines) == job_lines(cfg, sorter, lines),
{
    sorter_order_is_total(sorter);
    assert(by_sorter(sorter) =~= (|a: Seq<u8>, b: Seq<u8>| sorter.order(a, b)));
    lemma_arranged_len(lines, by_sorter(sorter), same_keys(sorter), cfg.unique, cfg.top);
}

/// A sort writes the header, if there is one, and below it the other lines in order,
/// each followed by the terminator. It succeeds, and it counts the lines that it sorted
/// and wrote and how many `-u` left out.
pub proof fn sorts_write_lines(cfg: Config, sorter: Sorter, terminal: Terminal, lines: Seq<Seq<u8>>, run: Run)
    requires
        is_sort_run(cfg, sorter, terminal, lines, run),
        !writes_in_color(cfg, terminal),
    ensures
        ({
            let body = body_part(lines, cfg.header);
            let out = job_lines(cfg, sorter, body);
            &&& run.output is Some
            &&& run.output->0@ == lines_text(header_part(lines, cfg.header) + out, cfg.line_end())
            &&& run.report@.len() == 0
            &&& run.outcome.exit_code == 0
            &&& run.outcome.stats is Some <==> cfg.stats
            &&& cfg.stats && lines.len() <= usize::MAX ==> {
                let s = run.outcome.stats->0;
                &&& s.lines_in == body.len()
                &&& s.lines_out == out.len()
                &&& cfg.top is None ==> s.duplicates_removed == body.len() - out.len()
                &&& s.chunks is None
            }
        }),
{
    let t = cfg.line_end();
    let body = body_part(lines, cfg.header);
    let out = job_lines(cfg, sorter, body);
    lemma_parts(lines, cfg.header, out, t);
    written_lines_are_ended(out, t);
    lemma_job_len(cfg, sorter, body);
}

/// In color a sort writes the same lines, with the first key of each line below the
/// header highlighted.
pub proof fn sorts_write_colored_lines(cfg: Config, sorter: Sorter, terminal: Terminal, lines: Seq<Seq<u8>>, run: Run)
    requires
        is_sort_run(cfg, sorter, terminal, lines, run),
        writes_in_color(cfg, terminal),
    ensures
        ({
            let t = cfg.line_end();
            let out = job_lines(cfg, sorter, body_part(lines, cfg.header));
            &&& run.output is Some
            &&& run.output->0@ == lines_text(header_part(lines, cfg.header), t)
                + written_highlighted(out, sorter, t)
            &&& run.outcome.exit_code == 0
        }),
{
    lemma_parts(lines, cfg.header, Seq::empty(), cfg.line_end());
}

/// The counts of a job, where they are asked for: how many lines it read, how many it
/// wrote, and how many it read that are not among the `kept` ones.
pub open spec fn reports_counts(cfg: Config, run: Run, read: nat, wrote: nat, kept: nat) -> bool {
    &&& run.outcome.stats is Some <==> cfg.stats
    &&& cfg.stats && read <= usize::MAX ==> {
        let s = run.outcome.stats->0;
        &&& s.lines_in == read
        &&& s.lines_out == wrote
        &&& s.duplicates_removed == read - kept
        &&& s.chunks is None
    }
}

proof fn lemma_group_len(sorter: Sorter, lines: Seq<Seq<u8>>)
    ensures
        all_groups(sorter, lines).len() <= lines.len(),
{
    sorter_order_is_total(sorter);
    assert(by_sorter(sorter) =~= (|a: Seq<u8>, b: Seq<u8>| sorter.order(a, b)));
    let sorted = stable_sort(lines, by_sorter(sorter));
    stable_sort_exists(lines, by_sorter(sorter));
    lemma_same_ties_permutes(lines, sorted, by_sorter(sorter));
    lemma_fewer_groups(sorted, same_keys(sorter));
}

/// `--count` writes the header and the groups of the other lines, as many as `--top`
/// asks for.
pub proof fn counts_write_groups(cfg: Config, sorter: Sorter, lines: Seq<Seq<u8>>, run: Run)
    requires
        is_count_run(cfg, sorter, lines, run),
    ensures
        ({
            let t = cfg.line_end();
            let all = all_groups(sorter, body_part(lines, cfg.header));
            &&& run.output is Some
            &&& exists|kept: Seq<(nat, Seq<u8>)>|
                is_start_of(kept, all, cfg.top) && run.output->0@ == lines_text(
                    header_part(lines, cfg.header),
                    t,
                ) + #[trigger] written_counts(kept, t) && reports_counts(
                    cfg,
                    run,
                    body_part(lines, cfg.header).len(),
                    kept.len(),
                    all.len(),
                )
            &&& run.report@.len() == 0
            &&& run.outcome.exit_code == 0
        }),
{
    let t = cfg.line_end();
    lemma_parts(lines, cfg.header, Seq::empty(), t);
    let all = all_groups(sorter, body_part(lines, cfg.header));
    let kept = first_n(all, cfg.top);
    lemma_group_len(sorter, body_part(lines, cfg.header));
    assert(is_start_of(kept, all, cfg.top));
    assert(run.output->0@ == lines_text(header_part(lines, cfg.header), t) + written_counts(
        kept,
        t,
    ));
}

/// `b` may stand right behind `a` in sorted lines.
pub open spec fn may_follow(sorter: Sorter, unique: bool, a: Seq<u8>, b: Seq<u8>) -> bool {
    sorter.key_order(a, b) == Ordering::Less || !unique && sorter.key_order(a, b)
        == Ordering::Equal
}

/// A check succeeds exactly where every line may stand behind the one before it. It
/// writes no output; where it fails its code is 1 and it reports the first line that
/// may not stand where it does, counted from 1 and with the header, and the key in it.
pub proof fn checks_tell_sorted_lines(cfg: Config, sorter: Sorter, terminal: Terminal, lines: Seq<Seq<u8>>, run: Run)
    requires
        is_check_run(cfg, sorter, terminal, body_of(lines, cfg.header), run),
    ensures
        run.output is None,
        run.outcome.exit_code == 0 || run.outcome.exit_code == 1,
        ({
            let body = body_part(lines, cfg.header);
            &&& run.outcome.exit_code == 0 <==> forall|i: int|
                0 < i < body.len() ==> may_follow(
                    sorter,
                    cfg.unique,
                    body[i - 1],
                    #[trigger] body[i],
                )
            &&& run.outcome.exit_code == 0 ==> run.report@.len() == 0
            &&& run.outcome.exit_code == 1 ==> exists|i: int|
                #![trigger body[i]]
                0 < i < body.len() && !may_follow(sorter, cfg.unique, body[i - 1], body[i]) && (
                forall|j: int|
                    0 < j < i ==> may_follow(sorter, cfg.unique, body[j - 1], #[trigger] body[j]))
                    && run.report@ == disorder_report(
                    in_color(cfg, terminal.no_color, terminal.stderr),
                    body[i - 1],
                    body[i],
                    line_number(i, cfg.header),
                    breaking_range(sorter, body[i - 1], body[i]).0,
                    breaking_range(sorter, body[i - 1], body[i]).1,
                )
        }),
{
    lemma_parts(lines, cfg.header, Seq::empty(), 0);
    let body = body_part(lines, cfg.header);
    assert forall|i: int| 0 < i < body.len() implies (may_follow(
        sorter,
        cfg.unique,
        body[i - 1],
        #[trigger] body[i],
    ) <==> !disorder_at(body, sorter, cfg.unique, i - 1)) by {}
    if run.outcome.exit_code == 0 {
        assert forall|i: int| 0 < i < body.len() implies may_follow(
            sorter,
            cfg.unique,
            body[i - 1],
            #[trigger] body[i],
        ) by {
            assert(!disorder_at(body, sorter, cfg.unique, i - 1));
        }
    } else {
        lemma_first_disorder(cfg, sorter, terminal, body, run);
    }
}

/// The number of a line of the body in the input: the header comes before all of them.
pub open spec fn line_number(i: int, header: bool) -> nat {
    if header {
        (i + 2) as nat
    } else {
        (i + 1) as nat
    }
}

proof fn lemma_first_disorder(cfg: Config, sorter: Sorter, terminal: Terminal, body: Seq<Seq<u8>>, run: Run)
    requires
        is_check_run(cfg, sorter, terminal, body, run),
        run.outcome.exit_code != 0,
    ensures
        run.outcome.exit_code == 1,
        exists|i: int|
            #![trigger body[i]]
            0 < i < body.len() && !may_follow(sorter, cfg.unique, body[i - 1], body[i]) && (forall|
                j: int,
            |
                0 < j < i ==> may_follow(sorter, cfg.unique, body[j - 1], #[trigger] body[j]))
                && run.report@ == disorder_report(
                in_color(cfg, terminal.no_color, terminal.stderr),
                body[i - 1],
                body[i],
                line_number(i, cfg.header),
                breaking_range(sorter, body[i - 1], body[i]).0,
                breaking_range(sorter, body[i - 1], body[i]).1,
            ),
{
    let color = wants_color(cfg.color, terminal.no_color, terminal.stderr);
    let k = choose|k: int| #[trigger]
        first_disorder(body, sorter, cfg.unique, k) && run.report@ == report_at(
            body,
            sorter,
            cfg.header,
            color,
            k,
        );
    let i = k + 1;
    assert(first_disorder(body, sorter, cfg.unique, k));
    assert(disorder_at(body, sorter, cfg.unique, k));
    assert forall|j: int| 0 < j < i implies may_follow(
        sorter,
        cfg.unique,
        body[j - 1],
        #[trigger] body[j],
    ) by {
        assert(!disorder_at(body, sorter, cfg.unique, j - 1));
    }
    assert(body[i] == body[k + 1]);
}

/// Which way a job is carried out: a structured format goes its own way; `-S` sorts
/// text in blocks, unless the job merges, checks, counts, keeps a header or cuts lines
/// off; `-m` merges; and anything else is done in memory. Only a bad size is refused.
pub proof fn jobs_have_plans(cfg: Config)
    ensures
        ({
            let blocks = cfg.buffer_size is Some && !cfg.merge && !cfg.check && !cfg.count
                && !cfg.header && cfg.top is None;
            let size = size_of_text(cfg.buffer_size->0@);
            let text = cfg.format == Format::Text;
            &&& plan_of(cfg) == Ok::<Plan, Seq<char>>(Plan::Structured) <==> !text
            &&& plan_of(cfg) == Ok::<Plan, Seq<char>>(Plan::Merge) <==> text && cfg.merge
            &&& plan_of(cfg) == Ok::<Plan, Seq<char>>(Plan::Memory) <==> text && !cfg.merge
                && !blocks
            &&& plan_of(cfg) is Err <==> text && blocks && size is Err
            &&& text && blocks && size is Err ==> plan_of(cfg) == Err::<Plan, Seq<char>>(
                size->Err_0,
            )
            &&& text && blocks && size is Ok && size->Ok_0 <= usize::MAX ==> plan_of(cfg) == Ok::<
                Plan,
                Seq<char>,
            >(Plan::Blocks(size->Ok_0 as usize))
        }),
{
}

/// A plain job on text: it sorts in memory.
pub open spec fn is_plain_sort(cfg: Config) -> bool {
    &&& cfg.format == Format::Text
    &&& !cfg.check
    &&& !cfg.count
    &&& !cfg.merge
    &&& !cfg.header
    &&& cfg.buffer_size is None
}

/// A plain job writes the lines of its input in order.
pub proof fn plain_jobs_sort(cfg: Config, input: Input, terminal: Terminal, run: Run)
    requires
        is_plain_sort(cfg),
        is_run(cfg, input, terminal, run),
        !writes_in_color(cfg, terminal),
    ensures
        input.is_readable(),
        run.output is Some,
        run.outcome.exit_code == 0,
        exists|sorter: Sorter| #[trigger]
            cfg.is_sorter(sorter) && run.output->0@ == lines_text(
                job_lines(cfg, sorter, split(input.text(cfg.line_end()), cfg.line_end())),
                cfg.line_end(),
            ),
{
    let t = cfg.line_end();
    let lines = split(input.text(t), t);
    let sorter = choose|sorter: Sorter| #[trigger]
        cfg.is_sorter(sorter) && is_sort_run(cfg, sorter, terminal, lines, run);
    assert(cfg.is_sorter(sorter));
    sorts_write_lines(cfg, sorter, terminal, lines, run);
    let out = job_lines(cfg, sorter, lines);
    assert(header_part(lines, false) + out =~= out);
}

/// A job with `-c` checks the lines of its input below the header and writes nothing.
pub proof fn check_jobs_check(cfg: Config, input: Input, terminal: Terminal, run: Run)
    requires
        cfg.format == Format::Text,
        cfg.check,
        !cfg.merge,
        is_run(cfg, input, terminal, run),
    ensures
        input.is_readable(),
        run.output is None,
        exists|sorter: Sorter| #[trigger]
            cfg.is_sorter(sorter) && is_check_run(
                cfg,
                sorter,
                terminal,
                body_of(split(input.text(cfg.line_end()), cfg.line_end()), cfg.header),
                run,
            ),
{
}

/// A job with `--count` writes the groups of the lines of its input.
pub proof fn count_jobs_count(cfg: Config, input: Input, terminal: Terminal, run: Run)
    requires
        cfg.format == Format::Text,
        cfg.count,
        !cfg.check,
        !cfg.merge,
        is_run(cfg, input, terminal, run),
    ensures
        input.is_readable(),
        exists|sorter: Sorter| #[trigger]
            cfg.is_sorter(sorter) && is_count_run(
                cfg,
                sorter,
                split(input.text(cfg.line_end()), cfg.line_end()),
                run,
            ),
{
}

/// A job with `-S` writes the lines of its input in order, and counts the runs that it
/// sorted.
pub proof fn block_jobs_sort(cfg: Config, budget: usize, stream: Seq<u8>, run: Run)
    requires
        is_block_run(cfg, budget, stream, run),
        stream.len() <= usize::MAX,
    ensures
        run.output is Some,
        run.report@.len() == 0,
        run.outcome.exit_code == 0,
        run.outcome.stats is Some <==> cfg.stats,
        exists|sorter: Sorter| #[trigger]
            cfg.is_sorter(sorter) && ({
                let lines = split(stream, cfg.line_end());
                let out = job_distinct(cfg, sorter, lines);
                &&& run.output->0@ == lines_text(out, cfg.line_end())
                &&& cfg.stats && lines.len() <= usize::MAX ==> {
                    let s = run.outcome.stats->0;
                    &&& s.lines_in == lines.len()
                    &&& s.lines_out == out.len()
                    &&& s.duplicates_removed == lines.len() - out.len()
                    &&& s.chunks is Some
                    &&& s.chunks->0 == 0 <==> stream.len() == 0
                    &&& 0 < stream.len() < budget ==> s.chunks->0 == 1
                    &&& s.chunks->0 <= lines.len()
                }
            }),
{
    let t = cfg.line_end();
    let lines = split(stream, t);
    let (sorter, chunks) = choose|sorter: Sorter, chunks: usize|
        #![trigger cfg.is_sorter(sorter), is_run_count(stream, lines.len(), budget, t, chunks)]
        cfg.is_sorter(sorter) && is_run_count(stream, lines.len(), budget, t, chunks)
            && run.output is Some && run.output->0@ == written(
            external_lines(stream, sorter, cfg.unique, t),
            t,
        ) && run.outcome.exit_code == 0 && (cfg.stats ==> run.outcome.stats is Some
            && run.outcome.stats->0.lines_in == lines.len() as usize
            && run.outcome.stats->0.lines_out == external_lines(
            stream,
            sorter,
            cfg.unique,
            t,
        ).len() as usize && run.outcome.stats->0.duplicates_removed == (lines.len()
            - external_lines(stream, sorter, cfg.unique, t).len()) as usize
            && run.outcome.stats->0.chunks == Some(chunks));
    assert(cfg.is_sorter(sorter));
    lemma_job_len(cfg, sorter, lines);
    written_lines_are_ended(job_distinct(cfg, sorter, lines), t);
}

/// A merge writes the header and the merged lines, as many as `--top` asks for.
pub proof fn merges_write_lines(cfg: Config, files: Seq<Seq<Seq<u8>>>, run: Run)
    requires
        is_merge_run(cfg, files, run),
        !cfg.count,
    ensures
        run.output is Some,
        run.report@.len() == 0,
        run.outcome.exit_code == 0,
        exists|sorter: Sorter, out: Seq<Seq<u8>>|
            #![trigger cfg.is_sorter(sorter), lines_text(out, cfg.line_end())]
            cfg.is_sorter(sorter) && is_start_of(
                out,
                merge_lines(cfg, sorter, below_header(files, cfg.header)),
                cfg.top,
            ) && run.output->0@ == merge_head(files, cfg.header, cfg.line_end()) + lines_text(
                out,
                cfg.line_end(),
            ) && reports_counts(
                cfg,
                run,
                total_len(below_header(files, cfg.header)),
                out.len(),
                merge_lines(cfg, sorter, below_header(files, cfg.header)).len(),
            ),
{
    let t = cfg.line_end();
    let body = below_header(files, cfg.header);
    let head = merge_head(files, cfg.header, t);
    let sorter = choose|sorter: Sorter| #[trigger]
        cfg.is_sorter(sorter) && run.output is Some && run.output->0@ == head + written(
            first_n(merge_lines(cfg, sorter, body), cfg.top),
            t,
        ) && run.outcome == success(
            cfg.stats,
            memory_stats(
                total_len(body),
                first_n(merge_lines(cfg, sorter, body), cfg.top).len(),
                total_len(body) - merge_lines(cfg, sorter, body).len(),
            ),
        );
    assert(cfg.is_sorter(sorter));
    lemma_merged_len(body, by_sorter(sorter));
    lemma_deduped_len(merged(body, by_sorter(sorter)), same_keys(sorter));
    let all = merge_lines(cfg, sorter, body);
    let out = first_n(all, cfg.top);
    written_lines_are_ended(out, t);
    assert(is_start_of(out, all, cfg.top));
    assert(run.output->0@ == head + lines_text(out, t));
}

/// With `--count` a merge writes the header and the groups of the merged lines.
pub proof fn merges_write_groups(cfg: Config, files: Seq<Seq<Seq<u8>>>, run: Run)
    requires
        is_merge_run(cfg, files, run),
        cfg.count,
    ensures
        run.output is Some,
        run.report@.len() == 0,
        run.outcome.exit_code == 0,
        exists|sorter: Sorter, kept: Seq<(nat, Seq<u8>)>|
            #![trigger cfg.is_sorter(sorter), written_counts(kept, cfg.line_end())]
            cfg.is_sorter(sorter) && is_start_of(
                kept,
                counted(
                    merged(below_header(files, cfg.header), by_sorter(sorter)),
                    same_keys(sorter),
                ),
                cfg.top,
            ) && run.output->0@ == merge_head(files, cfg.header, cfg.line_end()) + written_counts(
                kept,
                cfg.line_end(),
            ) && reports_counts(
                cfg,
                run,
                total_len(below_header(files, cfg.header)),
                kept.len(),
                counted(
                    merged(below_header(files, cfg.header), by_sorter(sorter)),
                    same_keys(sorter),
                ).len(),
            ),
{
    let t = cfg.line_end();
    let body = below_header(files, cfg.header);
    let head = merge_head(files, cfg.header, t);
    let sorter = choose|sorter: Sorter| #[trigger]
        cfg.is_sorter(sorter) && is_group_run(
            cfg,
            head,
            total_len(body),
            counted(merged(body, by_sorter(sorter)), same_keys(sorter)),
            run,
        );
    assert(cfg.is_sorter(sorter));
    lemma_merged_len(body, by_sorter(sorter));
    lemma_fewer_groups(merged(body, by_sorter(sorter)), same_keys(sorter));
    let all = counted(merged(body, by_sorter(sorter)), same_keys(sorter));
    let kept = first_n(all, cfg.top);
    assert(is_start_of(kept, all, cfg.top));
    assert(run.output->0@ == head + written_counts(kept, t));
}

/// Each format is sorted in its own way: CSV and TSV as records, JSON as an array, and
/// JSONL line by line; and data of these formats always has newlines.
pub proof fn formats_are_sorted(cfg: Config, input: Input, terminal: Terminal, run: Run)
    requires
        is_run(cfg, input, terminal, run),
    ensures
        cfg.format == Format::Csv || cfg.format == Format::Tsv ==> is_csv_run(
            cfg,
            input.text(0x0a),
            run,
        ),
        cfg.format == Format::Json ==> is_json_run(cfg, input.text(0x0a), false, run),
        cfg.format == Format::Jsonl ==> is_json_run(cfg, input.text(0x0a), true, run),
{
}

/// Only a job whose input can be read and whose keys make sense succeeds.
pub proof fn only_good_jobs_succeed(cfg: Config, input: Input, terminal: Terminal, run: Run)
    requires
        is_run(cfg, input, terminal, run),
    ensures
        input.is_readable(),
        cfg.format == Format::Text ==> cfg.sort_keys() is Ok,
{
}

/// A job on text fails only where its buffer size, its input or its keys are bad, or
/// where the input is too large; and it says what is wrong with its keys or its size.
pub proof fn only_bad_jobs_fail(cfg: Config, input: Input, e: RunError)
    requires
        cfg.format == Format::Text,
        is_run_fault(cfg, input, e),
    ensures
        match e {
            RunError::Invalid(m) => {
                ||| cfg.sort_keys() == Err::<Seq<KeyDef>, Seq<char>>(m@)
                ||| cfg.buffer_size is Some && size_of_text(cfg.buffer_size->0@) == Err::<
                    u64,
                    Seq<char>,
                >(m@)
            },
            RunError::Input(_) => !input.is_readable(),
            RunError::TooLarge => cfg.sort_keys() is Ok && input.is_readable() && (cfg.merge
                || cfg.buffer_size is Some),
            _ => false,
        },
{
    if let RunError::Input(f) = e {
        match input {
            Input::Files(files) => {
                assert(decoded(files@[ix(f.index)]@) is None);
            },
            Input::Stdin(_) => {},
        }
    }
}

/// Without a header nothing is taken off the inputs of a merge.
pub proof fn without_header_nothing_is_taken(files: Seq<Seq<Seq<u8>>>, t: u8)
    ensures
        below_header(files, false) == files,
        merge_head(files, false, t).len() == 0,
{
}

} // verus!
