//! A sort job from its input to its output.

use crate::agreement::{byte_path_agrees, numeric_path_agrees};
use crate::check::{check_sorted, is_check_result};
use crate::config::{Config, Format};
use crate::diag::{color_stdout, wants_color, Terminal};
use crate::external::{external_lines, is_run_count, parse_size, run_external};
use crate::format::{is_structured_fault, is_structured_run, run_structured};
use crate::index::ix;
use crate::inmemory::{by_sorter, byte_order, general_order, numeric_order, same_keys};
use crate::input::{
    buffers, decode_each, lines_of_each, read_all, read_each, split, split_lines, Input,
};
use crate::key::{sorter_order_is_total, KeyDef, Sorter};
use crate::lines::{arranged, deduped, distinct, first_n, lemma_arranged_len, views};
use crate::merge::{
    all_views, below_header, header_at, is_first_filled, lemma_merged_len, lemma_without_head,
    merge_inputs, merge_sorted, merged, take_header, total_len,
};
use crate::order::stable_sort;
use crate::outcome::{success, succeed, Run, RunError};
use crate::output::{
    counted, group_views, grouped_counts, header_bytes, top_groups, write_counts, write_lines,
    written, written_counts, written_highlighted,
};
use crate::size::size_of_text;
use crate::spill::stream_of;
use crate::text::NEWLINE;
use vstd::prelude::*;

pub use crate::outcome::{Outcome, Stats};

verus! {

/// How a job is carried out.
#[derive(Clone, Copy, Debug, PartialEq, Eq, Structural)]
pub enum Plan {
    /// Records or values are sorted.
    Structured,
    /// Lines are sorted in blocks of this many bytes.
    Blocks(usize),
    /// Sorted inputs are merged.
    Merge,
    /// Lines are sorted, checked or counted in memory.
    Memory,
}

/// A job of `-S`: it sorts in blocks unless it merges, checks, counts, keeps a
/// header or writes only the first lines.
pub open spec fn sorts_in_blocks(cfg: Config) -> bool {
    &&& cfg.buffer_size is Some
    &&& !cfg.merge
    &&& !cfg.check
    &&& cfg.top is None
    &&& !cfg.count
    &&& !cfg.header
}

/// How a job is carried out, or what is wrong with its buffer size.
pub open spec fn plan_of(cfg: Config) -> Result<Plan, Seq<char>> {
    if cfg.format != Format::Text {
        Ok(Plan::Structured)
    } else if sorts_in_blocks(cfg) {
        match size_of_text(cfg.buffer_size->Some_0@) {
            Ok(n) => Ok(Plan::Blocks(n as usize)),
            Err(e) => Err(e),
        }
    } else if cfg.merge {
        Ok(Plan::Merge)
    } else {
        Ok(Plan::Memory)
    }
}

/// Decides how a job is carried out.
pub fn plan(cfg: &Config) -> (r: Result<Plan, String>)
    ensures
        match r {
            Ok(p) => plan_of(*cfg) == Ok::<Plan, Seq<char>>(p),
            Err(e) => plan_of(*cfg) == Err::<Plan, Seq<char>>(e@),
        },
{
    if cfg.format != Format::Text {
        return Ok(Plan::Structured);
    }
    if let Some(size) = &cfg.buffer_size {
        if !cfg.merge && !cfg.check && cfg.top.is_none() && !cfg.count && !cfg.header {
            return match parse_size(size.as_str()) {
                Ok(n) => Ok(Plan::Blocks(n)),
                Err(e) => Err(e),
            };
        }
    }
    if cfg.merge {
        Ok(Plan::Merge)
    } else {
        Ok(Plan::Memory)
    }
}

/// The lines that a job writes.
pub open spec fn job_lines(cfg: Config, sorter: Sorter, lines: Seq<Seq<u8>>) -> Seq<Seq<u8>> {
    arranged(lines, by_sorter(sorter), same_keys(sorter), cfg.unique, cfg.top)
}

/// The lines that a job keeps before `--top` cuts them off.
pub open spec fn job_distinct(cfg: Config, sorter: Sorter, lines: Seq<Seq<u8>>) -> Seq<Seq<u8>> {
    distinct(lines, by_sorter(sorter), same_keys(sorter), cfg.unique)
}

/// Puts lines in the order that a job asks for. Gives the lines, as many as `--top`
/// asks for, and how many `-u` removed.
pub fn order_lines<'a>(lines: Vec<&'a [u8]>, cfg: &Config, sorter: &Sorter) -> (r: (Vec<&'a [u8]>, usize))
    requires
        cfg.is_sorter(*sorter),
        sorter.is_valid(),
    ensures
        views(r.0@) == job_lines(*cfg, *sorter, views(lines@)),
        r.1 == lines@.len() - job_distinct(*cfg, *sorter, views(lines@)).len(),
{
    if cfg.is_simple_global() {
        let opts = cfg.key_opts();
        if opts.numeric {
            proof {
                numeric_path_agrees(*cfg, *sorter);
            }
            numeric_order(lines, cfg)
        } else {
            proof {
                byte_path_agrees(*cfg, *sorter);
            }
            byte_order(lines, cfg, &opts)
        }
    } else {
        general_order(lines, cfg, sorter)
    }
}

/// The lines of a job without its header.
pub open spec fn body_of(lines: Seq<Seq<u8>>, header: bool) -> Seq<Seq<u8>> {
    if header && lines.len() > 0 {
        lines.drop_first()
    } else {
        lines
    }
}

/// The header of a job as it is written.
pub open spec fn head_of(lines: Seq<Seq<u8>>, header: bool, t: u8) -> Seq<u8> {
    if header && lines.len() > 0 {
        lines[0].push(t)
    } else {
        Seq::empty()
    }
}

/// The counts of a job in memory.
pub open spec fn memory_stats(lines_in: nat, lines_out: nat, removed: int) -> Stats {
    Stats {
        lines_in: lines_in as usize,
        lines_out: lines_out as usize,
        duplicates_removed: removed as usize,
        chunks: None,
    }
}

/// The groups of lines that the keys do not tell apart, in order.
pub open spec fn all_groups(sorter: Sorter, lines: Seq<Seq<u8>>) -> Seq<(nat, Seq<u8>)> {
    counted(stable_sort(lines, by_sorter(sorter)), same_keys(sorter))
}

/// The groups that `--count` writes.
pub open spec fn job_groups(cfg: Config, sorter: Sorter, lines: Seq<Seq<u8>>) -> Seq<(nat, Seq<u8>)> {
    first_n(all_groups(sorter, lines), cfg.top)
}

/// `run` is what a check leaves behind: an exit code, a report and no output.
pub open spec fn is_check_run(cfg: Config, sorter: Sorter, terminal: Terminal, body: Seq<Seq<u8>>, run: Run) -> bool {
    &&& run.output is None
    &&& run.outcome.stats is None
    &&& is_check_result(
        body,
        sorter,
        cfg.unique,
        cfg.header,
        wants_color(cfg.color, terminal.no_color, terminal.stderr),
        run.outcome.exit_code,
        run.report@,
    )
}

/// `run` is what writing groups below a header leaves behind: all groups of `lines_in`
/// lines, or as many as `--top` asks for.
pub open spec fn is_group_run(cfg: Config, head: Seq<u8>, lines_in: nat, groups: Seq<(nat, Seq<u8>)>, run: Run) -> bool {
    let kept = first_n(groups, cfg.top);
    &&& run.output is Some
    &&& run.output->Some_0@ == head + written_counts(kept, cfg.line_end())
    &&& run.report@.len() == 0
    &&& run.outcome == success(
        cfg.stats,
        memory_stats(lines_in, kept.len(), lines_in - groups.len()),
    )
}

/// `run` is what counting groups leaves behind.
pub open spec fn is_count_run(cfg: Config, sorter: Sorter, lines: Seq<Seq<u8>>, run: Run) -> bool {
    let body = body_of(lines, cfg.header);
    is_group_run(
        cfg,
        head_of(lines, cfg.header, cfg.line_end()),
        body.len(),
        all_groups(sorter, body),
        run,
    )
}

/// `run` is what sorting lines in memory leaves behind.
pub open spec fn is_sort_run(cfg: Config, sorter: Sorter, terminal: Terminal, lines: Seq<Seq<u8>>, run: Run) -> bool {
    let t = cfg.line_end();
    let body = body_of(lines, cfg.header);
    let sorted = job_lines(cfg, sorter, body);
    let color = cfg.output is None && wants_color(
        cfg.color,
        terminal.no_color,
        terminal.stdout,
    );
    &&& run.output is Some
    &&& run.output->Some_0@ == head_of(lines, cfg.header, t) + (if color {
        written_highlighted(sorted, sorter, t)
    } else {
        written(sorted, t)
    })
    &&& run.report@.len() == 0
    &&& run.outcome == success(
        cfg.stats,
        memory_stats(
            body.len(),
            sorted.len(),
            body.len() - job_distinct(cfg, sorter, body).len(),
        ),
    )
}

/// `run` is what a job in memory leaves behind: with `-c` a check, with `--count`
/// groups, otherwise sorted lines.
pub open spec fn is_memory_run(cfg: Config, terminal: Terminal, data: Seq<u8>, run: Run) -> bool {
    let lines = split(data, cfg.line_end());
    exists|sorter: Sorter| #[trigger]
        cfg.is_sorter(sorter) && (if cfg.check {
            is_check_run(cfg, sorter, terminal, body_of(lines, cfg.header), run)
        } else if cfg.count {
            is_count_run(cfg, sorter, lines, run)
        } else {
            is_sort_run(cfg, sorter, terminal, lines, run)
        })
}

/// `m` says what is wrong with the keys of a job.
pub open spec fn is_key_fault(cfg: Config, m: Seq<char>) -> bool {
    cfg.sort_keys() == Err::<Seq<KeyDef>, Seq<char>>(m)
}

/// The run of a job that writes groups.
fn run_of_groups(cfg: &Config, header: Option<&[u8]>, lines_in: usize, groups: &Vec<(u64, &[u8])>, removed: usize) -> (run: Run)
    ensures
        run.output is Some,
        run.output->Some_0@ == header_bytes(header, cfg.line_end()) + written_counts(
            group_views(groups@),
            cfg.line_end(),
        ),
        run.report@.len() == 0,
        run.outcome == success(
            cfg.stats,
            (Stats {
                lines_in,
                lines_out: groups.len(),
                duplicates_removed: removed,
                chunks: None,
            }),
        ),
{
    Run {
        output: Some(write_counts(groups, header, cfg.terminator())),
        report: Vec::new(),
        outcome: succeed(
            cfg.stats,
            Stats {
                lines_in,
                lines_out: groups.len(),
                duplicates_removed: removed,
                chunks: None,
            },
        ),
    }
}

/// Carries out a job in memory: a check, a count or a sort.
pub fn run_memory(cfg: &Config, input: &Input, terminal: &Terminal) -> (r: Result<Run, RunError>)
    ensures
        match r {
            Ok(run) => input.is_readable() && is_memory_run(
                *cfg,
                *terminal,
                input.text(cfg.line_end()),
                run,
            ),
            Err(RunError::Input(e)) => input.is_fault(e),
            Err(RunError::Invalid(m)) => input.is_readable() && is_key_fault(*cfg, m@),
            Err(_) => false,
        },
{
    let t: u8 = cfg.terminator();
    let data: Vec<u8> = match read_all(input, t) {
        Ok(data) => data,
        Err(e) => {
            return Err(RunError::Input(e));
        },
    };
    let sorter: Sorter = match cfg.build_sorter() {
        Ok(sorter) => sorter,
        Err(m) => {
            return Err(RunError::Invalid(m));
        },
    };
    let mut lines: Vec<&[u8]> = split_lines(data.as_slice(), t);
    let ghost all = views(lines@);
    let header: Option<&[u8]> = if cfg.header && lines.len() > 0 {
        let h: &[u8] = lines.remove(0);
        assert(views(lines@) =~= all.drop_first());
        Some(h)
    } else {
        None
    };
    let ghost body = views(lines@);
    let lines_in: usize = lines.len();
    proof {
        assert(body == body_of(all, cfg.header));
        assert(header_bytes(header, t) =~= head_of(all, cfg.header, t));
        assert(body.len() == lines_in);
        assert(cfg.is_sorter(sorter));
    }
    if cfg.check {
        let (exit_code, report) = check_sorted(&lines, cfg, &sorter, terminal);
        return Ok(Run { output: None, report, outcome: Outcome { exit_code, stats: None } });
    }
    if cfg.count {
        let (groups, removed) = grouped_counts(lines, &sorter, cfg);
        return Ok(run_of_groups(cfg, header, lines_in, &groups, removed));
    }
    let (sorted, removed) = order_lines(lines, cfg, &sorter);
    let color: bool = color_stdout(cfg, terminal);
    let output = write_lines(
        &sorted,
        header,
        t,
        if color {
            Some(&sorter)
        } else {
            None
        },
    );
    assert(views(sorted@).len() == sorted@.len());
    Ok(
        Run {
            output: Some(output),
            report: Vec::new(),
            outcome: succeed(
                cfg.stats,
                Stats {
                    lines_in,
                    lines_out: sorted.len(),
                    duplicates_removed: removed,
                    chunks: None,
                },
            ),
        },
    )
}

/// The lines of a merge of sorted inputs, without repeated ones where `-u` is set.
pub open spec fn merge_lines(cfg: Config, sorter: Sorter, files: Seq<Seq<Seq<u8>>>) -> Seq<Seq<u8>> {
    if cfg.unique {
        deduped(merged(files, by_sorter(sorter)), same_keys(sorter))
    } else {
        merged(files, by_sorter(sorter))
    }
}

/// The header of a merge as it is written.
pub open spec fn merge_head(files: Seq<Seq<Seq<u8>>>, header: bool, t: u8) -> Seq<u8> {
    match header_at(files, header) {
        Some(f) => files[f][0].push(t),
        None => Seq::empty(),
    }
}

/// `run` is what merging the lines of sorted inputs leaves behind: below the header
/// the merged lines, or with `--count` their groups, as many as `--top` asks for.
pub open spec fn is_merge_run(cfg: Config, files: Seq<Seq<Seq<u8>>>, run: Run) -> bool {
    let t = cfg.line_end();
    let head = merge_head(files, cfg.header, t);
    let body = below_header(files, cfg.header);
    exists|sorter: Sorter| #[trigger]
        cfg.is_sorter(sorter) && (if cfg.count {
            is_group_run(
                cfg,
                head,
                total_len(body),
                counted(merged(body, by_sorter(sorter)), same_keys(sorter)),
                run,
            )
        } else {
            let kept = merge_lines(cfg, sorter, body);
            let lines = first_n(kept, cfg.top);
            &&& run.output is Some
            &&& run.output->Some_0@ == head + written(lines, t)
            &&& run.report@.len() == 0
            &&& run.outcome == success(
                cfg.stats,
                memory_stats(total_len(body), lines.len(), total_len(body) - kept.len()),
            )
        })
}

/// The first `top` lines, or all of them.
fn cut<'a>(lines: Vec<&'a [u8]>, top: Option<usize>) -> (r: Vec<&'a [u8]>)
    ensures
        views(r@) == first_n(views(lines@), top),
{
    let ghost all = lines@;
    let mut r = lines;
    match top {
        Some(n) => {
            r.truncate(n);
            proof {
                if n < all.len() {
                    assert(views(r@) =~= views(all).take(ix(n)));
                }
            }
        },
        None => {},
    }
    r
}

/// The number of lines of all inputs; `None` where it cannot be counted.
fn count_lines(per_file: &Vec<Vec<&[u8]>>) -> (r: Option<usize>)
    ensures
        match r {
            Some(n) => n == total_len(all_views(per_file@)),
            None => total_len(all_views(per_file@)) > usize::MAX,
        },
{
    let ghost all = all_views(per_file@);
    let mut total: usize = 0;
    let mut i: usize = 0;
    assert(all.take(0) =~= Seq::<Seq<Seq<u8>>>::empty());
    while i < per_file.len()
        invariant
            i <= per_file@.len(),
            all == all_views(per_file@),
            total == total_len(all.take(ix(i))),
        decreases per_file@.len() - i,
    {
        let n: usize = per_file[i].len();
        proof {
            assert(all.take(i + 1).drop_last() =~= all.take(ix(i)));
            assert(all.take(i + 1).last().len() == n);
            lemma_total_len_grows(all, i + 1);
        }
        total = match total.checked_add(n) {
            Some(total) => total,
            None => {
                return None;
            },
        };
        i += 1;
    }
    assert(all.take(ix(i)) =~= all);
    Some(total)
}

proof fn lemma_total_len_grows<T>(files: Seq<Seq<T>>, n: int)
    requires
        0 <= n <= files.len(),
    ensures
        total_len(files.take(n)) <= total_len(files),
    decreases files.len() - n,
{
    if n < files.len() {
        lemma_total_len_grows(files, n + 1);
        assert(files.take(n + 1).drop_last() =~= files.take(n));
    } else {
        assert(files.take(n) =~= files);
    }
}

/// Merges sorted inputs (`-m`).
pub fn run_merge(cfg: &Config, input: &Input) -> (r: Result<Run, RunError>)
    ensures
        ({
            let t = cfg.line_end();
            let files = lines_of_each(input.texts(t), t);
            match r {
                Ok(run) => input.is_readable() && total_len(files) <= usize::MAX && is_merge_run(
                    *cfg,
                    files,
                    run,
                ),
                Err(RunError::Invalid(m)) => is_key_fault(*cfg, m@),
                Err(RunError::Input(e)) => has_keys(*cfg) && input.is_fault(e),
                Err(RunError::TooLarge) => has_keys(*cfg) && input.is_readable() && total_len(files)
                    > usize::MAX,
                Err(_) => false,
            }
        }),
{
    let t: u8 = cfg.terminator();
    let sorter: Sorter = match cfg.build_sorter() {
        Ok(sorter) => sorter,
        Err(m) => {
            return Err(RunError::Invalid(m));
        },
    };
    let bufs: Vec<Vec<u8>> = match read_each(input, t) {
        Ok(bufs) => bufs,
        Err(e) => {
            return Err(RunError::Input(e));
        },
    };
    let mut per_file: Vec<Vec<&[u8]>> = Vec::new();
    let mut i: usize = 0;
    while i < bufs.len()
        invariant
            i <= bufs@.len(),
            per_file@.len() == i,
            forall|f: int|
                0 <= f < i ==> views((#[trigger] per_file@[f])@) == split(bufs@[f]@, t),
        decreases bufs@.len() - i,
    {
        per_file.push(split_lines(bufs[i].as_slice(), t));
        i += 1;
    }
    let ghost files = lines_of_each(input.texts(t), t);
    assert(all_views(per_file@) =~= files);
    let all_lines: usize = match count_lines(&per_file) {
        Some(n) => n,
        None => {
            return Err(RunError::TooLarge);
        },
    };
    let (header, rest) = take_header(per_file, cfg.header);
    let ghost body = below_header(files, cfg.header);
    let ghost head = merge_head(files, cfg.header, t);
    proof {
        if header is Some {
            let f = header_at(files, cfg.header)->Some_0;
            assert(is_first_filled(files, f));
            lemma_without_head(files, f);
        }
        assert(header_bytes(header, t) =~= head);
        lemma_merged_len(body, by_sorter(sorter));
        assert(cfg.is_sorter(sorter));
    }
    let lines_in: usize = if header.is_some() {
        all_lines - 1
    } else {
        all_lines
    };
    if cfg.count {
        let (lines, _) = merge_inputs(rest, false, &sorter);
        proof {
            assert(views(lines@).len() == lines@.len());
        }
        let (groups, removed) = top_groups(&lines, &sorter, cfg.top);
        proof {
            assert(group_views(groups@).len() == groups@.len());
        }
        return Ok(run_of_groups(cfg, header, lines_in, &groups, removed));
    }
    let (kept, removed) = merge_sorted(rest, cfg, &sorter);
    proof {
        assert(views(kept@).len() == kept@.len());
    }
    let lines: Vec<&[u8]> = cut(kept, cfg.top);
    let output = write_lines(&lines, header, t, None);
    assert(views(lines@).len() == lines@.len());
    Ok(
        Run {
            output: Some(output),
            report: Vec::new(),
            outcome: succeed(
                cfg.stats,
                Stats {
                    lines_in,
                    lines_out: lines.len(),
                    duplicates_removed: removed,
                    chunks: None,
                },
            ),
        },
    )
}

/// The keys of a job make sense.
pub open spec fn has_keys(cfg: Config) -> bool {
    cfg.sort_keys() is Ok
}

/// `run` is what sorting a stream in blocks leaves behind.
pub open spec fn is_block_run(cfg: Config, budget: usize, stream: Seq<u8>, run: Run) -> bool {
    let t = cfg.line_end();
    exists|sorter: Sorter, chunks: usize|
        #![trigger cfg.is_sorter(sorter), is_run_count(
            stream,
            split(stream, t).len(),
            budget,
            t,
            chunks,
        )]
        cfg.is_sorter(sorter) && is_run_count(stream, split(stream, t).len(), budget, t, chunks)
            && {
            let lines = external_lines(stream, sorter, cfg.unique, t);
            &&& run.output is Some
            &&& run.output->Some_0@ == written(lines, t)
            &&& run.report@.len() == 0
            &&& run.outcome == success(
                cfg.stats,
                (Stats {
                    chunks: Some(chunks),
                    ..memory_stats(
                        split(stream, t).len(),
                        lines.len(),
                        split(stream, t).len() - lines.len(),
                    )
                }),
            )
        }
}

/// Sorts the inputs, decompressed, in blocks of about `budget` bytes (`-S`).
pub fn run_blocks(cfg: &Config, input: &Input, budget: usize) -> (r: Result<Run, RunError>)
    ensures
        ({
            let stream = stream_of(input.plain(), cfg.line_end());
            match r {
                Ok(run) => input.is_readable() && stream.len() <= usize::MAX && is_block_run(
                    *cfg,
                    budget,
                    stream,
                    run,
                ),
                Err(RunError::Invalid(m)) => is_key_fault(*cfg, m@),
                Err(RunError::Input(e)) => has_keys(*cfg) && input.is_fault(e),
                Err(RunError::TooLarge) => has_keys(*cfg) && input.is_readable() && stream.len()
                    > usize::MAX,
                Err(_) => false,
            }
        }),
{
    let t: u8 = cfg.terminator();
    let sorter: Sorter = match cfg.build_sorter() {
        Ok(sorter) => sorter,
        Err(m) => {
            return Err(RunError::Invalid(m));
        },
    };
    let files: Vec<Vec<u8>> = match decode_each(input) {
        Ok(files) => files,
        Err(e) => {
            return Err(RunError::Input(e));
        },
    };
    if stream_len(&files, t).is_none() {
        return Err(RunError::TooLarge);
    }
    let ghost stream = stream_of(input.plain(), t);
    let done = run_external(cfg, &sorter, budget, t, &files);
    proof {
        sorter_order_is_total(sorter);
        assert(by_sorter(sorter) =~= (|a: Seq<u8>, b: Seq<u8>| sorter.order(a, b)));
        lemma_arranged_len(
            split(stream, t),
            by_sorter(sorter),
            same_keys(sorter),
            cfg.unique,
            None,
        );
        assert(cfg.is_sorter(sorter));
        assert(is_run_count(stream, split(stream, t).len(), budget, t, done.chunks));
    }
    Ok(
        Run {
            output: Some(done.output),
            report: Vec::new(),
            outcome: succeed(
                cfg.stats,
                Stats {
                    lines_in: done.lines_in,
                    lines_out: done.lines_out,
                    duplicates_removed: done.lines_in - done.lines_out,
                    chunks: Some(done.chunks),
                },
            ),
        },
    )
}

/// The number of bytes of the stream of several inputs; `None` where it cannot be
/// counted.
fn stream_len(files: &Vec<Vec<u8>>, t: u8) -> (r: Option<usize>)
    ensures
        match r {
            Some(n) => n == stream_of(buffers(files@), t).len(),
            None => stream_of(buffers(files@), t).len() > usize::MAX,
        },
{
    let ghost all = buffers(files@);
    let mut total: usize = 0;
    let mut i: usize = files.len();
    assert(all.skip(ix(i)) =~= Seq::<Seq<u8>>::empty());
    while i > 0
        invariant
            i <= files@.len(),
            all == buffers(files@),
            total == stream_of(all.skip(ix(i)), t).len(),
        decreases i,
    {
        let file = &files[i - 1];
        let n: usize = file.len();
        proof {
            assert(all.skip(i - 1).drop_first() =~= all.skip(ix(i)));
            assert(all.skip(i - 1)[0] == file@);
            lemma_stream_grows(all, i - 1, t);
        }
        let between: usize = if i < files.len() && n > 0 && file[n - 1] != t {
            1
        } else {
            0
        };
        total = match total.checked_add(n) {
            Some(total) => total,
            None => {
                return None;
            },
        };
        total = match total.checked_add(between) {
            Some(total) => total,
            None => {
                return None;
            },
        };
        i -= 1;
    }
    assert(all.skip(0) =~= all);
    Some(total)
}

proof fn lemma_stream_grows(files: Seq<Seq<u8>>, i: int, t: u8)
    requires
        0 <= i < files.len(),
    ensures
        stream_of(files.skip(i), t).len() <= stream_of(files, t).len(),
    decreases i,
{
    if i == 0 {
        assert(files.skip(0) =~= files);
    } else {
        assert(files.skip(i - 1).drop_first() =~= files.skip(i));
        lemma_stream_grows(files, i - 1, t);
    }
}

/// `run` is what a job leaves behind.
pub open spec fn is_run(cfg: Config, input: Input, terminal: Terminal, run: Run) -> bool {
    let t = cfg.line_end();
    match plan_of(cfg) {
        Ok(Plan::Structured) => input.is_readable() && is_structured_run(
            cfg,
            input.text(NEWLINE),
            run,
        ),
        Ok(Plan::Blocks(budget)) => {
            let stream = stream_of(input.plain(), t);
            input.is_readable() && stream.len() <= usize::MAX && is_block_run(
                cfg,
                budget,
                stream,
                run,
            )
        },
        Ok(Plan::Merge) => {
            let files = lines_of_each(input.texts(t), t);
            input.is_readable() && total_len(files) <= usize::MAX && is_merge_run(cfg, files, run)
        },
        Ok(Plan::Memory) => input.is_readable() && is_memory_run(
            cfg,
            terminal,
            input.text(t),
            run,
        ),
        Err(_) => false,
    }
}

/// `e` is why a job fails.
pub open spec fn is_run_fault(cfg: Config, input: Input, e: RunError) -> bool {
    let t = cfg.line_end();
    match plan_of(cfg) {
        Ok(Plan::Structured) => match e {
            RunError::Input(e) => input.is_fault(e),
            e => input.is_readable() && is_structured_fault(cfg, input.text(NEWLINE), e),
        },
        Ok(Plan::Blocks(_)) => match e {
            RunError::Invalid(m) => is_key_fault(cfg, m@),
            RunError::Input(e) => has_keys(cfg) && input.is_fault(e),
            RunError::TooLarge => has_keys(cfg) && input.is_readable() && stream_of(
                input.plain(),
                t,
            ).len() > usize::MAX,
            _ => false,
        },
        Ok(Plan::Merge) => match e {
            RunError::Invalid(m) => is_key_fault(cfg, m@),
            RunError::Input(e) => has_keys(cfg) && input.is_fault(e),
            RunError::TooLarge => has_keys(cfg) && input.is_readable() && total_len(
                lines_of_each(input.texts(t), t),
            ) > usize::MAX,
            _ => false,
        },
        Ok(Plan::Memory) => match e {
            RunError::Input(e) => input.is_fault(e),
            RunError::Invalid(m) => input.is_readable() && is_key_fault(cfg, m@),
            _ => false,
        },
        Err(m) => match e {
            RunError::Invalid(text) => text@ == m,
            _ => false,
        },
    }
}

/// Carries out a job on input in memory.
pub fn run(cfg: &Config, input: &Input, terminal: &Terminal) -> (r: Result<Run, RunError>)
    ensures
        match r {
            Ok(run) => is_run(*cfg, *input, *terminal, run),
            Err(e) => is_run_fault(*cfg, *input, e),
        },
{
    match plan(cfg) {
        Ok(Plan::Structured) => run_structured(cfg, input),
        Ok(Plan::Blocks(budget)) => run_blocks(cfg, input, budget),
        Ok(Plan::Merge) => run_merge(cfg, input),
        Ok(Plan::Memory) => run_memory(cfg, input, terminal),
        Err(m) => Err(RunError::Invalid(m)),
    }
}

} // verus!
