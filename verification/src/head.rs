//! What `--top` does to the bytes of the output.

use crate::config::{Config, Format};
use crate::diag::{at_most, key_off, key_on, marked, wants_color, Terminal};
use crate::engine::{all_groups, is_run, job_distinct, job_lines, merge_lines};
use crate::external::{
    all_lack, lemma_sorted_lack, lines_lack_terminators, written_lines_read_back,
};
use crate::index::nat_int;
use crate::inmemory::{by_sorter, same_keys};
use crate::input::{lines_of_each, split, Input};
use crate::key::{sorter_order_is_total, Sorter};
use crate::laws::plans_of_a_job_agree;
use crate::lines::{deduped, first_n};
use crate::merge::{
    least_head, lemma_least_head, lemma_without_head, merged, total_len, without_head,
};
use crate::numeral::{numeral, right_aligned};
use crate::order::stable_sort;
use crate::outcome::Run;
use crate::output::{
    counted, counting_keeps_lines, ended, first_range, written, written_counts,
    written_highlighted,
};
use crate::spill::lacks;
use crate::text::{NEWLINE, SPACE};
use std::cmp::Ordering;
use vstd::prelude::*;

verus! {

/// A line with its first key highlighted.
pub open spec fn shown(sorter: Sorter, line: Seq<u8>) -> Seq<u8> {
    let range = first_range(sorter, line);
    let s = at_most(range.0, line.len());
    let e = at_most(range.1, line.len());
    marked(
        line,
        s,
        if e < s {
            s
        } else {
            e
        },
    )
}

/// A group as a line: its size, right-aligned in seven columns, a space and the
/// first of its lines.
pub open spec fn labelled(group: (nat, Seq<u8>)) -> Seq<u8> {
    right_aligned(numeral(group.0), 7) + seq![SPACE] + group.1
}

proof fn lemma_shown(lines: Seq<Seq<u8>>, sorter: Sorter, t: u8)
    ensures
        written_highlighted(lines, sorter, t) == written(
            lines.map_values(|l: Seq<u8>| shown(sorter, l)),
            t,
        ),
    decreases lines.len(),
{
    let all = lines.map_values(|l: Seq<u8>| shown(sorter, l));
    if lines.len() > 0 {
        lemma_shown(lines.drop_last(), sorter, t);
        assert(all.drop_last() =~= lines.drop_last().map_values(|l: Seq<u8>| shown(sorter, l)));
        assert(shown(sorter, lines.last()) + seq![t] =~= ended(all.last(), t));
    }
}

proof fn lemma_labelled(groups: Seq<(nat, Seq<u8>)>, t: u8)
    ensures
        written_counts(groups, t) == written(
            groups.map_values(|g: (nat, Seq<u8>)| labelled(g)),
            t,
        ),
    decreases groups.len(),
{
    let all = groups.map_values(|g: (nat, Seq<u8>)| labelled(g));
    if groups.len() > 0 {
        lemma_labelled(groups.drop_last(), t);
        assert(all.drop_last() =~= groups.drop_last().map_values(
            |g: (nat, Seq<u8>)| labelled(g),
        ));
        let g = groups.last();
        assert(right_aligned(numeral(g.0), 7) + seq![SPACE] + ended(g.1, t) =~= ended(
            labelled(g),
            t,
        ));
    }
}

/// The bytes of a numeral are digits.
proof fn lemma_numeral_bytes(n: nat)
    ensures
        forall|i: int| 0 <= i < numeral(n).len() ==> 0x30 <= #[trigger] numeral(n)[i] <= 0x39,
    decreases n,
{
    if n >= 10 {
        lemma_numeral_bytes(n / 10);
        let front = numeral(n / 10);
        assert(numeral(n) == front.push((0x30 + n % 10) as u8));
        assert forall|i: int| 0 <= i < numeral(n).len() implies 0x30 <= #[trigger] numeral(n)[i]
            <= 0x39 by {
            if i < front.len() {
                assert(numeral(n)[i] == front[i]);
            }
        }
    }
}

proof fn lemma_shown_lack(lines: Seq<Seq<u8>>, sorter: Sorter, t: u8)
    requires
        all_lack(lines, t),
        t == 0 || t == NEWLINE,
    ensures
        all_lack(lines.map_values(|l: Seq<u8>| shown(sorter, l)), t),
{
    let all = lines.map_values(|l: Seq<u8>| shown(sorter, l));
    assert forall|k: int| 0 <= k < all.len() implies lacks(#[trigger] all[k], t) by {
        let line = lines[k];
        assert(lacks(line, t));
        let range = first_range(sorter, line);
        let s = at_most(range.0, line.len());
        let e0 = at_most(range.1, line.len());
        let e = if e0 < s {
            s
        } else {
            e0
        };
        assert(lacks(key_on(), t) && lacks(key_off(), t));
        assert(lacks(line.take(s), t) && lacks(line.subrange(s, e), t) && lacks(line.skip(e), t));
        assert(all[k] == marked(line, s, e));
    }
}

proof fn lemma_labelled_lack(groups: Seq<(nat, Seq<u8>)>, t: u8)
    requires
        all_lack(groups.map_values(|g: (nat, Seq<u8>)| g.1), t),
        t == 0 || t == NEWLINE,
    ensures
        all_lack(groups.map_values(|g: (nat, Seq<u8>)| labelled(g)), t),
{
    let all = groups.map_values(|g: (nat, Seq<u8>)| labelled(g));
    let lines = groups.map_values(|g: (nat, Seq<u8>)| g.1);
    assert forall|k: int| 0 <= k < all.len() implies lacks(#[trigger] all[k], t) by {
        let g = groups[k];
        assert(lacks(lines[k], t));
        lemma_numeral_bytes(g.0);
        assert(lacks(right_aligned(numeral(g.0), 7), t));
        assert(all[k] == labelled(g));
    }
}

proof fn lemma_deduped_lack(lines: Seq<Seq<u8>>, same: spec_fn(Seq<u8>, Seq<u8>) -> bool, t: u8)
    requires
        all_lack(lines, t),
    ensures
        all_lack(deduped(lines, same), t),
    decreases lines.len(),
{
    if lines.len() > 0 {
        let init = lines.drop_last();
        assert forall|i: int| 0 <= i < init.len() implies lacks(#[trigger] init[i], t) by {
            assert(init[i] == lines[i]);
        }
        lemma_deduped_lack(init, same, t);
        assert(lacks(lines[lines.len() - 1], t));
        let kept = deduped(init, same);
        let out = deduped(lines, same);
        assert forall|i: int| 0 <= i < out.len() implies lacks(#[trigger] out[i], t) by {
            if i < kept.len() {
                assert(out[i] == kept[i]);
            }
        }
    }
}

/// No line of the inputs holds the terminator.
spec fn each_lacks(files: Seq<Seq<Seq<u8>>>, t: u8) -> bool {
    forall|f: int| 0 <= f < files.len() ==> all_lack(#[trigger] files[f], t)
}

proof fn lemma_merged_lack(files: Seq<Seq<Seq<u8>>>, c: spec_fn(Seq<u8>, Seq<u8>) -> Ordering, t: u8)
    requires
        each_lacks(files, t),
    ensures
        all_lack(merged(files, c), t),
    decreases total_len(files),
{
    lemma_least_head(files, c, nat_int(files.len()));
    match least_head(files, c, nat_int(files.len())) {
        Some(b) => {
            lemma_without_head(files, b);
            let rest = without_head(files, b);
            assert(all_lack(files[b], t));
            assert forall|f: int| 0 <= f < rest.len() implies all_lack(#[trigger] rest[f], t) by {
                assert(all_lack(files[f], t));
                if f == b {
                    assert forall|i: int| 0 <= i < rest[f].len() implies lacks(
                        #[trigger] rest[f][i],
                        t,
                    ) by {
                        assert(rest[f][i] == files[b][i + 1]);
                    }
                }
            }
            lemma_merged_lack(rest, c, t);
            let tail = merged(rest, c);
            let out = merged(files, c);
            assert(out =~= seq![files[b][0]] + tail);
            assert forall|i: int| 0 <= i < out.len() implies lacks(#[trigger] out[i], t) by {
                if i > 0 {
                    assert(out[i] == tail[i - 1]);
                }
            }
        },
        None => {},
    }
}

/// The first lines of output that is made of lines.
proof fn lemma_cut(pieces: Seq<Seq<u8>>, top: Option<usize>, t: u8)
    requires
        all_lack(pieces, t),
    ensures
        is_cut(written(pieces, t), written(first_n(pieces, top), t), top, t),
{
    written_lines_read_back(pieces, t);
}

/// `cut` is the first `top` lines of `full`, terminators and all, and `full` is made
/// of whole lines.
pub open spec fn is_cut(full: Seq<u8>, cut: Seq<u8>, top: Option<usize>, t: u8) -> bool {
    &&& full == written(split(full, t), t)
    &&& cut == written(first_n(split(full, t), top), t)
}

proof fn lemma_groups_cut(groups: Seq<(nat, Seq<u8>)>, top: Option<usize>, t: u8)
    requires
        all_lack(groups.map_values(|g: (nat, Seq<u8>)| g.1), t),
        t == 0 || t == NEWLINE,
    ensures
        is_cut(written_counts(groups, t), written_counts(first_n(groups, top), t), top, t),
{
    let f = |g: (nat, Seq<u8>)| labelled(g);
    lemma_labelled(groups, t);
    lemma_labelled(first_n(groups, top), t);
    lemma_labelled_lack(groups, t);
    assert(first_n(groups, top).map_values(f) =~= first_n(groups.map_values(f), top));
    lemma_cut(groups.map_values(f), top, t);
}

proof fn lemma_lines_cut(lines: Seq<Seq<u8>>, sorter: Sorter, color: bool, top: Option<usize>, t: u8)
    requires
        all_lack(lines, t),
        t == 0 || t == NEWLINE,
    ensures
        color ==> is_cut(
            written_highlighted(lines, sorter, t),
            written_highlighted(first_n(lines, top), sorter, t),
            top,
            t,
        ),
        !color ==> is_cut(written(lines, t), written(first_n(lines, top), t), top, t),
{
    let f = |l: Seq<u8>| shown(sorter, l);
    if color {
        lemma_shown(lines, sorter, t);
        lemma_shown(first_n(lines, top), sorter, t);
        lemma_shown_lack(lines, sorter, t);
        assert(first_n(lines, top).map_values(f) =~= first_n(lines.map_values(f), top));
        lemma_cut(lines.map_values(f), top, t);
    } else {
        lemma_cut(lines, top, t);
    }
}

proof fn lemma_merge_cut(cfg: Config, sorter: Sorter, files: Seq<Seq<Seq<u8>>>, t: u8)
    requires
        each_lacks(files, t),
        t == 0 || t == NEWLINE,
    ensures
        ({
            let groups = counted(merged(files, by_sorter(sorter)), same_keys(sorter));
            is_cut(written_counts(groups, t), written_counts(first_n(groups, cfg.top), t), cfg.top, t)
        }),
        ({
            let lines = merge_lines(cfg, sorter, files);
            is_cut(written(lines, t), written(first_n(lines, cfg.top), t), cfg.top, t)
        }),
{
    let all = merged(files, by_sorter(sorter));
    lemma_merged_lack(files, by_sorter(sorter), t);
    lemma_deduped_lack(all, same_keys(sorter), t);
    counting_keeps_lines(all, same_keys(sorter));
    lemma_groups_cut(counted(all, same_keys(sorter)), cfg.top, t);
    lemma_lines_cut(merge_lines(cfg, sorter, files), sorter, false, cfg.top, t);
}

proof fn lemma_memory_cut(cfg: Config, sorter: Sorter, lines: Seq<Seq<u8>>, color: bool, t: u8)
    requires
        all_lack(lines, t),
        t == 0 || t == NEWLINE,
    ensures
        ({
            let groups = all_groups(sorter, lines);
            is_cut(written_counts(groups, t), written_counts(first_n(groups, cfg.top), t), cfg.top, t)
        }),
        ({
            let all = job_distinct(cfg, sorter, lines);
            let cut = job_lines(cfg, sorter, lines);
            &&& color ==> is_cut(
                written_highlighted(all, sorter, t),
                written_highlighted(cut, sorter, t),
                cfg.top,
                t,
            )
            &&& !color ==> is_cut(written(all, t), written(cut, t), cfg.top, t)
        }),
{
    let sorted = stable_sort(lines, by_sorter(sorter));
    sorter_order_is_total(sorter);
    assert(by_sorter(sorter) =~= (|a: Seq<u8>, b: Seq<u8>| sorter.order(a, b)));
    lemma_sorted_lack(lines, by_sorter(sorter), t);
    lemma_deduped_lack(sorted, same_keys(sorter), t);
    counting_keeps_lines(sorted, same_keys(sorter));
    lemma_groups_cut(all_groups(sorter, lines), cfg.top, t);
    lemma_lines_cut(job_distinct(cfg, sorter, lines), sorter, color, cfg.top, t);
}

/// With `--top` a job that sorts, merges or counts lines writes the first lines of
/// what it writes without, byte for byte.
pub proof fn top_is_head(cfg: Config, input: Input, terminal: Terminal, full: Run, cut: Run)
    requires
        cfg.format == Format::Text,
        !cfg.check,
        !cfg.header,
        cfg.buffer_size is None,
        is_run((Config { top: None, ..cfg }), input, terminal, full),
        is_run(cfg, input, terminal, cut),
    ensures
        full.output is Some,
        cut.output is Some,
        is_cut(full.output->Some_0@, cut.output->Some_0@, cfg.top, cfg.line_end()),
{
    let t = cfg.line_end();
    let whole = Config { top: None, ..cfg };
    assert(whole.sort_keys() == cfg.sort_keys());
    assert(whole.line_end() == t);
    let a = choose|s: Sorter| #[trigger] whole.is_sorter(s);
    let none = Seq::<u8>::empty();
    assert forall|s: Sorter| #[trigger] whole.is_sorter(s) <==> cfg.is_sorter(s) by {}
    if cfg.merge {
        let files = lines_of_each(input.texts(t), t);
        assert(each_lacks(files, t)) by {
            assert forall|f: int| 0 <= f < files.len() implies all_lack(#[trigger] files[f], t) by {
                lines_lack_terminators(input.texts(t)[f], t);
            }
        }
        assert forall|s: Sorter| #[trigger] cfg.is_sorter(s) implies by_sorter(s) == by_sorter(a)
            && same_keys(s) == same_keys(a) by {
            plans_of_a_job_agree(whole, s, a);
        }
        lemma_merge_cut(cfg, a, files, t);
        assert forall|x: Seq<u8>| #[trigger] (none + x) == x by {
            assert(none + x =~= x);
        }
    } else {
        let lines = split(input.text(t), t);
        lines_lack_terminators(input.text(t), t);
        let color = cfg.output is None && wants_color(
            cfg.color,
            terminal.no_color,
            terminal.stdout,
        );
        assert forall|s: Sorter| #[trigger] cfg.is_sorter(s) implies by_sorter(s) == by_sorter(a)
            && same_keys(s) == same_keys(a) by {
            plans_of_a_job_agree(whole, s, a);
        }
        assert forall|s: Sorter, l: Seq<Seq<u8>>| #[trigger]
            cfg.is_sorter(s) implies #[trigger] written_highlighted(l, s, t)
            == written_highlighted(l, a, t) by {
            plans_of_a_job_agree(whole, s, a);
        }
        lemma_memory_cut(cfg, a, lines, color, t);
        assert forall|x: Seq<u8>| #[trigger] (none + x) == x by {
            assert(none + x =~= x);
        }
    }
}

} // verus!
