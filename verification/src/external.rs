//! Sorting in blocks of a limited size (`-S`): each block is sorted on its own, and
//! the sorted runs are merged.

use crate::config::Config;
use crate::index::{ix, nat_int};
use crate::inmemory::{by_sorter, same_keys};
use crate::input::{
    buffers, joined_inputs, joining_keeps_lines, lines_end_at_terminators, lines_of_each, split,
    split_lines, terminated, termination_keeps_lines,
};
use crate::key::{sorter_order_is_total, Sorter};
use crate::lines::{arrange, arranged, dedup_items, deduped, distinct, lines_of, views};
use crate::merge::{
    concatenated, least_head, lemma_least_head, lemma_without_head, merged, merging_sorts,
    total_len, without_head,
};
use crate::order::{in_order, is_total_order, stable_sort, ties_with};
use crate::output::{ended, header_bytes, write_lines, written, PlannedLines};
use crate::spill::{
    block_use, head_lines, lacks, polling_reads_the_stream, stream_of, BlockReader, BlockStep,
    BlockUse, Merger, MultiInput, Poll,
};
use crate::stable::{
    lemma_is_stable_sort, lemma_permuted_element, lemma_same_ties_permutes, stable_sort_exists,
};
use crate::text::{lead, lemma_lead, lemma_lead_is, other_than};
use std::cmp::Ordering;
use vstd::prelude::*;

pub use crate::size::parse_size;

verus! {

/// How much is read at a time.
pub const IO_BUF: usize = 0x4_0000;

/// Inputs in memory, read as one stream.
struct MemoryInput<'a> {
    files: &'a Vec<Vec<u8>>,
    at: usize,
    multi: MultiInput,
}

impl<'a> MemoryInput<'a> {
    spec fn is_valid(&self) -> bool {
        &&& self.multi.has_read(buffers(self.files@), ix(self.at))
        &&& self.multi.pending_sep ==> self.multi.idx < self.multi.count && self.at == 0
    }

    spec fn rest(&self) -> Seq<u8> {
        self.multi.rest(buffers(self.files@), ix(self.at))
    }

    fn new(files: &'a Vec<Vec<u8>>, terminator: u8) -> (r: MemoryInput<'a>)
        ensures
            r.is_valid(),
            r.files == files,
            r.multi.terminator == terminator,
            r.rest() == stream_of(buffers(files@), terminator),
    {
        let r = MemoryInput { files, at: 0, multi: MultiInput::new(files.len(), terminator) };
        proof {
            let all = buffers(files@);
            let stream = stream_of(all, terminator);
            assert(all.skip(0) =~= all);
            if files@.len() > 0 {
                assert(r.rest() =~= stream);
            } else {
                assert(r.rest() =~= stream);
            }
        }
        r
    }

    /// The next bytes of the stream, at most `limit` of them; none at its end.
    fn next_chunk(&mut self, limit: usize) -> (chunk: Vec<u8>)
        requires
            old(self).is_valid(),
            limit > 0,
        ensures
            final(self).is_valid(),
            final(self).files == old(self).files,
            final(self).multi.terminator == old(self).multi.terminator,
            old(self).rest() == chunk@ + final(self).rest(),
            chunk@.len() == 0 ==> old(self).rest().len() == 0,
            chunk@.len() <= limit,
    {
        let ghost all = buffers(self.files@);
        let ghost start = self.rest();
        loop
            invariant
                self.is_valid(),
                self.files == old(self).files,
                self.multi.terminator == old(self).multi.terminator,
                all == buffers(self.files@),
                start == old(self).rest(),
                self.rest() == start,
                limit > 0,
            decreases self.multi.count - self.multi.idx,
        {
            let ghost before = self.multi;
            let mut chunk: Vec<u8> = Vec::new();
            match self.multi.poll() {
                Poll::Separator(b) => {
                    chunk.push(b);
                    proof {
                        polling_reads_the_stream(before, all, ix(self.at), chunk@);
                        assert(chunk@ =~= seq![b]);
                    }
                    return chunk;
                },
                Poll::End => {
                    proof {
                        polling_reads_the_stream(before, all, ix(self.at), chunk@);
                        assert(chunk@ + self.rest() =~= start);
                    }
                    return chunk;
                },
                Poll::Read(i) => {
                    let file = &self.files[i];
                    assert(all[ix(i)] == file@);
                    let left: usize = file.len() - self.at;
                    let n: usize = if left < limit {
                        left
                    } else {
                        limit
                    };
                    let to: usize = self.at + n;
                    chunk.extend_from_slice(&file.as_slice()[self.at..to]);
                    proof {
                        assert(chunk@ =~= file@.subrange(ix(self.at), ix(to)));
                        polling_reads_the_stream(before, all, ix(self.at), chunk@);
                    }
                    self.multi.on_read(chunk.as_slice());
                    if n > 0 {
                        self.at = to;
                        return chunk;
                    }
                    self.at = 0;
                },
            }
        }
    }
}

/// A stream that does not fit into one block: it is longer than the budget by as
/// much as is read at a time, and a line ends within the budget.
pub open spec fn must_spill(stream: Seq<u8>, budget: usize, t: u8) -> bool {
    stream.len() >= budget + IO_BUF && !lacks(stream.take(ix(budget)), t)
}

/// Reads the next block of whole lines. Says whether the stream has ended with it.
fn read_block<'a>(input: &mut MemoryInput<'a>, blocks: &mut BlockReader) -> (eof: bool)
    requires
        old(input).is_valid(),
        old(blocks).terminator == old(input).multi.terminator,
    ensures
        final(input).is_valid(),
        final(input).files == old(input).files,
        final(input).multi.terminator == old(input).multi.terminator,
        final(blocks).budget == old(blocks).budget,
        final(blocks).terminator == old(blocks).terminator,
        final(blocks).block@ + final(blocks).carry@ + final(input).rest() == old(blocks).carry@
            + old(input).rest(),
        lacks(final(blocks).carry@, old(blocks).terminator),
        eof ==> final(blocks).carry@.len() == 0 && final(input).rest().len() == 0,
        !eof ==> final(blocks).block@.len() > 0 && final(blocks).block@.last()
            == old(blocks).terminator,
        !eof ==> old(blocks).carry@.len() + old(input).rest().len() >= old(blocks).budget,
        old(blocks).carry@.len() == 0 && must_spill(
            old(input).rest(),
            old(blocks).budget,
            old(blocks).terminator,
        ) ==> !eof && final(blocks).carry@.len() + final(input).rest().len() > 0,
{
    let ghost all = blocks.carry@ + input.rest();
    blocks.start();
    assert(blocks.block@ + blocks.carry@ + input.rest() =~= all);
    let ghost spills = blocks.block@.len() == 0 && must_spill(
        all,
        blocks.budget,
        blocks.terminator,
    );
    assert(blocks.block@.len() == 0 ==> all =~= input.rest());
    loop
        invariant
            spills ==> blocks.block@.len() < blocks.budget + IO_BUF,
            spills ==> must_spill(all, blocks.budget, blocks.terminator),
            old(blocks).carry@.len() == 0 && must_spill(
                old(input).rest(),
                blocks.budget,
                blocks.terminator,
            ) ==> spills,
            input.is_valid(),
            input.files == old(input).files,
            input.multi.terminator == old(input).multi.terminator,
            blocks.is_valid(),
            blocks.budget == old(blocks).budget,
            blocks.terminator == old(blocks).terminator,
            blocks.carry@.len() == 0,
            blocks.block@ + blocks.carry@ + input.rest() == all,
            all == old(blocks).carry@ + old(input).rest(),
        decreases input.rest().len(),
    {
        let ghost before = blocks.block@ + blocks.carry@;
        match blocks.step() {
            BlockStep::Ready => {
                assert(blocks.block@ + blocks.carry@ =~= before);
                assert(before.len() + input.rest().len() == all.len());
                return false;
            },
            BlockStep::Read => {},
        }
        proof {
            if spills && before.len() >= blocks.budget {
                lemma_lacks_part(before, all, ix(blocks.budget), blocks.terminator);
            }
        }
        let ghost block = blocks.block@;
        let ghost rest = input.rest();
        let chunk: Vec<u8> = input.next_chunk(IO_BUF);
        if chunk.len() == 0 {
            assert(blocks.block@ + blocks.carry@ + input.rest() =~= all);
            return true;
        }
        blocks.feed(chunk.as_slice());
        proof {
            assert(blocks.block@ + blocks.carry@ + input.rest() =~= block + rest);
            assert(before + rest =~= block + rest);
        }
    }
}

/// A start of `all` that reaches `n` holds a terminator where the first `n` bytes do.
proof fn lemma_lacks_part(start: Seq<u8>, all: Seq<u8>, n: int, t: u8)
    requires
        0 <= n <= start.len() <= all.len(),
        start == all.take(nat_int(start.len())),
        lacks(start, t),
    ensures
        lacks(all.take(n), t),
{
    assert forall|i: int| 0 <= i < n implies #[trigger] all.take(n)[i] != t by {
        assert(start[i] == all[i]);
    }
}

/// All lines lack the terminator.
pub open spec fn all_lack(lines: Seq<Seq<u8>>, t: u8) -> bool {
    forall|i: int| 0 <= i < lines.len() ==> lacks(#[trigger] lines[i], t)
}

/// Lines hold no terminator.
pub proof fn lines_lack_terminators(data: Seq<u8>, t: u8)
    ensures
        all_lack(split(data, t), t),
        split(data, t).len() <= data.len(),
    decreases data.len(),
{
    if data.len() > 0 {
        let n = lead(data, other_than(t));
        lemma_lead(data, other_than(t));
        if n < data.len() {
            let rest = split(data.skip(n + 1), t);
            lines_lack_terminators(data.skip(n + 1), t);
            let all = seq![data.take(n)] + rest;
            assert forall|i: int| 0 <= i < all.len() implies lacks(#[trigger] all[i], t) by {
                if i > 0 {
                    assert(all[i] == rest[i - 1]);
                } else {
                    let line = all[0];
                    assert forall|k: int| 0 <= k < line.len() implies #[trigger] line[k] != t by {
                        assert((other_than(t))(data[k]));
                    }
                }
            }
        } else {
            let all = split(data, t);
            assert forall|i: int| 0 <= i < all.len() implies lacks(#[trigger] all[i], t) by {
                assert forall|k: int| 0 <= k < data.len() implies #[trigger] data[k] != t by {
                    assert((other_than(t))(data[k]));
                }
            }
        }
    }
}

/// Reading lines that were written gives them back.
pub proof fn written_lines_read_back(lines: Seq<Seq<u8>>, t: u8)
    requires
        all_lack(lines, t),
    ensures
        split(written(lines, t), t) == lines,
        written(lines, t).len() == 0 || written(lines, t).last() == t,
    decreases lines.len(),
{
    if lines.len() == 0 {
        assert(split(written(lines, t), t) =~= lines);
    } else {
        let init = lines.drop_last();
        let last = lines.last();
        assert(all_lack(init, t)) by {
            assert forall|i: int| 0 <= i < init.len() implies lacks(#[trigger] init[i], t) by {
                assert(lacks(lines[i], t));
            }
        }
        written_lines_read_back(init, t);
        lines_end_at_terminators(written(init, t), ended(last, t), t);
        assert(lacks(lines[lines.len() - 1], t));
        let one = ended(last, t);
        assert forall|k: int| 0 <= k < last.len() implies (other_than(t))(#[trigger] one[k]) by {
            assert(last[k] != t);
        }
        lemma_lead_is(one, other_than(t), nat_int(last.len()));
        assert(one.take(nat_int(last.len())) =~= last);
        assert(one.skip(nat_int(last.len()) + 1) =~= Seq::<u8>::empty());
        assert(split(one.skip(nat_int(last.len()) + 1), t) =~= Seq::<Seq<u8>>::empty());
        assert(split(one, t) =~= seq![last]);
        assert(init + seq![last] =~= lines);
    }
}

/// The next line of a run from position `at`, and the position behind it.
fn next_line(run: &Vec<u8>, at: usize, terminator: u8) -> (r: (Option<Vec<u8>>, usize))
    requires
        at <= run@.len(),
    ensures
        at <= r.1 <= run@.len(),
        r.0 is None ==> split(run@.skip(ix(at)), terminator).len() == 0 && r.1 == at,
        r.0 matches Some(line) ==> split(run@.skip(ix(at)), terminator) == seq![line@] + split(
            run@.skip(ix(r.1)),
            terminator,
        ),
{
    let n: usize = run.len();
    let ghost data = run@.skip(ix(at));
    if at == n {
        return (None, at);
    }
    let mut end: usize = at;
    while end < n && run[end] != terminator
        invariant
            at <= end <= n,
            n == run@.len(),
            data == run@.skip(ix(at)),
            forall|k: int| 0 <= k < end - at ==> (other_than(terminator))(#[trigger] data[k]),
        decreases n - end,
    {
        assert(data[end - at] == run@[ix(end)]);
        end += 1;
    }
    let mut line: Vec<u8> = Vec::new();
    line.extend_from_slice(&run.as_slice()[at..end]);
    assert(line@ =~= run@.subrange(ix(at), ix(end)));
    let next: usize = if end < n {
        end + 1
    } else {
        n
    };
    proof {
        if end < n {
            assert(data[end - at] == run@[ix(end)]);
        }
        lemma_lead_is(data, other_than(terminator), end - at);
        if end < n {
            assert(data.take(end - at) =~= line@);
            assert(data.skip(end - at + 1) =~= run@.skip(ix(next)));
        } else {
            assert(data =~= line@);
            assert(run@.skip(ix(next)) =~= Seq::<u8>::empty());
            assert(split(run@.skip(ix(next)), terminator) =~= Seq::<Seq<u8>>::empty());
            assert(seq![data] + Seq::<Seq<u8>>::empty() =~= seq![data]);
        }
    }
    (Some(line), next)
}

/// The lines of runs.
pub open spec fn run_lines(runs: Seq<Vec<u8>>, t: u8) -> Seq<Seq<Seq<u8>>> {
    runs.map_values(|r: Vec<u8>| split(r@, t))
}

/// What is left of the runs: the heads, and what stands behind them.
spec fn left_of(runs: Seq<Vec<u8>>, heads: Seq<Option<Vec<u8>>>, at: Seq<usize>, t: u8) -> Seq<Seq<Seq<u8>>> {
    Seq::new(
        runs.len(),
        |f: int|
            match heads[f] {
                Some(line) => seq![line@] + split(runs[f]@.skip(ix(at[f])), t),
                None => Seq::empty(),
            },
    )
}

/// The least head depends on the heads alone.
proof fn lemma_least_of_heads(
    runs: Seq<Vec<u8>>,
    heads: Seq<Option<Vec<u8>>>,
    at: Seq<usize>,
    t: u8,
    c: spec_fn(Seq<u8>, Seq<u8>) -> Ordering,
    n: int,
)
    requires
        heads.len() == runs.len(),
        0 <= n <= runs.len(),
    ensures
        least_head(left_of(runs, heads, at, t), c, n) == least_head(head_lines(heads), c, n),
    decreases n,
{
    if n > 0 {
        lemma_least_of_heads(runs, heads, at, t, c, n - 1);
        lemma_least_head(head_lines(heads), c, n - 1);
        lemma_least_head(left_of(runs, heads, at, t), c, n - 1);
    }
}

/// Taking the head of run `b`, the next line being `next`.
proof fn lemma_head_taken(
    runs: Seq<Vec<u8>>,
    heads: Seq<Option<Vec<u8>>>,
    at: Seq<usize>,
    t: u8,
    b: int,
    next: Option<Vec<u8>>,
    pos: usize,
)
    requires
        heads.len() == runs.len(),
        at.len() == runs.len(),
        0 <= b < runs.len(),
        heads[b] is Some,
        next is None ==> split(runs[b]@.skip(ix(at[b])), t).len() == 0,
        next matches Some(line) ==> split(runs[b]@.skip(ix(at[b])), t) == seq![line@] + split(
            runs[b]@.skip(ix(pos)),
            t,
        ),
    ensures
        left_of(runs, heads.update(b, next), at.update(b, pos), t) == without_head(
            left_of(runs, heads, at, t),
            b,
        ),
{
    let before = left_of(runs, heads, at, t);
    let after = left_of(runs, heads.update(b, next), at.update(b, pos), t);
    assert forall|f: int| 0 <= f < runs.len() implies after[f] == without_head(before, b)[f] by {
        if f == b {
            let rest = split(runs[b]@.skip(ix(at[b])), t);
            assert(before[b].drop_first() =~= rest);
            if next is None {
                assert(rest =~= Seq::<Seq<u8>>::empty());
            }
        }
    }
    assert(after =~= without_head(before, b));
}

/// The lines of a merge: without repeated ones where `unique` is set.
pub open spec fn merged_lines(runs: Seq<Seq<Seq<u8>>>, sorter: Sorter, unique: bool) -> Seq<Seq<u8>> {
    if unique {
        deduped(merged(runs, by_sorter(sorter)), same_keys(sorter))
    } else {
        merged(runs, by_sorter(sorter))
    }
}

/// Merges sorted runs. Gives the bytes of the output and the number of its lines.
#[verifier::rlimit(50)]
#[verifier::spinoff_prover]
fn merge_runs(runs: &Vec<Vec<u8>>, sorter: &Sorter, unique: bool, terminator: u8) -> (r: (Vec<u8>, usize))
    requires
        sorter.is_valid(),
        total_len(run_lines(runs@, terminator)) <= usize::MAX,
    ensures
        r.0@ == written(merged_lines(run_lines(runs@, terminator), *sorter, unique), terminator),
        r.1 == merged_lines(run_lines(runs@, terminator), *sorter, unique).len(),
{
    let ghost t = terminator;
    let ghost lines = run_lines(runs@, t);
    let ghost c = by_sorter(*sorter);
    let mut heads: Vec<Option<Vec<u8>>> = Vec::new();
    let mut at: Vec<usize> = Vec::new();
    let mut i: usize = 0;
    while i < runs.len()
        invariant
            i <= runs@.len(),
            t == terminator,
            heads@.len() == i,
            at@.len() == i,
            forall|f: int| 0 <= f < i ==> #[trigger] at@[f] <= runs@[f]@.len(),
            forall|f: int|
                0 <= f < i ==> split(runs@[f]@, t) == (match #[trigger] heads@[f] {
                    Some(line) => seq![line@] + split(runs@[f]@.skip(ix(at@[f])), t),
                    None => Seq::empty(),
                }),
        decreases runs@.len() - i,
    {
        let (head, next) = next_line(&runs[i], 0, terminator);
        proof {
            assert(runs@[ix(i)]@.skip(0) =~= runs@[ix(i)]@);
            if head is None {
                assert(split(runs@[ix(i)]@, t) =~= Seq::<Seq<u8>>::empty());
            }
        }
        heads.push(head);
        at.push(next);
        i += 1;
    }
    let mut merger = Merger { heads, last: None, unique };
    let mut out: Vec<u8> = Vec::new();
    let mut count: usize = 0;
    let ghost mut taken: Seq<Seq<u8>> = Seq::empty();
    let ghost mut kept: Seq<Seq<u8>> = Seq::empty();
    proof {
        assert(left_of(runs@, merger.heads@, at@, t) =~= lines);
        assert(taken + merged(lines, c) =~= merged(lines, c));
    }
    loop
        invariant
            sorter.is_valid(),
            t == terminator,
            lines == run_lines(runs@, t),
            c == by_sorter(*sorter),
            total_len(lines) <= usize::MAX,
            merger.unique == unique,
            merger.heads@.len() == runs@.len(),
            at@.len() == runs@.len(),
            forall|f: int| 0 <= f < runs@.len() ==> #[trigger] at@[f] <= runs@[f]@.len(),
            merged(lines, c) == taken + merged(left_of(runs@, merger.heads@, at@, t), c),
            taken.len() + total_len(left_of(runs@, merger.heads@, at@, t)) == total_len(lines),
            kept == (if unique {
                deduped(taken, same_keys(*sorter))
            } else {
                taken
            }),
            kept.len() <= taken.len(),
            unique ==> (merger.last is Some <==> kept.len() > 0),
            unique && kept.len() > 0 ==> merger.last->Some_0@ == kept.last(),
            out@ == written(kept, t),
            count == kept.len(),
        ensures
            merged(lines, c) == taken,
            kept == (if unique {
                deduped(taken, same_keys(*sorter))
            } else {
                taken
            }),
            out@ == written(kept, t),
            count == kept.len(),
        decreases total_len(left_of(runs@, merger.heads@, at@, t)),
    {
        let ghost left = left_of(runs@, merger.heads@, at@, t);
        let ghost n = nat_int(runs@.len());
        let best = merger.least(sorter);
        proof {
            lemma_least_of_heads(runs@, merger.heads@, at@, t, c, n);
        }
        let b: usize = match best {
            Some(b) => b,
            None => {
                assert(taken + merged(left, c) =~= taken);
                break;
            },
        };
        let ghost old_heads = merger.heads@;
        let ghost old_at = at@;
        let (next, pos) = next_line(&runs[b], at[b], terminator);
        let ghost line = old_heads[ix(b)]->Some_0@;
        proof {
            lemma_head_taken(runs@, old_heads, old_at, t, ix(b), next, pos);
            lemma_without_head(left, ix(b));
            assert(left[ix(b)][0] == line);
        }
        let ghost before = taken;
        let ghost was_kept = kept;
        let line_out = merger.accept(b, next, sorter);
        at[b] = pos;
        proof {
            let rest = merged(left_of(runs@, merger.heads@, at@, t), c);
            taken = taken.push(line);
            assert(before + (seq![line] + rest) =~= taken + rest);
            assert(taken.drop_last() =~= before);
            if line_out is Some {
                kept = kept.push(line);
                assert(kept.drop_last() =~= was_kept);
            }
        }
        if let Some(l) = line_out {
            let ghost bytes = out@;
            let mut l = l;
            out.append(&mut l);
            out.push(terminator);
            count += 1;
            assert(out@ =~= bytes + ended(line, t));
        }
    }
    (out, count)
}

/// What a filter lets through of a concatenation is what it lets through of the
/// parts.
proof fn lemma_concatenated_ties(
    parts: Seq<Seq<Seq<u8>>>,
    sorted: Seq<Seq<Seq<u8>>>,
    c: spec_fn(Seq<u8>, Seq<u8>) -> Ordering,
    x: Seq<u8>,
)
    requires
        parts.len() == sorted.len(),
        forall|k: int|
            0 <= k < parts.len() ==> ties_with(#[trigger] sorted[k], c, x) == ties_with(
                parts[k],
                c,
                x,
            ),
    ensures
        ties_with(concatenated(sorted), c, x) == ties_with(concatenated(parts), c, x),
    decreases parts.len(),
{
    if parts.len() > 0 {
        let p = |y: Seq<u8>| c(x, y) == Ordering::Equal;
        let a = parts.drop_last();
        let b = sorted.drop_last();
        assert forall|k: int| 0 <= k < a.len() implies ties_with(#[trigger] b[k], c, x)
            == ties_with(a[k], c, x) by {
            assert(b[k] == sorted[k]);
        }
        lemma_concatenated_ties(a, b, c, x);
        Seq::filter_distributes_over_add(concatenated(a), parts.last(), p);
        Seq::filter_distributes_over_add(concatenated(b), sorted.last(), p);
        assert(ties_with(sorted[parts.len() - 1], c, x) == ties_with(
            parts[parts.len() - 1],
            c,
            x,
        ));
    } else {
        assert(concatenated(sorted) =~= concatenated(parts));
    }
}

/// Sorting parts and merging them sorts the whole.
pub proof fn sorting_in_parts(
    parts: Seq<Seq<Seq<u8>>>,
    sorted: Seq<Seq<Seq<u8>>>,
    c: spec_fn(Seq<u8>, Seq<u8>) -> Ordering,
)
    requires
        is_total_order(c),
        parts.len() == sorted.len(),
        forall|k: int|
            0 <= k < parts.len() ==> #[trigger] sorted[k] == stable_sort(parts[k], c),
    ensures
        merged(sorted, c) == stable_sort(concatenated(parts), c),
{
    assert forall|k: int| 0 <= k < sorted.len() implies in_order(#[trigger] sorted[k], c) by {
        stable_sort_exists(parts[k], c);
    }
    merging_sorts(sorted, c);
    let all = merged(sorted, c);
    stable_sort_exists(concatenated(sorted), c);
    assert forall|x: Seq<u8>| #[trigger] ties_with(all, c, x) == ties_with(
        concatenated(parts),
        c,
        x,
    ) by {
        assert forall|k: int| 0 <= k < parts.len() implies ties_with(#[trigger] sorted[k], c, x)
            == ties_with(parts[k], c, x) by {
            stable_sort_exists(parts[k], c);
        }
        lemma_concatenated_ties(parts, sorted, c, x);
        assert(ties_with(all, c, x) == ties_with(concatenated(sorted), c, x));
    }
    lemma_is_stable_sort(concatenated(parts), all, c);
}

/// The lines of parts are together as many as the parts have.
proof fn lemma_concatenated_len(parts: Seq<Seq<Seq<u8>>>, sorted: Seq<Seq<Seq<u8>>>)
    requires
        parts.len() == sorted.len(),
        forall|k: int| 0 <= k < parts.len() ==> (#[trigger] sorted[k]).len() == parts[k].len(),
    ensures
        total_len(sorted) == concatenated(parts).len(),
    decreases parts.len(),
{
    if parts.len() > 0 {
        let a = parts.drop_last();
        let b = sorted.drop_last();
        assert forall|k: int| 0 <= k < a.len() implies (#[trigger] b[k]).len() == a[k].len() by {
            assert(b[k] == sorted[k]);
        }
        lemma_concatenated_len(a, b);
        assert(sorted[parts.len() - 1].len() == parts[parts.len() - 1].len());
    }
}

/// The lines of a block in order.
pub fn sorted_lines<'a>(block: &'a Vec<u8>, cfg: &Config, sorter: &Sorter, terminator: u8) -> (lines: Vec<&'a [u8]>)
    requires
        sorter.is_valid(),
    ensures
        views(lines@) == stable_sort(split(block@, terminator), by_sorter(*sorter)),
{
    let all: Vec<&'a [u8]> = split_lines(block.as_slice(), terminator);
    let by = PlannedLines { sorter };
    let ghost before = all@;
    assert(lines_of(&by, before) =~= views(before));
    let stable: bool = cfg.stable || cfg.unique || sorter.suppress_last_resort;
    let (lines, _) = arrange(all, &by, stable, false, None);
    assert(lines_of(&by, lines@) =~= views(lines@));
    lines
}

/// What sorting in blocks gives.
pub struct External {
    /// The bytes of the output.
    pub output: Vec<u8>,
    /// The number of lines read.
    pub lines_in: usize,
    /// The number of lines written.
    pub lines_out: usize,
    /// The number of sorted runs; 1 where one block was enough.
    pub chunks: usize,
}

/// The lines that sorting a stream writes.
pub open spec fn external_lines(stream: Seq<u8>, sorter: Sorter, unique: bool, t: u8) -> Seq<Seq<u8>> {
    distinct(split(stream, t), by_sorter(sorter), same_keys(sorter), unique)
}

/// `chunks` may be the number of sorted runs of a stream of `lines` lines.
pub open spec fn is_run_count(stream: Seq<u8>, lines: nat, budget: usize, t: u8, chunks: usize) -> bool {
    &&& chunks == 0 <==> stream.len() == 0
    &&& 0 < stream.len() < budget ==> chunks == 1
    &&& must_spill(stream, budget, t) ==> chunks > 1
    &&& chunks <= lines
}

/// Sorts the inputs, read as one stream, in blocks of about `budget` bytes. The
/// output is that of a sort in memory, however the stream is cut into blocks.
pub fn run_external(cfg: &Config, sorter: &Sorter, budget: usize, terminator: u8, files: &Vec<Vec<u8>>) -> (r: External)
    requires
        sorter.is_valid(),
        stream_of(buffers(files@), terminator).len() <= usize::MAX,
    ensures
        ({
            let stream = stream_of(buffers(files@), terminator);
            let lines = external_lines(stream, *sorter, cfg.unique, terminator);
            &&& r.output@ == written(lines, terminator)
            &&& r.lines_in == split(stream, terminator).len()
            &&& r.lines_out == lines.len()
            &&& is_run_count(
                stream,
                split(stream, terminator).len(),
                budget,
                terminator,
                r.chunks,
            )
        }),
{
    let ghost t = terminator;
    let ghost stream = stream_of(buffers(files@), t);
    let ghost c = by_sorter(*sorter);
    let mut input = MemoryInput::new(files, terminator);
    let mut blocks = BlockReader::new(budget, terminator);
    let mut runs: Vec<Vec<u8>> = Vec::new();
    let mut total: usize = 0;
    let ghost mut parts: Seq<Seq<Seq<u8>>> = Seq::empty();
    proof {
        sorter_order_is_total(*sorter);
        assert(c =~= (|a: Seq<u8>, b: Seq<u8>| sorter.order(a, b)));
        lines_lack_terminators(stream, t);
        assert(blocks.carry@ + input.rest() =~= stream);
        assert(concatenated(parts) + split(stream, t) =~= split(stream, t));
    }
    loop
        invariant
            sorter.is_valid(),
            is_total_order(c),
            c == by_sorter(*sorter),
            t == terminator,
            stream == stream_of(buffers(files@), t),
            stream.len() <= usize::MAX,
            split(stream, t).len() <= stream.len(),
            input.is_valid(),
            input.multi.terminator == t,
            blocks.terminator == t,
            blocks.budget == budget,
            concatenated(parts) + split(blocks.carry@ + input.rest(), t) == split(stream, t),
            blocks.carry@.len() + input.rest().len() <= stream.len(),
            runs@.len() == parts.len(),
            forall|k: int|
                0 <= k < runs@.len() ==> split((#[trigger] runs@[k])@, t) == stable_sort(
                    parts[k],
                    c,
                ),
            total == concatenated(parts).len(),
            runs@.len() <= total,
            runs@.len() == 0 ==> blocks.carry@ + input.rest() == stream,
            0 < stream.len() < budget ==> runs@.len() == 0,
            runs@.len() == 0 ==> blocks.carry@.len() == 0,
            must_spill(stream, budget, t) ==> runs@.len() != 1 || blocks.carry@.len()
                + input.rest().len() > 0,
        ensures
            concatenated(parts) == split(stream, t),
            runs@.len() == parts.len(),
            forall|k: int|
                0 <= k < runs@.len() ==> split((#[trigger] runs@[k])@, t) == stable_sort(
                    parts[k],
                    c,
                ),
            total == concatenated(parts).len(),
            runs@.len() <= total,
            runs@.len() == 0 <==> stream.len() == 0,
            0 < stream.len() < budget ==> false,
            must_spill(stream, budget, t) ==> runs@.len() > 1,
        decreases blocks.carry@.len() + input.rest().len(),
    {
        let ghost rest = blocks.carry@ + input.rest();
        let ghost before = parts;
        let eof: bool = read_block(&mut input, &mut blocks);
        let ghost tail = blocks.carry@ + input.rest();
        let ghost lines = split(blocks.block@, t);
        proof {
            assert(blocks.block@ + tail =~= rest);
            if eof {
                assert(tail =~= Seq::<u8>::empty());
                assert(blocks.block@ =~= rest);
                assert(split(tail, t) =~= Seq::<Seq<u8>>::empty());
                assert(lines + split(tail, t) =~= split(rest, t));
            } else {
                lines_end_at_terminators(blocks.block@, tail, t);
            }
        }
        let fate = block_use(blocks.block.len(), eof, runs.len());
        if fate == BlockUse::Merge {
            assert(lines =~= Seq::<Seq<u8>>::empty());
            assert(concatenated(parts) + Seq::<Seq<u8>>::empty() =~= concatenated(parts));
            break;
        }
        let sorted: Vec<&[u8]> = sorted_lines(&blocks.block, cfg, sorter, terminator);
        proof {
            stable_sort_exists(lines, c);
            lemma_same_ties_permutes(lines, stable_sort(lines, c), c);
            lines_lack_terminators(blocks.block@, t);
            lemma_nonempty_has_lines(blocks.block@, t);
            lemma_sorted_lack(lines, c, t);
            parts = parts.push(lines);
            assert(parts.drop_last() =~= before);
            assert(concatenated(before) + (lines + split(tail, t)) =~= concatenated(parts) + split(
                tail,
                t,
            ));
        }
        total = total + sorted.len();
        if fate == BlockUse::Write {
            proof {
                assert(concatenated(before) =~= Seq::<Seq<u8>>::empty());
                assert(lines =~= split(stream, t));
            }
            let kept: Vec<&[u8]> = if cfg.unique {
                distinct_lines(sorted, sorter)
            } else {
                sorted
            };
            let output: Vec<u8> = write_lines(&kept, None, terminator, None);
            proof {
                assert(header_bytes(None, t) + written(views(kept@), t) =~= written(
                    views(kept@),
                    t,
                ));
            }
            return External { output, lines_in: total, lines_out: kept.len(), chunks: 1 };
        }
        let run: Vec<u8> = write_lines(&sorted, None, terminator, None);
        proof {
            assert(header_bytes(None, t) + written(views(sorted@), t) =~= written(
                views(sorted@),
                t,
            ));
            written_lines_read_back(views(sorted@), t);
        }
        runs.push(run);
        if eof {
            assert(concatenated(parts) + split(tail, t) =~= concatenated(parts));
            break;
        }
    }
    proof {
        let sorted = run_lines(runs@, t);
        assert forall|k: int| 0 <= k < parts.len() implies #[trigger] sorted[k] == stable_sort(
            parts[k],
            c,
        ) by {
            assert(split(runs@[k]@, t) == stable_sort(parts[k], c));
        }
        sorting_in_parts(parts, sorted, c);
        assert forall|k: int| 0 <= k < parts.len() implies (#[trigger] sorted[k]).len()
            == parts[k].len() by {
            stable_sort_exists(parts[k], c);
            lemma_same_ties_permutes(parts[k], stable_sort(parts[k], c), c);
        }
        lemma_concatenated_len(parts, sorted);
    }
    let (output, lines_out) = merge_runs(&runs, sorter, cfg.unique, terminator);
    External { output, lines_in: total, lines_out, chunks: runs.len() }
}

/// Text that is not empty has a line.
proof fn lemma_nonempty_has_lines(data: Seq<u8>, t: u8)
    requires
        data.len() > 0,
    ensures
        split(data, t).len() > 0,
{
}

/// Sorting keeps terminators out of the lines.
pub proof fn lemma_sorted_lack(lines: Seq<Seq<u8>>, c: spec_fn(Seq<u8>, Seq<u8>) -> Ordering, t: u8)
    requires
        is_total_order(c),
        all_lack(lines, t),
    ensures
        all_lack(stable_sort(lines, c), t),
{
    let out = stable_sort(lines, c);
    stable_sort_exists(lines, c);
    lemma_same_ties_permutes(lines, out, c);
    assert forall|i: int| 0 <= i < out.len() implies lacks(#[trigger] out[i], t) by {
        lemma_permuted_element(lines, out, i);
        let k = choose|k: int| 0 <= k < lines.len() && lines[k] == out[i];
        assert(lacks(lines[k], t));
    }
}

/// The lines without those that repeat the one before.
pub fn distinct_lines<'a>(lines: Vec<&'a [u8]>, sorter: &Sorter) -> (r: Vec<&'a [u8]>)
    requires
        sorter.is_valid(),
    ensures
        views(r@) == deduped(views(lines@), same_keys(*sorter)),
{
    let by = PlannedLines { sorter };
    let ghost all = lines@;
    assert(lines_of(&by, all) =~= views(all));
    let r = dedup_items(lines, &by);
    assert(lines_of(&by, r@) =~= views(r@));
    r
}

/// Sorting in blocks writes what a sort in memory of the same inputs writes.
pub proof fn external_agrees_with_memory(files: Seq<Seq<u8>>, sorter: Sorter, unique: bool, t: u8)
    ensures
        external_lines(stream_of(files, t), sorter, unique, t) == arranged(
            split(joined_inputs(files, t), t),
            by_sorter(sorter),
            same_keys(sorter),
            unique,
            None,
        ),
{
    streaming_keeps_lines(files, t);
}

/// The stream of several inputs has the lines of the inputs joined in memory.
pub proof fn streaming_keeps_lines(files: Seq<Seq<u8>>, t: u8)
    ensures
        split(stream_of(files, t), t) == split(joined_inputs(files, t), t),
{
    joining_keeps_lines(files, t);
    lemma_stream_lines(files, t);
}

proof fn lemma_stream_lines(files: Seq<Seq<u8>>, t: u8)
    ensures
        split(stream_of(files, t), t) == concatenated(lines_of_each(files, t)),
    decreases files.len(),
{
    let each = lines_of_each(files, t);
    if files.len() == 0 {
        assert(each =~= Seq::<Seq<Seq<u8>>>::empty());
    } else {
        let rest = files.drop_first();
        lemma_concatenated_first(each);
        assert(each.drop_first() =~= lines_of_each(rest, t));
        lemma_stream_lines(rest, t);
        if files.len() == 1 {
            assert(lines_of_each(rest, t) =~= Seq::<Seq<Seq<u8>>>::empty());
            assert(each[0] + Seq::<Seq<u8>>::empty() =~= each[0]);
        } else {
            lines_end_at_terminators(terminated(files[0], t), stream_of(rest, t), t);
            termination_keeps_lines(files[0], t);
        }
    }
}

proof fn lemma_concatenated_first(parts: Seq<Seq<Seq<u8>>>)
    requires
        parts.len() > 0,
    ensures
        concatenated(parts) == parts[0] + concatenated(parts.drop_first()),
    decreases parts.len(),
{
    if parts.len() == 1 {
        assert(parts.drop_last() =~= Seq::<Seq<Seq<u8>>>::empty());
        assert(parts.drop_first() =~= Seq::<Seq<Seq<u8>>>::empty());
        assert(concatenated(parts.drop_last()) + parts.last() =~= parts[0]);
        assert(parts[0] + concatenated(parts.drop_first()) =~= parts[0]);
    } else {
        let init = parts.drop_last();
        lemma_concatenated_first(init);
        let rest = parts.drop_first();
        assert(rest.drop_last() =~= init.drop_first());
        assert((parts[0] + concatenated(init.drop_first())) + parts.last() =~= parts[0] + (
        concatenated(init.drop_first()) + parts.last()));
    }
}

} // verus!
