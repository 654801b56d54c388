//! The steps of sorting input that is larger than memory: reading several inputs as
//! one stream, cutting the stream into blocks of whole lines, and merging sorted
//! runs. The steps decide; reading and writing is left to the caller.

use crate::compress::copy_of;
use crate::index::{ix, nat_int};
use crate::inmemory::by_sorter;
use crate::input::terminated;
use crate::key::Sorter;
use crate::merge::least_head;
use std::cmp::Ordering;
use vstd::prelude::*;

verus! {

/// Several inputs as one stream: a terminator stands between two inputs where the
/// first of them lacks one.
pub open spec fn stream_of(files: Seq<Seq<u8>>, t: u8) -> Seq<u8>
    decreases files.len(),
{
    if files.len() == 0 {
        Seq::empty()
    } else if files.len() == 1 {
        files[0]
    } else {
        terminated(files[0], t) + stream_of(files.drop_first(), t)
    }
}

/// What to do next to read the stream.
#[derive(Clone, Copy, Debug, PartialEq, Eq, Structural)]
pub enum Poll {
    /// The next byte of the stream is this separator.
    Separator(u8),
    /// Read from the input with this number, and tell what came.
    Read(usize),
    /// The stream has ended.
    End,
}

/// Where the reading of several inputs stands.
#[derive(Clone, Copy, Debug, PartialEq, Eq, Structural)]
pub struct MultiInput {
    /// The number of inputs.
    pub count: usize,
    /// The input that is being read.
    pub idx: usize,
    /// The byte that ends a line.
    pub terminator: u8,
    /// The last byte read from the current input.
    pub last_byte: Option<u8>,
    /// A separator comes next.
    pub pending_sep: bool,
}

impl MultiInput {
    /// Reading starts with the first of `count` inputs.
    pub fn new(count: usize, terminator: u8) -> (m: MultiInput)
        ensures
            m == (MultiInput { count, idx: 0, terminator, last_byte: None, pending_sep: false }),
    {
        MultiInput { count, idx: 0, terminator, last_byte: None, pending_sep: false }
    }

    /// `p` bytes of the current input have been read.
    pub open spec fn has_read(&self, files: Seq<Seq<u8>>, p: int) -> bool {
        &&& self.count == files.len()
        &&& self.idx <= self.count
        &&& self.idx < self.count ==> 0 <= p <= files[self.idx as int].len() && self.last_byte == (
        if p > 0 {
            Some(files[self.idx as int][p - 1])
        } else {
            None
        })
    }

    /// What is left of the stream.
    pub open spec fn rest(&self, files: Seq<Seq<u8>>, p: int) -> Seq<u8> {
        let sep: Seq<u8> = if self.pending_sep {
            seq![self.terminator]
        } else {
            Seq::empty()
        };
        if self.idx < self.count {
            sep + stream_of(files.skip(self.idx as int), self.terminator).skip(p)
        } else {
            sep
        }
    }

    /// Decides what to do next.
    pub fn poll(&mut self) -> (r: Poll)
        ensures
            r == (if old(self).pending_sep {
                Poll::Separator(old(self).terminator)
            } else if old(self).idx >= old(self).count {
                Poll::End
            } else {
                Poll::Read(old(self).idx)
            }),
            *final(self) == (MultiInput { pending_sep: false, ..*old(self) }),
    {
        if self.pending_sep {
            self.pending_sep = false;
            return Poll::Separator(self.terminator);
        }
        if self.idx >= self.count {
            return Poll::End;
        }
        Poll::Read(self.idx)
    }

    /// Takes note of what was read from the current input; nothing means that it
    /// has ended.
    pub fn on_read(&mut self, data: &[u8])
        requires
            old(self).idx < old(self).count,
            !old(self).pending_sep,
        ensures
            data@.len() > 0 ==> *final(self) == (MultiInput {
                last_byte: Some(data@.last()),
                ..*old(self)
            }),
            data@.len() == 0 ==> *final(self) == (MultiInput {
                idx: (old(self).idx + 1) as usize,
                last_byte: None,
                pending_sep: old(self).idx + 1 < old(self).count && old(self).last_byte is Some
                    && old(self).last_byte != Some(old(self).terminator),
                ..*old(self)
            }),
    {
        if data.len() > 0 {
            self.last_byte = Some(data[data.len() - 1]);
        } else {
            self.idx = self.idx + 1;
            let open: bool = match self.last_byte {
                Some(b) => b != self.terminator,
                None => false,
            };
            self.pending_sep = self.idx < self.count && open;
            self.last_byte = None;
        }
    }
}

proof fn lemma_stream_first(files: Seq<Seq<u8>>, t: u8)
    requires
        files.len() > 0,
    ensures
        stream_of(files, t) == (if files.len() == 1 {
            files[0]
        } else {
            terminated(files[0], t) + stream_of(files.drop_first(), t)
        }),
{
}

/// Reading what [`MultiInput::poll`] asks for gives the stream: a separator is its
/// next byte, what is read from the current input is its next bytes, and it ends
/// where the inputs do.
pub proof fn polling_reads_the_stream(m: MultiInput, files: Seq<Seq<u8>>, p: int, data: Seq<u8>)
    requires
        m.has_read(files, p),
        m.pending_sep ==> m.idx < m.count && p == 0,
    ensures
        m.pending_sep ==> m.rest(files, p) == seq![m.terminator] + (MultiInput {
            pending_sep: false,
            ..m
        }).rest(files, p),
        !m.pending_sep && m.idx >= m.count ==> m.rest(files, p).len() == 0,
        !m.pending_sep && m.idx < m.count && data.len() > 0 && p + data.len()
            <= files[m.idx as int].len() && data == files[m.idx as int].subrange(
            p,
            p + data.len(),
        ) ==> {
            let next = MultiInput { last_byte: Some(data.last()), ..m };
            &&& next.has_read(files, p + data.len())
            &&& m.rest(files, p) == data + next.rest(files, p + data.len())
        },
        !m.pending_sep && m.idx < m.count && p == files[m.idx as int].len() ==> {
            let next = MultiInput {
                idx: (m.idx + 1) as usize,
                last_byte: None,
                pending_sep: m.idx + 1 < m.count && m.last_byte is Some && m.last_byte != Some(
                    m.terminator,
                ),
                ..m
            };
            &&& next.has_read(files, 0)
            &&& next.rest(files, 0) == m.rest(files, p)
        },
{
    let t = m.terminator;
    let i = m.idx as int;
    if m.pending_sep {
        let after = MultiInput { pending_sep: false, ..m };
        assert(after.rest(files, p) =~= stream_of(files.skip(i), t).skip(p));
    } else if m.idx < m.count {
        let left = files.skip(i);
        let file = files[i];
        let all = stream_of(left, t);
        lemma_stream_first(left, t);
        assert(left[0] == file);
        assert(left.drop_first() =~= files.skip(i + 1));
        assert(m.rest(files, p) =~= all.skip(p));
        assert(forall|k: int| 0 <= k < file.len() ==> all[k] == file[k]);
        if data.len() > 0 && p + data.len() <= file.len() && data == file.subrange(
            p,
            p + data.len(),
        ) {
            let next = MultiInput { last_byte: Some(data.last()), ..m };
            assert(data.last() == file[p + data.len() - 1]);
            assert(next.rest(files, p + data.len()) =~= all.skip(p + data.len()));
            assert(all.skip(p) =~= data + all.skip(p + data.len()));
        }
        if p == file.len() {
            let next = MultiInput {
                idx: (m.idx + 1) as usize,
                last_byte: None,
                pending_sep: m.idx + 1 < m.count && m.last_byte is Some && m.last_byte != Some(t),
                ..m
            };
            if m.idx + 1 < m.count {
                let rest = stream_of(files.skip(i + 1), t);
                assert(rest.skip(0) =~= rest);
                assert(all == terminated(file, t) + rest);
                if next.pending_sep {
                    assert(terminated(file, t) == file.push(t));
                    assert(all.skip(p) =~= seq![t] + rest);
                } else {
                    assert(terminated(file, t) =~= file);
                    assert(all.skip(p) =~= rest);
                    assert(Seq::<u8>::empty() + rest =~= rest);
                }
            } else {
                assert(all.skip(p) =~= Seq::<u8>::empty());
            }
        }
    }
}

/// Calls memchr's `memrchr`: the last position of a byte.
#[verifier::external_body]
pub(crate) fn last_position_of(needle: u8, data: &[u8]) -> (r: Option<usize>)
    ensures
        match r {
            Some(p) => p < data@.len() && data@[ix(p)] == needle && forall|i: int|
                p < i < data@.len() ==> #[trigger] data@[i] != needle,
            None => forall|i: int| 0 <= i < data@.len() ==> #[trigger] data@[i] != needle,
        },
{
    memchr::memrchr(needle, data)
}

/// Whether a block is complete.
#[derive(Clone, Copy, Debug, PartialEq, Eq, Structural)]
pub enum BlockStep {
    /// More of the stream is needed.
    Read,
    /// The block holds whole lines.
    Ready,
}

/// What becomes of a block.
#[derive(Clone, Copy, Debug, PartialEq, Eq, Structural)]
pub enum BlockUse {
    /// There is no further block: the sorted runs are merged.
    Merge,
    /// It is all of the stream: its lines are sorted and written.
    Write,
    /// Its lines are sorted and kept as a run.
    Spill,
}

/// Decides what becomes of a block of `len` bytes, read when there are `runs` sorted
/// runs; `eof` says that the stream has ended with it.
pub fn block_use(len: usize, eof: bool, runs: usize) -> (r: BlockUse)
    ensures
        r == (if len == 0 {
            BlockUse::Merge
        } else if eof && runs == 0 {
            BlockUse::Write
        } else {
            BlockUse::Spill
        }),
{
    if len == 0 {
        BlockUse::Merge
    } else if eof && runs == 0 {
        BlockUse::Write
    } else {
        BlockUse::Spill
    }
}

/// A block of whole lines that is being put together.
#[derive(Debug)]
pub struct BlockReader {
    /// The number of bytes to collect before the block is cut off.
    pub budget: usize,
    /// The byte that ends a line.
    pub terminator: u8,
    /// The block.
    pub block: Vec<u8>,
    /// The start of a line that is left for the next block.
    pub carry: Vec<u8>,
    /// The number of bytes at the start of the block that hold no terminator.
    pub scanned: usize,
}

/// `s` holds no `t`.
pub open spec fn lacks(s: Seq<u8>, t: u8) -> bool {
    forall|i: int| 0 <= i < s.len() ==> #[trigger] s[i] != t
}

impl BlockReader {
    /// The scanned bytes hold no terminator.
    pub open spec fn is_valid(&self) -> bool {
        &&& self.scanned <= self.block@.len()
        &&& lacks(self.block@.take(self.scanned as int), self.terminator)
    }

    /// Nothing has been read yet.
    pub fn new(budget: usize, terminator: u8) -> (b: BlockReader)
        ensures
            b.is_valid(),
            b.budget == budget,
            b.terminator == terminator,
            b.block@.len() == 0,
            b.carry@.len() == 0,
    {
        BlockReader { budget, terminator, block: Vec::new(), carry: Vec::new(), scanned: 0 }
    }

    /// Starts the next block with what the last one left over.
    pub fn start(&mut self)
        ensures
            final(self).is_valid(),
            final(self).block@ == old(self).carry@,
            final(self).carry@.len() == 0,
            final(self).budget == old(self).budget,
            final(self).terminator == old(self).terminator,
    {
        let mut carry: Vec<u8> = Vec::new();
        std::mem::swap(&mut carry, &mut self.carry);
        self.block = carry;
        self.scanned = 0;
    }

    /// Adds what was read.
    pub fn feed(&mut self, data: &[u8])
        requires
            old(self).is_valid(),
        ensures
            final(self).is_valid(),
            final(self).block@ == old(self).block@ + data@,
            final(self).carry@ == old(self).carry@,
            final(self).budget == old(self).budget,
            final(self).terminator == old(self).terminator,
    {
        let ghost before = self.block@;
        self.block.extend_from_slice(data);
        proof {
            assert(self.block@ =~= before + data@);
            assert(self.block@.take(self.scanned as int) =~= before.take(self.scanned as int));
        }
    }

    /// Cuts the block off behind its last whole line once it has reached the
    /// budget. A line that is longer than the budget is read to its end.
    pub fn step(&mut self) -> (r: BlockStep)
        requires
            old(self).is_valid(),
            old(self).carry@.len() == 0,
        ensures
            final(self).is_valid(),
            final(self).budget == old(self).budget,
            final(self).terminator == old(self).terminator,
            final(self).block@ + final(self).carry@ == old(self).block@,
            r == BlockStep::Ready <==> old(self).block@.len() >= old(self).budget && !lacks(
                old(self).block@,
                old(self).terminator,
            ),
            r == BlockStep::Ready ==> final(self).block@.len() > 0 && final(self).block@.last()
                == old(self).terminator && lacks(final(self).carry@, old(self).terminator),
            r == BlockStep::Read ==> final(self).carry@.len() == 0,
    {
        let n: usize = self.block.len();
        let ghost before = self.block@;
        let ghost t = self.terminator;
        proof {
            assert(before + self.carry@ =~= before);
        }
        if n < self.budget {
            return BlockStep::Read;
        }
        let ghost tail = before.skip(self.scanned as int);
        match last_position_of(self.terminator, &self.block[self.scanned..n]) {
            Some(p) => {
                let cut: usize = self.scanned + p + 1;
                proof {
                    assert(before.subrange(self.scanned as int, n as int) =~= tail);
                    assert(before[cut - 1] == tail[p as int]);
                }
                self.carry = self.block.split_off(cut);
                proof {
                    assert(self.block@ =~= before.take(cut as int));
                    assert(self.carry@ =~= before.skip(cut as int));
                    assert(self.block@ + self.carry@ =~= before);
                    assert(self.block@.take(self.scanned as int) =~= before.take(
                        self.scanned as int,
                    ));
                    assert forall|i: int| 0 <= i < self.carry@.len() implies #[trigger] self.carry@[i]
                        != t by {
                        assert(self.carry@[i] == tail[p + 1 + i]);
                    }
                }
                BlockStep::Ready
            },
            None => {
                proof {
                    assert(before.subrange(self.scanned as int, n as int) =~= tail);
                    assert forall|i: int| 0 <= i < before.len() implies #[trigger] before[i] != t by {
                        if i < self.scanned {
                            assert(before.take(self.scanned as int)[i] != t);
                        } else {
                            assert(tail[i - self.scanned] != t);
                        }
                    }
                    assert(before.take(n as int) =~= before);
                }
                self.scanned = n;
                BlockStep::Read
            },
        }
    }
}

/// The heads of runs as sequences of at most one line.
pub open spec fn head_lines(heads: Seq<Option<Vec<u8>>>) -> Seq<Seq<Seq<u8>>> {
    heads.map_values(
        |h: Option<Vec<u8>>|
            match h {
                Some(line) => seq![line@],
                None => Seq::empty(),
            },
    )
}

/// A merge of sorted runs of which only the next lines are in memory.
#[derive(Debug)]
pub struct Merger {
    /// The next line of each run; `None` where the run has ended.
    pub heads: Vec<Option<Vec<u8>>>,
    /// The last line written, where repeated lines are left out.
    pub last: Option<Vec<u8>>,
    /// Lines that the keys do not tell from the last one are left out (`-u`).
    pub unique: bool,
}

impl Merger {
    /// The line that comes next repeats the last one written.
    pub open spec fn repeats(&self, sorter: Sorter, line: Seq<u8>) -> bool {
        self.unique && match self.last {
            Some(last) => sorter.key_order(last@, line) == Ordering::Equal,
            None => false,
        }
    }

    /// The run whose next line is the least; of several, the first one.
    pub fn least(&self, sorter: &Sorter) -> (r: Option<usize>)
        requires
            sorter.is_valid(),
        ensures
            match r {
                Some(b) => b < self.heads@.len() && self.heads@[ix(b)] is Some && least_head(
                    head_lines(self.heads@),
                    by_sorter(*sorter),
                    nat_int(self.heads@.len()),
                ) == Some(ix(b)),
                None => least_head(
                    head_lines(self.heads@),
                    by_sorter(*sorter),
                    nat_int(self.heads@.len()),
                ) is None,
            },
    {
        let ghost lines = head_lines(self.heads@);
        let mut best: Option<usize> = None;
        let mut f: usize = 0;
        while f < self.heads.len()
            invariant
                f <= self.heads@.len(),
                sorter.is_valid(),
                lines == head_lines(self.heads@),
                match best {
                    Some(b) => b < f && self.heads@[ix(b)] is Some && least_head(
                        lines,
                        by_sorter(*sorter),
                        ix(f),
                    ) == Some(ix(b)),
                    None => least_head(lines, by_sorter(*sorter), ix(f)) is None,
                },
            decreases self.heads@.len() - f,
        {
            match (&self.heads[f], best) {
                (Some(line), Some(b)) => {
                    if let Some(least) = &self.heads[b] {
                        match sorter.compare(line.as_slice(), least.as_slice()) {
                            Ordering::Less => {
                                best = Some(f);
                            },
                            _ => {},
                        }
                    }
                },
                (Some(_), None) => {
                    best = Some(f);
                },
                (None, _) => {},
            }
            f += 1;
        }
        best
    }

    /// Takes the next line of run `i`, `next` being the one behind it. Gives the
    /// line if it is to be written.
    pub fn accept(&mut self, i: usize, next: Option<Vec<u8>>, sorter: &Sorter) -> (r: Option<Vec<u8>>)
        requires
            sorter.is_valid(),
            i < old(self).heads@.len(),
            old(self).heads@[ix(i)] is Some,
        ensures
            ({
                let line = old(self).heads@[ix(i)]->Some_0;
                let repeated = old(self).repeats(*sorter, line@);
                &&& r is None <==> repeated
                &&& r is Some ==> r->Some_0@ == line@
                &&& final(self).heads@ == old(self).heads@.update(ix(i), next)
                &&& final(self).unique == old(self).unique
                &&& repeated || !old(self).unique ==> final(self).last == old(self).last
                &&& !repeated && old(self).unique ==> final(self).last is Some
                    && final(self).last->Some_0@ == line@
            }),
    {
        let ghost before = self.heads@;
        self.heads.push(next);
        let head = self.heads.swap_remove(i);
        assert(self.heads@ =~= before.update(ix(i), next));
        let line: Vec<u8> = match head {
            Some(line) => line,
            None => Vec::new(),
        };
        if self.unique {
            if let Some(last) = &self.last {
                if sorter.key_equal(last.as_slice(), line.as_slice()) {
                    return None;
                }
            }
            self.last = Some(copy_of(line.as_slice()));
        }
        Some(line)
    }
}

} // verus!
