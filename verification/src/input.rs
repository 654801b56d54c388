//! Collecting input and splitting it into lines.

use crate::compress::{decoded, maybe_decompress};
use crate::index::ix;
use crate::lines::views;
use crate::merge::concatenated;
use crate::text::{lead, lemma_lead, lemma_lead_is, other_than};
use vstd::prelude::*;

verus! {

/// The lines of `data`, without the bytes that end them. What follows the last
/// terminator is a line unless it is empty.
pub open spec fn split(data: Seq<u8>, t: u8) -> Seq<Seq<u8>>
    decreases data.len(),
{
    let n = lead(data, other_than(t));
    if data.len() == 0 {
        Seq::empty()
    } else if n < 0 || n >= data.len() {
        seq![data]
    } else {
        seq![data.take(n)] + split(data.skip(n + 1), t)
    }
}

/// `data`, ended by `t` unless it is empty or ends with it already.
pub open spec fn terminated(data: Seq<u8>, t: u8) -> Seq<u8> {
    if data.len() > 0 && data.last() != t {
        data.push(t)
    } else {
        data
    }
}

/// Several inputs in one buffer, each of them terminated.
pub open spec fn joined_inputs(files: Seq<Seq<u8>>, t: u8) -> Seq<u8>
    decreases files.len(),
{
    if files.len() == 0 {
        Seq::empty()
    } else {
        joined_inputs(files.drop_last(), t) + terminated(files.last(), t)
    }
}

/// Calls memchr's `memchr_iter`: the positions of a byte, all of them, in
/// ascending order.
#[verifier::external_body]
pub(crate) fn positions_of(needle: u8, data: &[u8]) -> (r: Vec<usize>)
    ensures
        forall|k: int|
            0 <= k < r@.len() ==> #[trigger] r@[k] < data@.len() && data@[ix(r@[k])] == needle,
        forall|j: int, k: int| 0 <= j < k < r@.len() ==> #[trigger] r@[j] < #[trigger] r@[k],
        forall|i: int|
            0 <= i < data@.len() && #[trigger] data@[i] == needle ==> exists|k: int|
                0 <= k < r@.len() && #[trigger] r@[k] == i,
{
    memchr::memchr_iter(needle, data).collect()
}

/// The lines of `data`, borrowed from it.
pub fn split_lines(data: &[u8], terminator: u8) -> (lines: Vec<&[u8]>)
    ensures
        views(lines@) == split(data@, terminator),
{
    let at: Vec<usize> = positions_of(terminator, data);
    let end: usize = data.len();
    let mut lines: Vec<&[u8]> = Vec::new();
    let mut start: usize = 0;
    let mut k: usize = 0;
    proof {
        assert(data@.skip(0) =~= data@);
        assert(views(lines@) + split(data@, terminator) =~= split(data@, terminator));
    }
    while k < at.len()
        invariant
            k <= at@.len(),
            end == data@.len(),
            start <= end,
            k == 0 ==> start == 0,
            k > 0 ==> start == at@[k - 1] + 1,
            forall|j: int|
                0 <= j < at@.len() ==> #[trigger] at@[j] < data@.len() && data@[ix(at@[j])]
                    == terminator,
            forall|i: int, j: int| 0 <= i < j < at@.len() ==> #[trigger] at@[i] < #[trigger] at@[j],
            forall|i: int|
                0 <= i < data@.len() && #[trigger] data@[i] == terminator ==> exists|j: int|
                    0 <= j < at@.len() && #[trigger] at@[j] == i,
            views(lines@) + split(data@.skip(start as int), terminator) == split(
                data@,
                terminator,
            ),
        decreases at@.len() - k,
    {
        let pos: usize = at[k];
        assert(at@[k as int] < data@.len());
        proof {
            if k > 0 {
                assert(at@[k - 1] < at@[k as int]);
            }
            let rest = data@.skip(start as int);
            assert forall|i: int| 0 <= i < pos - start implies (other_than(terminator))(
                #[trigger] rest[i],
            ) by {
                if rest[i] == terminator {
                    assert(data@[start + i] == terminator);
                    let j = choose|j: int| 0 <= j < at@.len() && #[trigger] at@[j] == start + i;
                    if j < k {
                        if j < k - 1 {
                            assert(at@[j] < at@[k - 1]);
                        }
                    } else if j > k {
                        assert(at@[k as int] < at@[j]);
                    }
                }
            }
            lemma_lead_is(rest, other_than(terminator), pos - start);
            assert(rest.skip(pos - start + 1) =~= data@.skip(pos + 1));
            assert(rest.take(pos - start) =~= data@.subrange(start as int, pos as int));
        }
        let ghost before = lines@;
        lines.push(&data[start..pos]);
        proof {
            let rest = split(data@.skip(pos + 1), terminator);
            let line = data@.subrange(start as int, pos as int);
            assert(views(lines@) =~= views(before).push(line));
            assert(views(before) + (seq![line] + rest) =~= views(lines@) + rest);
        }
        start = pos + 1;
        k += 1;
    }
    proof {
        let rest = data@.skip(start as int);
        assert forall|i: int| 0 <= i < rest.len() implies (other_than(terminator))(
            #[trigger] rest[i],
        ) by {
            if rest[i] == terminator {
                assert(data@[start + i] == terminator);
                let j = choose|j: int| 0 <= j < at@.len() && #[trigger] at@[j] == start + i;
                if j < k - 1 {
                    assert(at@[j] < at@[k - 1]);
                }
            }
        }
        lemma_lead_is(rest, other_than(terminator), rest.len() as int);
    }
    let ghost before = lines@;
    if start < end {
        lines.push(&data[start..end]);
        proof {
            let line = data@.skip(start as int);
            assert(data@.subrange(start as int, data@.len() as int) =~= line);
            assert(views(lines@) =~= views(before) + seq![line]);
        }
    } else {
        assert(views(lines@) + Seq::<Seq<u8>>::empty() =~= views(lines@));
    }
    lines
}

/// Ends a buffer with the terminator unless it is empty or ends with it already.
pub fn ensure_terminated(buf: &mut Vec<u8>, terminator: u8)
    ensures
        final(buf)@ == terminated(old(buf)@, terminator),
{
    if buf.len() > 0 && buf[buf.len() - 1] != terminator {
        buf.push(terminator);
    }
}

/// The raw input of a job.
#[derive(Clone, Debug)]
pub enum Input {
    /// Standard input, where no files are named.
    Stdin(Vec<u8>),
    /// The files in the order in which they are named; `-` among them is standard
    /// input.
    Files(Vec<Vec<u8>>),
}

/// Input that could not be decompressed.
#[derive(Debug)]
pub struct InputError {
    /// Which of the files it is.
    pub index: usize,
    /// What is wrong with it.
    pub error: std::io::Error,
}

/// What the files stand for, decompressed.
pub open spec fn contents(files: Seq<Vec<u8>>) -> Seq<Seq<u8>> {
    files.map_values(|f: Vec<u8>| decoded(f@)->Some_0)
}

/// Every file can be decompressed.
pub open spec fn all_readable(files: Seq<Vec<u8>>) -> bool {
    forall|i: int| 0 <= i < files.len() ==> decoded((#[trigger] files[i])@) is Some
}

/// `e` is about the first file that cannot be decompressed.
pub open spec fn is_first_unreadable(files: Seq<Vec<u8>>, e: InputError) -> bool {
    &&& e.index < files.len()
    &&& decoded(files[e.index as int]@) is None
    &&& all_readable(files.take(e.index as int))
}

impl Input {
    /// The input can be decompressed.
    pub open spec fn is_readable(&self) -> bool {
        match self {
            Input::Stdin(data) => decoded(data@) is Some,
            Input::Files(files) => all_readable(files@),
        }
    }

    /// `e` says what cannot be decompressed.
    pub open spec fn is_fault(&self, e: InputError) -> bool {
        match self {
            Input::Stdin(data) => e.index == 0 && decoded(data@) is None,
            Input::Files(files) => is_first_unreadable(files@, e),
        }
    }

    /// All input in one buffer.
    pub open spec fn text(&self, t: u8) -> Seq<u8> {
        match self {
            Input::Stdin(data) => decoded(data@)->Some_0,
            Input::Files(files) => joined_inputs(contents(files@), t),
        }
    }

    /// What each input stands for, decompressed.
    pub open spec fn plain(&self) -> Seq<Seq<u8>> {
        match self {
            Input::Stdin(data) => seq![decoded(data@)->Some_0],
            Input::Files(files) => contents(files@),
        }
    }

    /// Each input in a buffer of its own.
    pub open spec fn texts(&self, t: u8) -> Seq<Seq<u8>> {
        self.plain().map_values(|f: Seq<u8>| terminated(f, t))
    }
}

/// All sizes are known.
pub open spec fn all_known(sizes: Seq<Option<u64>>) -> bool {
    forall|i: int| 0 <= i < sizes.len() ==> #[trigger] sizes[i] is Some
}

/// The known sizes added up.
pub open spec fn total_size(sizes: Seq<Option<u64>>) -> nat
    decreases sizes.len(),
{
    if sizes.len() == 0 {
        0
    } else {
        total_size(sizes.drop_last()) + (match sizes.last() {
            Some(n) => n as nat,
            None => 0,
        })
    }
}

/// The number of bytes of all input files, of which standard input and files that
/// cannot be examined have no known size: what a progress bar counts up to. `None`
/// where a size is not known, where there is no file, and where the sum is beyond
/// 64 bits.
pub fn input_total_bytes(sizes: &Vec<Option<u64>>) -> (r: Option<u64>)
    ensures
        match r {
            Some(n) => sizes@.len() > 0 && all_known(sizes@) && n == total_size(sizes@),
            None => sizes@.len() == 0 || !all_known(sizes@) || total_size(sizes@) > u64::MAX,
        },
{
    if sizes.len() == 0 {
        return None;
    }
    let mut total: u64 = 0;
    let mut i: usize = 0;
    assert(sizes@.take(0) =~= Seq::<Option<u64>>::empty());
    while i < sizes.len()
        invariant
            i <= sizes@.len(),
            forall|k: int| 0 <= k < i ==> #[trigger] sizes@[k] is Some,
            total == total_size(sizes@.take(i as int)),
        decreases sizes@.len() - i,
    {
        let n: u64 = match sizes[i] {
            Some(n) => n,
            None => {
                return None;
            },
        };
        proof {
            assert(sizes@.take(i + 1).drop_last() =~= sizes@.take(i as int));
            lemma_total_size_grows(sizes@, i + 1);
        }
        total = match total.checked_add(n) {
            Some(total) => total,
            None => {
                return None;
            },
        };
        i += 1;
    }
    assert(sizes@.take(i as int) =~= sizes@);
    Some(total)
}

proof fn lemma_total_size_grows(sizes: Seq<Option<u64>>, n: int)
    requires
        0 <= n <= sizes.len(),
    ensures
        total_size(sizes.take(n)) <= total_size(sizes),
    decreases sizes.len() - n,
{
    if n < sizes.len() {
        lemma_total_size_grows(sizes, n + 1);
        assert(sizes.take(n + 1).drop_last() =~= sizes.take(n));
    } else {
        assert(sizes.take(n) =~= sizes);
    }
}

/// Collects all input in one buffer, decompressed. Files that lack a terminator at
/// their end get one, so that the last line of one file never runs into the first
/// line of the next.
pub fn read_all(input: &Input, terminator: u8) -> (r: Result<Vec<u8>, InputError>)
    ensures
        match r {
            Ok(buf) => input.is_readable() && buf@ == input.text(terminator),
            Err(e) => input.is_fault(e),
        },
{
    match input {
        Input::Stdin(data) => match maybe_decompress(data.as_slice()) {
            Ok(buf) => Ok(buf),
            Err(error) => Err(InputError { index: 0, error }),
        },
        Input::Files(files) => {
            let mut buf: Vec<u8> = Vec::new();
            let mut i: usize = 0;
            let ghost all = contents(files@);
            assert(all.take(0) =~= Seq::<Seq<u8>>::empty());
            assert(buf@ =~= Seq::<u8>::empty());
            while i < files.len()
                invariant
                    i <= files@.len(),
                    *input == Input::Files(*files),
                    all == contents(files@),
                    all_readable(files@.take(i as int)),
                    buf@ == joined_inputs(all.take(i as int), terminator),
                decreases files@.len() - i,
            {
                match maybe_decompress(files[i].as_slice()) {
                    Ok(content) => {
                        let mut content = content;
                        ensure_terminated(&mut content, terminator);
                        proof {
                            assert(all.take(i + 1).drop_last() =~= all.take(i as int));
                            assert(all.take(i + 1).last() == decoded(files@[i as int]@)->Some_0);
                            lemma_one_more_readable(files@, i as int);
                        }
                        buf.append(&mut content);
                    },
                    Err(error) => {
                        return Err(InputError { index: i, error });
                    },
                }
                i += 1;
            }
            assert(all.take(i as int) =~= all);
            assert(files@.take(i as int) =~= files@);
            Ok(buf)
        },
    }
}

proof fn lemma_one_more_readable(files: Seq<Vec<u8>>, i: int)
    requires
        0 <= i < files.len(),
        all_readable(files.take(i)),
        decoded(files[i]@) is Some,
    ensures
        all_readable(files.take(i + 1)),
{
    assert forall|k: int| 0 <= k < i + 1 implies decoded((#[trigger] files.take(i + 1)[k])@)
        is Some by {
        if k < i {
            assert(files.take(i)[k] == files.take(i + 1)[k]);
        }
    }
}

/// The bytes of several buffers.
pub open spec fn buffers(v: Seq<Vec<u8>>) -> Seq<Seq<u8>> {
    v.map_values(|b: Vec<u8>| b@)
}

/// Decompresses each input into a buffer of its own.
pub fn decode_each(input: &Input) -> (r: Result<Vec<Vec<u8>>, InputError>)
    ensures
        match r {
            Ok(bufs) => input.is_readable() && buffers(bufs@) == input.plain(),
            Err(e) => input.is_fault(e),
        },
{
    let mut out: Vec<Vec<u8>> = Vec::new();
    match input {
        Input::Stdin(data) => match maybe_decompress(data.as_slice()) {
            Ok(content) => {
                out.push(content);
                assert(buffers(out@) =~= input.plain());
                Ok(out)
            },
            Err(error) => Err(InputError { index: 0, error }),
        },
        Input::Files(files) => {
            let mut i: usize = 0;
            let ghost all = contents(files@);
            while i < files.len()
                invariant
                    i <= files@.len(),
                    *input == Input::Files(*files),
                    all == contents(files@),
                    all_readable(files@.take(i as int)),
                    out@.len() == i,
                    forall|k: int| 0 <= k < i ==> (#[trigger] out@[k])@ == all[k],
                decreases files@.len() - i,
            {
                match maybe_decompress(files[i].as_slice()) {
                    Ok(content) => {
                        proof {
                            lemma_one_more_readable(files@, i as int);
                        }
                        out.push(content);
                    },
                    Err(error) => {
                        return Err(InputError { index: i, error });
                    },
                }
                i += 1;
            }
            assert(files@.take(i as int) =~= files@);
            assert(buffers(out@) =~= input.plain());
            Ok(out)
        },
    }
}

/// Collects each input in a buffer of its own, decompressed and terminated.
pub fn read_each(input: &Input, terminator: u8) -> (r: Result<Vec<Vec<u8>>, InputError>)
    ensures
        match r {
            Ok(bufs) => input.is_readable() && buffers(bufs@) == input.texts(terminator),
            Err(e) => input.is_fault(e),
        },
{
    let mut bufs: Vec<Vec<u8>> = match decode_each(input) {
        Ok(bufs) => bufs,
        Err(e) => {
            return Err(e);
        },
    };
    let ghost plain = buffers(bufs@);
    let mut i: usize = 0;
    while i < bufs.len()
        invariant
            i <= bufs@.len(),
            bufs@.len() == plain.len(),
            forall|k: int| 0 <= k < i ==> (#[trigger] bufs@[k])@ == terminated(plain[k], terminator),
            forall|k: int| i <= k < bufs@.len() ==> (#[trigger] bufs@[k])@ == plain[k],
        decreases bufs@.len() - i,
    {
        ensure_terminated(&mut bufs[i], terminator);
        i += 1;
    }
    assert(buffers(bufs@) =~= input.texts(terminator));
    Ok(bufs)
}

/// Lines do not reach across a terminator: what stands behind one is split on its
/// own.
pub proof fn lines_end_at_terminators(a: Seq<u8>, b: Seq<u8>, t: u8)
    requires
        a.len() == 0 || a.last() == t,
    ensures
        split(a + b, t) == split(a, t) + split(b, t),
    decreases a.len(),
{
    if a.len() == 0 {
        assert(a + b =~= b);
        assert(split(a, t) + split(b, t) =~= split(b, t));
    } else {
        let n = lead(a, other_than(t));
        lemma_lead(a, other_than(t));
        if n == a.len() {
            assert((other_than(t))(a[a.len() - 1]));
        }
        assert forall|k: int| 0 <= k < n implies (other_than(t))(#[trigger] (a + b)[k]) by {
            assert((a + b)[k] == a[k]);
        }
        lemma_lead_is(a + b, other_than(t), n);
        let rest = a.skip(n + 1);
        assert(rest.len() > 0 ==> rest.last() == a.last());
        lines_end_at_terminators(rest, b, t);
        assert((a + b).skip(n + 1) =~= rest + b);
        assert((a + b).take(n) =~= a.take(n));
        let head = seq![a.take(n)];
        assert(head + (split(rest, t) + split(b, t)) =~= (head + split(rest, t)) + split(b, t));
    }
}

/// A missing terminator at the end makes no difference to the lines.
pub proof fn termination_keeps_lines(data: Seq<u8>, t: u8)
    ensures
        split(terminated(data, t), t) == split(data, t),
    decreases data.len(),
{
    if data.len() > 0 && data.last() != t {
        let n = lead(data, other_than(t));
        lemma_lead(data, other_than(t));
        let full = data.push(t);
        assert forall|k: int| 0 <= k < n implies (other_than(t))(#[trigger] full[k]) by {
            assert(full[k] == data[k]);
        }
        lemma_lead_is(full, other_than(t), n);
        if n == data.len() {
            assert(full.take(n) =~= data);
            assert(full.skip(n + 1) =~= Seq::<u8>::empty());
            assert(split(full.skip(n + 1), t) =~= Seq::<Seq<u8>>::empty());
            assert(seq![data] + Seq::<Seq<u8>>::empty() =~= seq![data]);
        } else {
            let rest = data.skip(n + 1);
            assert(n < data.len() - 1);
            assert(rest.last() == data.last());
            assert(terminated(rest, t) == rest.push(t));
            termination_keeps_lines(rest, t);
            assert(full.skip(n + 1) =~= rest.push(t));
            assert(full.take(n) =~= data.take(n));
        }
    }
}

/// The lines of each buffer.
pub open spec fn lines_of_each(bufs: Seq<Seq<u8>>, t: u8) -> Seq<Seq<Seq<u8>>> {
    bufs.map_values(|b: Seq<u8>| split(b, t))
}

/// The lines of joined inputs are the lines of the inputs, one input behind the
/// other.
pub proof fn joining_keeps_lines(files: Seq<Seq<u8>>, t: u8)
    ensures
        split(joined_inputs(files, t), t) == concatenated(lines_of_each(files, t)),
    decreases files.len(),
{
    if files.len() > 0 {
        let init = files.drop_last();
        joining_keeps_lines(init, t);
        lemma_joined_is_terminated(init, t);
        lines_end_at_terminators(joined_inputs(init, t), terminated(files.last(), t), t);
        termination_keeps_lines(files.last(), t);
        assert(lines_of_each(files, t).drop_last() =~= lines_of_each(init, t));
    }
}

proof fn lemma_joined_is_terminated(files: Seq<Seq<u8>>, t: u8)
    ensures
        joined_inputs(files, t).len() == 0 || joined_inputs(files, t).last() == t,
    decreases files.len(),
{
    if files.len() > 0 {
        lemma_joined_is_terminated(files.drop_last(), t);
        let last = terminated(files.last(), t);
        let front = joined_inputs(files.drop_last(), t);
        if last.len() == 0 {
            assert(front + last =~= front);
        } else {
            assert((front + last).last() == last.last());
        }
    }
}

} // verus!
