//! How lines are read from text and written to it.

use crate::config::ColorChoice;
use crate::diag::{disorder_report, highlighted, lossy_text, margin, marked, wants_color};
use crate::external::streaming_keeps_lines;
use crate::input::{joined_inputs, joining_keeps_lines, lines_of_each, split};
use crate::key::{key_end, key_start, Sorter};
use crate::numeral::{numeral, repeated, right_aligned};
use crate::output::{counted_line, first_range, written, written_counts, written_highlighted};
use crate::spill::stream_of;
use crate::text::{lemma_run_in_front, other_than};
use vstd::prelude::*;
use vstd::utf8::encode_utf8;

verus! {

/// Lines one behind the other, each of them followed by `t`.
pub open spec fn lines_text(lines: Seq<Seq<u8>>, t: u8) -> Seq<u8>
    decreases lines.len(),
{
    if lines.len() == 0 {
        Seq::empty()
    } else {
        lines[0] + seq![t] + lines_text(lines.drop_first(), t)
    }
}

/// No line holds `t`.
pub open spec fn lack_terminator(lines: Seq<Seq<u8>>, t: u8) -> bool {
    forall|i: int, j: int|
        0 <= i < lines.len() && 0 <= j < lines[i].len() ==> #[trigger] lines[i][j] != t
}

proof fn lemma_lines_text_push(lines: Seq<Seq<u8>>, line: Seq<u8>, t: u8)
    ensures
        lines_text(lines.push(line), t) == lines_text(lines, t) + line + seq![t],
    decreases lines.len(),
{
    let all = lines.push(line);
    let none = Seq::<u8>::empty();
    if lines.len() == 0 {
        assert(all.drop_first() =~= Seq::<Seq<u8>>::empty());
        reveal_with_fuel(lines_text, 2);
        assert(line + seq![t] + none =~= none + line + seq![t]);
    } else {
        let rest = lines.drop_first();
        lemma_lines_text_push(rest, line, t);
        assert(all.drop_first() =~= rest.push(line));
        assert(all[0] == lines[0]);
        let (a, b) = (lines[0] + seq![t], lines_text(rest, t));
        assert(a + (b + line + seq![t]) =~= (a + b) + line + seq![t]);
    }
}

/// Every line that is written is followed by its terminator, and nothing else is
/// written.
pub proof fn written_lines_are_ended(lines: Seq<Seq<u8>>, t: u8)
    ensures
        written(lines, t) == lines_text(lines, t),
    decreases lines.len(),
{
    if lines.len() > 0 {
        let front = lines.drop_last();
        written_lines_are_ended(front, t);
        lemma_lines_text_push(front, lines.last(), t);
        assert(front.push(lines.last()) =~= lines);
        assert(written(front, t) + lines.last().push(t) =~= lines_text(front, t) + lines.last()
            + seq![t]);
    }
}

/// Text is read as the lines that it was put together from; what stands behind the
/// last terminator is a line too, unless nothing does.
pub proof fn text_splits_into_lines(lines: Seq<Seq<u8>>, last: Seq<u8>, t: u8)
    requires
        lack_terminator(lines, t),
        forall|j: int| 0 <= j < last.len() ==> #[trigger] last[j] != t,
    ensures
        split(lines_text(lines, t) + last, t) == (if last.len() == 0 {
            lines
        } else {
            lines.push(last)
        }),
    decreases lines.len(),
{
    let data = lines_text(lines, t) + last;
    if lines.len() == 0 {
        assert(data =~= last);
        let none = Seq::<u8>::empty();
        lemma_run_in_front(last, none, other_than(t));
        assert(last + none =~= last);
        if last.len() > 0 {
            assert(seq![last] =~= lines.push(last));
        } else {
            assert(split(last, t) =~= lines);
        }
    } else {
        let line = lines[0];
        let rest = lines.drop_first();
        assert forall|i: int, j: int|
            0 <= i < rest.len() && 0 <= j < rest[i].len() implies #[trigger] rest[i][j] != t by {
            assert(lines[i + 1][j] != t);
        }
        assert forall|j: int| 0 <= j < line.len() implies #[trigger] line[j] != t by {
            assert(lines[0][j] != t);
        }
        text_splits_into_lines(rest, last, t);
        let tail = seq![t] + lines_text(rest, t) + last;
        assert(data =~= line + tail);
        assert forall|k: int| 0 <= k < line.len() implies (other_than(t))(#[trigger] line[k]) by {}
        lemma_run_in_front(line, tail, other_than(t));
        assert(data.skip(line.len() as int + 1) =~= lines_text(rest, t) + last);
        assert(data.take(line.len() as int) =~= line);
        if last.len() == 0 {
            assert(seq![line] + rest =~= lines);
        } else {
            assert(seq![line] + rest.push(last) =~= lines.push(last));
        }
    }
}

/// The lines of several inputs are those of the first ones and then those of the last,
/// in one buffer or as a stream.
pub proof fn inputs_follow_each_other(files: Seq<Seq<u8>>, file: Seq<u8>, t: u8)
    ensures
        split(joined_inputs(files.push(file), t), t) == split(joined_inputs(files, t), t) + split(
            file,
            t,
        ),
        split(stream_of(files.push(file), t), t) == split(stream_of(files, t), t) + split(file, t),
        joined_inputs(Seq::empty(), t).len() == 0,
        stream_of(Seq::empty(), t).len() == 0,
{
    let all = files.push(file);
    joining_keeps_lines(all, t);
    joining_keeps_lines(files, t);
    streaming_keeps_lines(all, t);
    streaming_keeps_lines(files, t);
    assert(lines_of_each(all, t).drop_last() =~= lines_of_each(files, t));
    assert(lines_of_each(all, t).last() == split(file, t));
}

/// As many spaces as bring `n` bytes to `width`.
pub open spec fn padding(n: nat, width: nat) -> Seq<u8> {
    Seq::new(
        if n < width {
            (width - n) as nat
        } else {
            0
        },
        |i: int| 0x20u8,
    )
}

/// A group is written as its size, right-aligned in seven columns, a space and its
/// line; and groups stand one behind the other.
pub proof fn counts_are_written_before_lines(groups: Seq<(nat, Seq<u8>)>, n: nat, line: Seq<u8>, t: u8)
    ensures
        counted_line((n, line), t) == padding(numeral(n).len(), 7) + numeral(n) + seq![0x20u8] + line + seq![t],
        written_counts(groups.push((n, line)), t) == written_counts(groups, t) + padding(numeral(n).len(), 7)
            + numeral(n) + seq![0x20u8] + line + seq![t],
        written_counts(Seq::empty(), t).len() == 0,
{
    assert(counted_line((n, line), t) =~= padding(numeral(n).len(), 7) + numeral(n) + seq![0x20u8] + line
        + seq![t]);
    let all = groups.push((n, line));
    assert(all.drop_last() =~= groups);
    assert(written_counts(all, t) =~= written_counts(groups, t) + padding(numeral(n).len(), 7) + numeral(n)
        + seq![0x20u8] + line + seq![t]);
}

/// A highlighted line holds the bytes of the line and its terminator, with `ESC[1;33m`
/// before the range and `ESC[0m` behind it.
pub proof fn highlighting_surrounds_the_key(a: Seq<u8>, key: Seq<u8>, b: Seq<u8>, t: u8)
    requires
        a.len() + key.len() + b.len() <= usize::MAX,
    ensures
        highlighted(a + key + b, (a.len() as usize, (a.len() + key.len()) as usize), t) == a + seq![
            0x1bu8,
            0x5b,
            0x31,
            0x3b,
            0x33,
            0x33,
            0x6d,
        ] + key + seq![0x1bu8, 0x5b, 0x30, 0x6d] + b + seq![t],
{
    let line = a + key + b;
    let (s, e) = (a.len() as int, a.len() + key.len());
    assert(line.take(s) =~= a);
    assert(line.subrange(s, e as int) =~= key);
    assert(line.skip(e as int) =~= b);
}

/// In colored output the first key of each line is highlighted, and the lines stand
/// one behind the other.
pub proof fn first_keys_are_highlighted(lines: Seq<Seq<u8>>, line: Seq<u8>, sorter: Sorter, t: u8)
    ensures
        written_highlighted(lines.push(line), sorter, t) == written_highlighted(lines, sorter, t)
            + highlighted(line, first_range(sorter, line), t),
        written_highlighted(Seq::empty(), sorter, t).len() == 0,
        sorter.keys@.len() > 0 ==> first_range(sorter, line) == (
            key_start(line, sorter.keys@[0], sorter.tab) as usize,
            key_end(line, sorter.keys@[0], sorter.tab) as usize,
        ),
{
    let all = lines.push(line);
    assert(all.drop_last() =~= lines);
}

/// `always` colors, `never` does not, and `auto` does on a terminal unless it is told
/// not to.
pub proof fn color_is_chosen(no_color: bool, terminal: bool)
    ensures
        wants_color(ColorChoice::Always, no_color, terminal),
        !wants_color(ColorChoice::Never, no_color, terminal),
        wants_color(ColorChoice::Auto, false, true),
        !wants_color(ColorChoice::Auto, true, terminal),
        !wants_color(ColorChoice::Auto, no_color, false),
{
}

/// Text is aligned by spaces before it, and never cut off.
pub proof fn alignment_pads_with_spaces(s: Seq<u8>, width: nat)
    ensures
        right_aligned(s, width) == padding(s.len(), width) + s,
{
    assert(right_aligned(s, width) =~= padding(s.len(), width) + s);
}

/// What stands before a quoted line: its number in six columns, indented by two, and a
/// bar.
pub open spec fn quote_margin(n: nat) -> Seq<u8> {
    padding(0, 2) + padding(numeral(n).len(), 6) + numeral(n) + encode_utf8(" | "@)
}

/// A report quotes the line before and the line that is out of order, each behind its
/// number, and carets stand below the bytes of the key, at least one of them.
pub proof fn reports_point_at_keys(color: bool, prev: Seq<u8>, cur: Seq<u8>, n: nat, s: nat, e: nat)
    requires
        n >= 1,
        s <= e,
    ensures
        disorder_report(color, prev, cur, n, s as int, e as int) == encode_utf8(
            "xort: check failed: line "@,
        ) + numeral(n) + encode_utf8(" is not in sorted order\n"@) + (quote_margin((n - 1) as nat)
            + encode_utf8(lossy_text(prev)) + seq![0x0au8]) + (quote_margin(n) + (if color {
            marked(cur, s as int, e as int)
        } else {
            encode_utf8(lossy_text(cur))
        }) + seq![0x0au8]) + (padding(0, quote_margin(n).len() + s) + Seq::new(
            if e > s {
                (e - s) as nat
            } else {
                1
            },
            |i: int| 0x5eu8,
        ) + encode_utf8(" key not in order here\n"@)),
{
    alignment_pads_with_spaces(numeral(n), 6);
    alignment_pads_with_spaces(numeral((n - 1) as nat), 6);
    let (p, q) = (quote_margin((n - 1) as nat), quote_margin(n));
    assert(margin(n) =~= q);
    assert(margin((n - 1) as nat) =~= p);
    let a = encode_utf8("xort: check failed: line "@) + numeral(n) + encode_utf8(
        " is not in sorted order\n"@,
    );
    let b = encode_utf8(lossy_text(prev));
    let shown = if color {
        marked(cur, s as int, e as int)
    } else {
        encode_utf8(lossy_text(cur))
    };
    let count: nat = if e > s {
        (e - s) as nat
    } else {
        1
    };
    let carets: Seq<u8> = Seq::new(count, |i: int| 0x5eu8);
    let end = encode_utf8(" key not in order here\n"@);
    let newline = seq![0x0au8];
    let spaces = padding(0, q.len() + s);
    assert(repeated(0x20, q.len()) + repeated(0x20, s) =~= spaces);
    assert(repeated(0x5e, count) =~= carets);
    let first = a + (p + b + newline);
    let second = first + (q + shown + newline);
    lemma_three_behind(a, p, b, newline);
    lemma_three_behind(first, q, shown, newline);
    lemma_two_behind(second, repeated(0x20, q.len()), repeated(0x20, s));
    lemma_three_behind(second, spaces, carets, end);
}

proof fn lemma_two_behind(x: Seq<u8>, a: Seq<u8>, b: Seq<u8>)
    ensures
        x + a + b == x + (a + b),
{
    assert(x + a + b =~= x + (a + b));
}

proof fn lemma_three_behind(x: Seq<u8>, a: Seq<u8>, b: Seq<u8>, c: Seq<u8>)
    ensures
        x + a + b + c == x + (a + b + c),
{
    assert(x + a + b + c =~= x + (a + b + c));
}

} // verus!
