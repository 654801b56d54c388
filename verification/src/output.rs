//! The bytes that are written: lines, counted lines, and the result of a check.

use crate::config::Config;
use crate::diag::{highlighted, push_bytes, write_highlighted};
use crate::index::{ix, word_nat};
use crate::inmemory::{by_sorter, same_keys};
use crate::key::{key_end, key_start, sorter_order_is_total, Sorter};
use crate::lines::{deduped, first_n, views, LineItems};
use crate::numeral::{align_right, digits_of, numeral, right_aligned};
use crate::order::{lemma_pullback_is_total, stable_sort};
use crate::parallel::{par_sort_by, ItemOrder};
use crate::stable::{lemma_same_ties_permutes, lemma_stable_sort_map, stable_sort_exists};
use crate::text::SPACE;
use std::cmp::Ordering;
use vstd::prelude::*;

verus! {

/// A line and the byte that ends it.
pub open spec fn ended(line: Seq<u8>, t: u8) -> Seq<u8> {
    line.push(t)
}

/// Lines one behind the other, each with the byte that ends it.
pub open spec fn written(lines: Seq<Seq<u8>>, t: u8) -> Seq<u8>
    decreases lines.len(),
{
    if lines.len() == 0 {
        Seq::empty()
    } else {
        written(lines.drop_last(), t) + ended(lines.last(), t)
    }
}

/// The header line, if there is one.
pub open spec fn header_bytes(header: Option<&[u8]>, t: u8) -> Seq<u8> {
    match header {
        Some(h) => ended(h@, t),
        None => Seq::empty(),
    }
}

/// The range of the first key of a line.
pub open spec fn first_range(sorter: Sorter, line: Seq<u8>) -> (usize, usize) {
    if sorter.keys@.len() > 0 {
        (
            key_start(line, sorter.keys@[0], sorter.tab) as usize,
            key_end(line, sorter.keys@[0], sorter.tab) as usize,
        )
    } else {
        (0, line.len() as usize)
    }
}

/// Lines one behind the other, each with its first key highlighted.
pub open spec fn written_highlighted(lines: Seq<Seq<u8>>, sorter: Sorter, t: u8) -> Seq<u8>
    decreases lines.len(),
{
    if lines.len() == 0 {
        Seq::empty()
    } else {
        written_highlighted(lines.drop_last(), sorter, t) + highlighted(
            lines.last(),
            first_range(sorter, lines.last()),
            t,
        )
    }
}

fn push_ended(out: &mut Vec<u8>, line: &[u8], terminator: u8)
    ensures
        final(out)@ == old(out)@ + ended(line@, terminator),
{
    let ghost before = out@;
    push_bytes(out, line);
    out.push(terminator);
    assert(out@ =~= before + ended(line@, terminator));
}

/// The bytes of the output: the header, if there is one, and the lines. With
/// `highlight` the first key of each line is highlighted.
pub fn write_lines(lines: &Vec<&[u8]>, header: Option<&[u8]>, terminator: u8, highlight: Option<&Sorter>) -> (out: Vec<u8>)
    requires
        highlight matches Some(sorter) ==> sorter.is_valid(),
    ensures
        out@ == header_bytes(header, terminator) + (match highlight {
            Some(sorter) => written_highlighted(views(lines@), *sorter, terminator),
            None => written(views(lines@), terminator),
        }),
{
    let mut out: Vec<u8> = Vec::new();
    if let Some(h) = header {
        push_ended(&mut out, h, terminator);
    }
    let ghost head = out@;
    assert(head =~= header_bytes(header, terminator));
    let ghost all = views(lines@);
    let mut i: usize = 0;
    proof {
        assert(all.take(0) =~= Seq::<Seq<u8>>::empty());
        assert(head + Seq::<u8>::empty() =~= head);
    }
    while i < lines.len()
        invariant
            i <= lines@.len(),
            all == views(lines@),
            highlight matches Some(sorter) ==> sorter.is_valid(),
            out@ == head + (match highlight {
                Some(sorter) => written_highlighted(all.take(i as int), *sorter, terminator),
                None => written(all.take(i as int), terminator),
            }),
        decreases lines@.len() - i,
    {
        let line = lines[i];
        proof {
            assert(all.take(i + 1).drop_last() =~= all.take(i as int));
            assert(all.take(i + 1).last() == line@);
        }
        match highlight {
            Some(sorter) => {
                let range = sorter.first_key_range(line);
                write_highlighted(&mut out, line, range, terminator);
                assert(out@ =~= head + written_highlighted(
                    all.take(i + 1),
                    *sorter,
                    terminator,
                ));
            },
            None => {
                push_ended(&mut out, line, terminator);
                assert(out@ =~= head + written(all.take(i + 1), terminator));
            },
        }
        i += 1;
    }
    assert(all.take(i as int) =~= all);
    out
}

/// Runs of lines that are the same: how many there are in each, and the first one.
pub open spec fn counted<T>(s: Seq<T>, same: spec_fn(T, T) -> bool) -> Seq<(nat, T)>
    decreases s.len(),
{
    if s.len() == 0 {
        Seq::empty()
    } else {
        let groups = counted(s.drop_last(), same);
        if groups.len() > 0 && same(groups.last().1, s.last()) {
            groups.update(groups.len() - 1, (groups.last().0 + 1, groups.last().1))
        } else {
            groups.push((1, s.last()))
        }
    }
}

/// The sizes of groups added up.
pub open spec fn total_count<T>(groups: Seq<(nat, T)>) -> nat
    decreases groups.len(),
{
    if groups.len() == 0 {
        0
    } else {
        total_count(groups.drop_last()) + groups.last().0
    }
}

/// Counting groups loses no line and keeps the lines that `-u` keeps: the sizes add
/// up to the number of lines, and the lines of the groups are the distinct ones.
pub proof fn counting_keeps_lines<T>(s: Seq<T>, same: spec_fn(T, T) -> bool)
    ensures
        total_count(counted(s, same)) == s.len(),
        counted(s, same).map_values(|g: (nat, T)| g.1) == deduped(s, same),
    decreases s.len(),
{
    let f = |g: (nat, T)| g.1;
    if s.len() == 0 {
        assert(counted(s, same).map_values(f) =~= deduped(s, same));
    } else {
        let t = s.drop_last();
        counting_keeps_lines(t, same);
        let groups = counted(t, same);
        let all = counted(s, same);
        let kept = deduped(t, same);
        if groups.len() > 0 {
            assert(kept.last() == groups.map_values(f)[groups.len() - 1]);
        }
        assert(kept.len() == groups.len());
        if groups.len() > 0 && same(groups.last().1, s.last()) {
            assert(all.drop_last() =~= groups.drop_last());
            assert(all.map_values(f) =~= groups.map_values(f));
        } else {
            assert(all.drop_last() =~= groups);
            assert(all.map_values(f) =~= groups.map_values(f).push(s.last()));
        }
    }
}

/// Lines compared by a comparison plan.
pub struct PlannedLines<'s> {
    /// The plan.
    pub sorter: &'s Sorter,
}

impl<'a, 's> ItemOrder<&'a [u8]> for PlannedLines<'s> {
    open spec fn admits(&self, item: &'a [u8]) -> bool {
        self.sorter.is_valid()
    }

    open spec fn item_order(&self) -> spec_fn(&'a [u8], &'a [u8]) -> Ordering {
        |a: &'a [u8], b: &'a [u8]| self.sorter.order(a@, b@)
    }

    proof fn item_order_is_total(&self) {
        sorter_order_is_total(*self.sorter);
        lemma_pullback_is_total(
            self.item_order(),
            |a: Seq<u8>, b: Seq<u8>| self.sorter.order(a, b),
            |a: &'a [u8]| a@,
        );
    }

    fn compare_items(&self, a: &&'a [u8], b: &&'a [u8]) -> (o: Ordering) {
        self.sorter.compare(a, b)
    }
}

impl<'a, 's> LineItems<&'a [u8]> for PlannedLines<'s> {
    type Line = Seq<u8>;

    open spec fn line(&self, item: &'a [u8]) -> Seq<u8> {
        item@
    }

    open spec fn line_order(&self) -> spec_fn(Seq<u8>, Seq<u8>) -> Ordering {
        by_sorter(*self.sorter)
    }

    open spec fn same_line(&self) -> spec_fn(Seq<u8>, Seq<u8>) -> bool {
        same_keys(*self.sorter)
    }

    open spec fn ties_are_identical(&self) -> bool {
        !self.sorter.suppress_last_resort
    }

    proof fn items_follow_lines(&self) {
        sorter_order_is_total(*self.sorter);
        assert(by_sorter(*self.sorter) =~= (|a: Seq<u8>, b: Seq<u8>| self.sorter.order(a, b)));
    }

    fn same_items(&self, a: &&'a [u8], b: &&'a [u8]) -> (r: bool) {
        self.sorter.key_equal(a, b)
    }
}

/// The groups of an execution as a specification sees them.
pub open spec fn group_views(groups: Seq<(u64, &[u8])>) -> Seq<(nat, Seq<u8>)> {
    groups.map_values(|g: (u64, &[u8])| group_view(g))
}

/// A group as a specification sees it.
pub open spec fn group_view(group: (u64, &[u8])) -> (nat, Seq<u8>) {
    (word_nat(group.0), group.1@)
}

/// Counts lines, which are in order, that the keys do not tell apart. Each group is
/// represented by its first line.
pub fn count_groups<'a>(lines: &Vec<&'a [u8]>, sorter: &Sorter) -> (out: Vec<(u64, &'a [u8])>)
    requires
        sorter.is_valid(),
    ensures
        group_views(out@) == counted(views(lines@), same_keys(*sorter)),
{
    let ghost all = views(lines@);
    let mut out: Vec<(u64, &'a [u8])> = Vec::new();
    let mut i: usize = 0;
    proof {
        assert(all.take(0) =~= Seq::<Seq<u8>>::empty());
        assert(group_views(out@) =~= Seq::<(nat, Seq<u8>)>::empty());
    }
    while i < lines.len()
        invariant
            i <= lines@.len(),
            sorter.is_valid(),
            all == views(lines@),
            group_views(out@) == counted(all.take(ix(i)), same_keys(*sorter)),
            forall|k: int| 0 <= k < out@.len() ==> (#[trigger] out@[k]).0 <= i,
        decreases lines@.len() - i,
    {
        let line: &'a [u8] = lines[i];
        let ghost before = out@;
        proof {
            assert(all.take(i + 1).drop_last() =~= all.take(ix(i)));
            assert(all.take(i + 1).last() == line@);
        }
        let n: usize = out.len();
        if n > 0 {
            assert(group_views(out@).last() == group_view(out@[n - 1]));
        }
        if n > 0 && sorter.key_equal(out[n - 1].1, line) {
            assert(out@[n - 1].0 <= i);
            let (count, first) = out[n - 1];
            out[n - 1] = (count + 1, first);
            assert(group_views(out@) =~= group_views(before).update(
                n - 1,
                (word_nat(count) + 1, first@),
            ));
        } else {
            out.push((1, line));
            assert(group_views(out@) =~= group_views(before).push((1nat, line@)));
        }
        i += 1;
    }
    assert(all.take(ix(i)) =~= all);
    out
}

/// A sequence has at most as many groups as elements.
pub proof fn lemma_fewer_groups<T>(s: Seq<T>, same: spec_fn(T, T) -> bool)
    ensures
        counted(s, same).len() <= s.len(),
    decreases s.len(),
{
    if s.len() > 0 {
        lemma_fewer_groups(s.drop_last(), same);
    }
}

/// Counts lines, which are in order, and keeps the first `top` groups. Gives the
/// groups and how many lines grouping removed.
pub fn top_groups<'a>(lines: &Vec<&'a [u8]>, sorter: &Sorter, top: Option<usize>) -> (r: (
    Vec<(u64, &'a [u8])>,
    usize,
))
    requires
        sorter.is_valid(),
    ensures
        group_views(r.0@) == first_n(counted(views(lines@), same_keys(*sorter)), top),
        r.1 == lines@.len() - counted(views(lines@), same_keys(*sorter)).len(),
{
    let mut out: Vec<(u64, &'a [u8])> = count_groups(lines, sorter);
    let ghost groups = out@;
    proof {
        lemma_fewer_groups(views(lines@), same_keys(*sorter));
        assert(group_views(groups).len() == groups.len());
    }
    let removed: usize = lines.len() - out.len();
    match top {
        Some(n) => {
            out.truncate(n);
            proof {
                if n < groups.len() {
                    assert(group_views(out@) =~= group_views(groups).take(ix(n)));
                }
            }
        },
        None => {},
    }
    (out, removed)
}

/// Sorts the lines and counts those that the keys do not tell apart (`--count`).
/// Each group is represented by its first line; `--top` keeps the first groups. Gives
/// the groups and how many lines grouping removed.
pub fn grouped_counts<'a>(lines: Vec<&'a [u8]>, sorter: &Sorter, cfg: &Config) -> (r: (
    Vec<(u64, &'a [u8])>,
    usize,
))
    requires
        sorter.is_valid(),
    ensures
        ({
            let groups = counted(
                stable_sort(views(lines@), by_sorter(*sorter)),
                same_keys(*sorter),
            );
            &&& group_views(r.0@) == first_n(groups, cfg.top)
            &&& r.1 == lines@.len() - groups.len()
        }),
{
    let mut sorted = lines;
    let by = PlannedLines { sorter };
    let ghost before = views(sorted@);
    sort_planned(&mut sorted, &by);
    proof {
        by.items_follow_lines();
        stable_sort_exists(before, by_sorter(*sorter));
        lemma_same_ties_permutes(before, views(sorted@), by_sorter(*sorter));
    }
    top_groups(&sorted, sorter, cfg.top)
}

fn sort_planned<'a, 's>(lines: &mut Vec<&'a [u8]>, by: &PlannedLines<'s>)
    requires
        by.sorter.is_valid(),
    ensures
        views(final(lines)@) == stable_sort(views(old(lines)@), by_sorter(*by.sorter)),
{
    let ghost before = lines@;
    par_sort_by(lines, by);
    proof {
        by.item_order_is_total();
        by.items_follow_lines();
        let f = |l: &'a [u8]| l@;
        lemma_stable_sort_map(before, lines@, f, by.item_order(), by_sorter(*by.sorter));
    }
}

/// A group as it is written: its size, right-aligned in seven columns, a space and
/// the line.
pub open spec fn counted_line(group: (nat, Seq<u8>), t: u8) -> Seq<u8> {
    right_aligned(numeral(group.0), 7) + seq![SPACE] + ended(group.1, t)
}

/// Groups one behind the other.
pub open spec fn written_counts(groups: Seq<(nat, Seq<u8>)>, t: u8) -> Seq<u8>
    decreases groups.len(),
{
    if groups.len() == 0 {
        Seq::empty()
    } else {
        written_counts(groups.drop_last(), t) + counted_line(groups.last(), t)
    }
}

/// The bytes of counted output: the header, if there is one, and the groups.
pub fn write_counts(groups: &Vec<(u64, &[u8])>, header: Option<&[u8]>, terminator: u8) -> (out: Vec<u8>)
    ensures
        out@ == header_bytes(header, terminator) + written_counts(
            group_views(groups@),
            terminator,
        ),
{
    let mut out: Vec<u8> = Vec::new();
    if let Some(h) = header {
        push_ended(&mut out, h, terminator);
    }
    let ghost head = out@;
    assert(head =~= header_bytes(header, terminator));
    let ghost all = group_views(groups@);
    let mut i: usize = 0;
    proof {
        assert(all.take(0) =~= Seq::<(nat, Seq<u8>)>::empty());
        assert(head + Seq::<u8>::empty() =~= head);
    }
    while i < groups.len()
        invariant
            i <= groups@.len(),
            all == group_views(groups@),
            out@ == head + written_counts(all.take(i as int), terminator),
        decreases groups@.len() - i,
    {
        let (count, line) = groups[i];
        proof {
            assert(all.take(i + 1).drop_last() =~= all.take(i as int));
            assert(all.take(i + 1).last() == (count as nat, line@));
        }
        let mut number: Vec<u8> = align_right(digits_of(count), 7);
        out.append(&mut number);
        out.push(SPACE);
        push_ended(&mut out, line, terminator);
        assert(out@ =~= head + written_counts(all.take(i + 1), terminator));
        i += 1;
    }
    assert(all.take(i as int) =~= all);
    out
}

} // verus!
