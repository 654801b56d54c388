//! Checking whether lines are sorted (`-c`).

use crate::config::Config;
use crate::diag::{disorder_report, report_disorder, wants_color, Terminal};
use crate::index::{ix, nat_int};
use crate::inmemory::{by_sorter, same_keys};
use crate::key::{
    deciding_key, key_end, key_start, keys_order, keys_order_is_total, sorter_order_is_total,
    Sorter,
};
use crate::lines::{deduped, distinct, views};
use crate::order::{flipped, in_order, is_total_order, stable_sort};
use crate::stable::stable_sort_exists;
use std::cmp::Ordering;
use vstd::prelude::*;

verus! {

/// The order of lines by the keys alone, as a function.
pub open spec fn by_keys(sorter: Sorter) -> spec_fn(Seq<u8>, Seq<u8>) -> Ordering {
    |a: Seq<u8>, b: Seq<u8>| sorter.key_order(a, b)
}

/// A line may not follow another: its keys come first, or, with `unique`, do not
/// tell the two apart.
pub open spec fn may_not_follow(sorter: Sorter, unique: bool, a: Seq<u8>, b: Seq<u8>) -> bool {
    sorter.key_order(a, b) == Ordering::Greater || unique && sorter.key_order(a, b)
        == Ordering::Equal
}

/// Line `i + 1` may not follow line `i`.
pub open spec fn disorder_at(lines: Seq<Seq<u8>>, sorter: Sorter, unique: bool, i: int) -> bool {
    0 <= i < lines.len() - 1 && may_not_follow(sorter, unique, lines[i], lines[i + 1])
}

/// Line `i + 1` is the first that may not follow the line before it.
pub open spec fn first_disorder(lines: Seq<Seq<u8>>, sorter: Sorter, unique: bool, i: int) -> bool {
    &&& disorder_at(lines, sorter, unique, i)
    &&& forall|j: int| 0 <= j < i ==> !#[trigger] disorder_at(lines, sorter, unique, j)
}

/// The range within `b` of the key that tells it from `a`.
pub open spec fn breaking_range(sorter: Sorter, a: Seq<u8>, b: Seq<u8>) -> (int, int) {
    match deciding_key(sorter.keys@, sorter.tab, a, b) {
        Some(key) => (key_start(b, key, sorter.tab), key_end(b, key, sorter.tab)),
        None => (0, nat_int(b.len())),
    }
}

/// The report about line `i + 1`.
pub open spec fn report_at(lines: Seq<Seq<u8>>, sorter: Sorter, header: bool, color: bool, i: int) -> Seq<u8> {
    let (s, e) = breaking_range(sorter, lines[i], lines[i + 1]);
    disorder_report(
        color,
        lines[i],
        lines[i + 1],
        (i + 2 + (if header {
            1int
        } else {
            0int
        })) as nat,
        s,
        e,
    )
}

/// The exit code of a check and what is printed: 0 and nothing where the lines are
/// sorted, otherwise 1 and a report of the first line that is not.
pub open spec fn is_check_result(lines: Seq<Seq<u8>>, sorter: Sorter, unique: bool, header: bool, color: bool, code: i32, report: Seq<u8>) -> bool {
    ||| code == 0 && report.len() == 0 && forall|i: int|
        !#[trigger] disorder_at(lines, sorter, unique, i)
    ||| code == 1 && exists|i: int| #[trigger]
        first_disorder(lines, sorter, unique, i) && report == report_at(
            lines,
            sorter,
            header,
            color,
            i,
        )
}

/// Checks whether the lines are sorted; with `-u`, whether they are also all
/// distinct. Gives the exit code and what is printed. A header line counts in the
/// line numbers.
pub fn check_sorted(lines: &Vec<&[u8]>, cfg: &Config, sorter: &Sorter, terminal: &Terminal) -> (r: (i32, Vec<u8>))
    requires
        sorter.is_valid(),
        cfg.header ==> lines@.len() < usize::MAX,
    ensures
        is_check_result(
            views(lines@),
            *sorter,
            cfg.unique,
            cfg.header,
            wants_color(cfg.color, terminal.no_color, terminal.stderr),
            r.0,
            r.1@,
        ),
{
    let ghost all = views(lines@);
    let offset: usize = if cfg.header {
        1
    } else {
        0
    };
    let mut i: usize = 1;
    while i < lines.len()
        invariant
            sorter.is_valid(),
            all == views(lines@),
            cfg.header ==> lines@.len() < usize::MAX,
            offset == (if cfg.header {
                1int
            } else {
                0int
            }),
            1 <= i,
            forall|j: int| 0 <= j < i - 1 ==> !#[trigger] disorder_at(all, *sorter, cfg.unique, j),
        decreases lines@.len() - i,
    {
        let prev = lines[i - 1];
        let cur = lines[i];
        let bad: bool = match sorter.check_compare(prev, cur) {
            Ordering::Greater => true,
            Ordering::Equal => cfg.unique,
            Ordering::Less => false,
        };
        assert(all[i - 1] == prev@ && all[ix(i)] == cur@);
        if bad {
            let range = sorter.breaking_key_range(prev, cur);
            let lineno: usize = i + 1 + offset;
            let report = report_disorder(cfg, terminal, prev, cur, lineno, range);
            assert(first_disorder(all, *sorter, cfg.unique, i - 1));
            return (1, report);
        }
        i += 1;
    }
    let none: Vec<u8> = Vec::new();
    (0, none)
}

/// The check accepts exactly the lines that are in order by their keys.
pub proof fn check_accepts_sorted_lines(lines: Seq<Seq<u8>>, sorter: Sorter)
    ensures
        (forall|i: int| !#[trigger] disorder_at(lines, sorter, false, i)) <==> in_order(
            lines,
            by_keys(sorter),
        ),
{
    let c = by_keys(sorter);
    lemma_by_keys_is_total(sorter);
    if forall|i: int| !#[trigger] disorder_at(lines, sorter, false, i) {
        assert forall|i: int, j: int| 0 <= i < j < lines.len() implies c(
            #[trigger] lines[i],
            #[trigger] lines[j],
        ) != Ordering::Greater by {
            lemma_no_disorder_between(lines, sorter, false, i, j);
        }
    }
    if in_order(lines, c) {
        assert forall|i: int| !#[trigger] disorder_at(lines, sorter, false, i) by {
            if 0 <= i < lines.len() - 1 {
                assert(c(lines[i], lines[i + 1]) != Ordering::Greater);
            }
        }
    }
}

/// With `-u` the check accepts exactly the lines that are in order by their keys
/// without two equal keys.
pub proof fn check_accepts_distinct_lines(lines: Seq<Seq<u8>>, sorter: Sorter)
    ensures
        (forall|i: int| !#[trigger] disorder_at(lines, sorter, true, i)) <==> strictly_in_order(
            lines,
            sorter,
        ),
{
    lemma_by_keys_is_total(sorter);
    if forall|i: int| !#[trigger] disorder_at(lines, sorter, true, i) {
        assert forall|i: int, j: int| 0 <= i < j < lines.len() implies sorter.key_order(
            #[trigger] lines[i],
            #[trigger] lines[j],
        ) == Ordering::Less by {
            lemma_no_disorder_between(lines, sorter, true, i, j);
        }
    }
    if strictly_in_order(lines, sorter) {
        assert forall|i: int| !#[trigger] disorder_at(lines, sorter, true, i) by {
            if 0 <= i < lines.len() - 1 {
                assert(sorter.key_order(lines[i], lines[i + 1]) == Ordering::Less);
            }
        }
    }
}

/// Every line comes before all later ones by its keys.
pub open spec fn strictly_in_order(lines: Seq<Seq<u8>>, sorter: Sorter) -> bool {
    forall|i: int, j: int|
        #![trigger lines[i], lines[j]]
        0 <= i < j < lines.len() ==> sorter.key_order(lines[i], lines[j]) == Ordering::Less
}

proof fn lemma_by_keys_is_total(sorter: Sorter)
    ensures
        is_total_order(by_keys(sorter)),
{
    keys_order_is_total(sorter.keys@, sorter.tab);
    let c = |a: Seq<u8>, b: Seq<u8>| keys_order(sorter.keys@, sorter.tab, a, b);
    assert(by_keys(sorter) =~= c);
}

proof fn lemma_no_disorder_between(lines: Seq<Seq<u8>>, sorter: Sorter, unique: bool, i: int, j: int)
    requires
        0 <= i < j < lines.len(),
        forall|k: int| !#[trigger] disorder_at(lines, sorter, unique, k),
    ensures
        !may_not_follow(sorter, unique, lines[i], lines[j]),
    decreases j - i,
{
    lemma_by_keys_is_total(sorter);
    let c = by_keys(sorter);
    assert(!disorder_at(lines, sorter, unique, j - 1));
    if i < j - 1 {
        lemma_no_disorder_between(lines, sorter, unique, i, j - 1);
        let (x, y, z) = (lines[i], lines[j - 1], lines[j]);
        assert(c(x, y) != Ordering::Greater && c(y, z) != Ordering::Greater);
        assert(c(x, z) != Ordering::Greater);
        if unique && c(x, z) == Ordering::Equal {
            assert(c(z, x) == flipped(c(x, z)));
            assert(c(z, x) != Ordering::Greater && c(x, y) != Ordering::Greater);
            assert(c(z, y) != Ordering::Greater);
            assert(c(z, y) == flipped(c(y, z)));
        }
    }
}

/// Sorted output passes the check, and with `-u` it has no two lines with equal
/// keys.
pub proof fn sorted_output_passes_check(lines: Seq<Seq<u8>>, sorter: Sorter, unique: bool)
    requires
        unique ==> sorter.suppress_last_resort,
    ensures
        forall|i: int|
            !#[trigger] disorder_at(
                distinct(lines, by_sorter(sorter), same_keys(sorter), unique),
                sorter,
                unique,
                i,
            ),
{
    sorter_order_is_total(sorter);
    lemma_by_keys_is_total(sorter);
    assert(by_sorter(sorter) =~= (|a: Seq<u8>, b: Seq<u8>| sorter.order(a, b)));
    stable_sort_exists(lines, by_sorter(sorter));
    let sorted = stable_sort(lines, by_sorter(sorter));
    let c = by_keys(sorter);
    assert(in_order(sorted, c)) by {
        assert forall|i: int, j: int| 0 <= i < j < sorted.len() implies c(
            #[trigger] sorted[i],
            #[trigger] sorted[j],
        ) != Ordering::Greater by {
            assert((by_sorter(sorter))(sorted[i], sorted[j]) != Ordering::Greater);
        }
    }
    if unique {
        lemma_deduped_is_strict(sorted, sorter);
        check_accepts_distinct_lines(deduped(sorted, same_keys(sorter)), sorter);
    } else {
        check_accepts_sorted_lines(sorted, sorter);
    }
}

/// How the keys order three lines.
proof fn lemma_chain(sorter: Sorter, a: Seq<u8>, b: Seq<u8>, d: Seq<u8>)
    ensures
        sorter.key_order(a, a) == Ordering::Equal,
        sorter.key_order(a, b) != Ordering::Greater && sorter.key_order(b, d) != Ordering::Greater
            ==> sorter.key_order(a, d) != Ordering::Greater,
        sorter.key_order(a, b) == Ordering::Less && sorter.key_order(b, d) != Ordering::Greater
            ==> sorter.key_order(a, d) == Ordering::Less,
{
    lemma_by_keys_is_total(sorter);
    let c = by_keys(sorter);
    assert(c(a, a) == flipped(c(a, a)));
    if c(a, b) != Ordering::Greater && c(b, d) != Ordering::Greater {
        assert(c(a, d) != Ordering::Greater);
        assert(c(d, a) == flipped(c(a, d)));
        assert(c(b, a) == flipped(c(a, b)));
        if c(a, d) == Ordering::Equal {
            assert(c(b, d) != Ordering::Greater && c(d, a) != Ordering::Greater);
            assert(c(b, a) != Ordering::Greater);
        }
    }
}

/// Lines in order without repeated keys are strictly in order, and none of them is
/// behind the last line.
proof fn lemma_deduped_is_strict(lines: Seq<Seq<u8>>, sorter: Sorter)
    requires
        in_order(lines, by_keys(sorter)),
    ensures
        strictly_in_order(deduped(lines, same_keys(sorter)), sorter),
        lines.len() > 0 ==> {
            let kept = deduped(lines, same_keys(sorter));
            kept.len() > 0 && sorter.key_order(kept.last(), lines.last()) == Ordering::Equal
        },
    decreases lines.len(),
{
    let c = by_keys(sorter);
    if lines.len() > 0 {
        let init = lines.drop_last();
        let last = lines.last();
        assert(in_order(init, c)) by {
            assert forall|i: int, j: int| 0 <= i < j < init.len() implies c(
                #[trigger] init[i],
                #[trigger] init[j],
            ) != Ordering::Greater by {
                assert(c(lines[i], lines[j]) != Ordering::Greater);
            }
        }
        lemma_deduped_is_strict(init, sorter);
        let before = deduped(init, same_keys(sorter));
        let kept = deduped(lines, same_keys(sorter));
        lemma_chain(sorter, last, last, last);
        if init.len() > 0 {
            assert(c(lines[lines.len() - 2], lines[lines.len() - 1]) != Ordering::Greater);
            let x = before.last();
            lemma_chain(sorter, x, init.last(), last);
            if sorter.key_order(x, last) != Ordering::Equal {
                assert(kept =~= before.push(last));
                lemma_strict_push(before, last, sorter);
            }
        } else {
            assert(before.len() == 0);
            assert(kept =~= seq![last]);
        }
    }
}

proof fn lemma_strict_push(lines: Seq<Seq<u8>>, last: Seq<u8>, sorter: Sorter)
    requires
        strictly_in_order(lines, sorter),
        lines.len() > 0,
        sorter.key_order(lines.last(), last) == Ordering::Less,
    ensures
        strictly_in_order(lines.push(last), sorter),
{
    let all = lines.push(last);
    assert forall|i: int, j: int| 0 <= i < j < all.len() implies sorter.key_order(
        #[trigger] all[i],
        #[trigger] all[j],
    ) == Ordering::Less by {
        if j < lines.len() {
            assert(sorter.key_order(lines[i], lines[j]) == Ordering::Less);
        } else if i < lines.len() - 1 {
            assert(sorter.key_order(lines[i], lines[lines.len() - 1]) == Ordering::Less);
            lemma_chain(sorter, lines[i], lines.last(), last);
        }
    }
}

} // verus!
