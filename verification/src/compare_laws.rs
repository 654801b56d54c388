//! How the disciplines order text: folded, by month, by version; and how keys and
//! whole lines are put together from them.

use crate::check::breaking_range;
use crate::compare::{
    fold_order, folded, key_order, key_part, kind_order, line_order, month_names, month_order,
    month_value, starts_with_month, version_order, version_pieces, KeyOpts,
};
use crate::general::{general_order, human_order};
use crate::index::{ints, nat_int};
use crate::key::{
    deciding_key, key_bytes, key_end, key_start, keys_order, one_key_order, KeyDef, Kind, Sorter,
};
use crate::lex::{bytes_order, lex_order};
use crate::number_laws::digits_count_by_place;
use crate::numeric::numeric_order;
use crate::order_laws::{goes_by_first_difference, lemma_image_goes_by_first_difference, opposite};
use crate::plain::{
    are_figures, are_spaces, capital, figures_value, is_figure, is_space, starts_without_figure,
    starts_without_space,
};
use crate::text::{blank, digit, lemma_run_in_front};
use std::cmp::Ordering;
use vstd::prelude::*;

verus! {

/// A byte as `-f` compares it.
pub open spec fn capital_value() -> spec_fn(u8) -> int {
    |b: u8| capital(b) + 0
}

/// Under `-f` the first byte that differs, letters taken as upper case, decides.
pub proof fn folded_text_goes_by_first_difference(a: Seq<u8>, b: Seq<u8>)
    ensures
        goes_by_first_difference(fold_order(a, b), a, b, capital_value()),
{
    let (x, y) = (ints(folded(a)), ints(folded(b)));
    lemma_image_goes_by_first_difference(a, b, capital_value(), x, y);
}

/// Letter `k` of the name of month `m`.
pub open spec fn month_letter(m: int, k: int) -> u8 {
    "JANFEBMARAPRMAYJUNJULAUGSEPOCTNOVDEC"@[3 * (m - 1) + k] as u8
}

/// Text starts with the name of month `m`, in upper or lower case.
pub open spec fn names_month(t: Seq<u8>, m: int) -> bool {
    &&& 1 <= m <= 12
    &&& t.len() >= 3
    &&& capital(t[0]) == month_letter(m, 0)
    &&& capital(t[1]) == month_letter(m, 1)
    &&& capital(t[2]) == month_letter(m, 2)
}

proof fn lemma_month_letters(m: int, k: int)
    requires
        1 <= m <= 12,
        0 <= k < 3,
    ensures
        month_names()[m - 1].len() == 3,
        month_names()[m - 1][k] == month_letter(m, k),
{
    reveal_strlit("JANFEBMARAPRMAYJUNJULAUGSEPOCTNOVDEC");
    assert(m == 1 || m == 2 || m == 3 || m == 4 || m == 5 || m == 6 || m == 7 || m == 8 || m == 9
        || m == 10 || m == 11 || m == 12);
    assert(k == 0 || k == 1 || k == 2);
}

proof fn lemma_names_month(t: Seq<u8>, m: int)
    ensures
        names_month(t, m) <==> 1 <= m <= 12 && t.len() >= 3 && folded(t.take(3))
            == month_names()[m - 1],
{
    if 1 <= m <= 12 && t.len() >= 3 {
        lemma_month_letters(m, 0);
        lemma_month_letters(m, 1);
        lemma_month_letters(m, 2);
        let f = folded(t.take(3));
        assert(f.len() == 3 && f[0] == capital(t[0]) && f[1] == capital(t[1]) && f[2] == capital(
            t[2],
        ));
        if names_month(t, m) {
            assert(f =~= month_names()[m - 1]);
        }
    }
}

/// Different months have different names.
proof fn lemma_months_differ(t: Seq<u8>, m: int, n: int)
    requires
        names_month(t, m),
        names_month(t, n),
    ensures
        m == n,
{
    reveal_strlit("JANFEBMARAPRMAYJUNJULAUGSEPOCTNOVDEC");
    assert(m == 1 || m == 2 || m == 3 || m == 4 || m == 5 || m == 6 || m == 7 || m == 8 || m == 9
        || m == 10 || m == 11 || m == 12);
    assert(n == 1 || n == 2 || n == 3 || n == 4 || n == 5 || n == 6 || n == 7 || n == 8 || n == 9
        || n == 10 || n == 11 || n == 12);
}

/// Text that starts, behind blanks, with the name of a month counts as that month,
/// from 1 to 12; any other text counts as 0, before all months.
pub proof fn months_count_from_one(blanks: Seq<u8>, t: Seq<u8>)
    requires
        are_spaces(blanks),
        starts_without_space(t),
    ensures
        forall|m: int| #[trigger] names_month(t, m) ==> month_value(blanks + t) == m,
        (forall|m: int| !#[trigger] names_month(t, m)) ==> month_value(blanks + t) == 0,
{
    let s = blanks + t;
    assert forall|k: int| 0 <= k < blanks.len() implies (blank())(#[trigger] blanks[k]) by {
        assert(is_space(blanks[k]));
    }
    lemma_run_in_front(blanks, t, blank());
    assert forall|m: int| #[trigger] starts_with_month(s, m) <==> names_month(t, m) by {
        lemma_names_month(t, m);
    }
    assert forall|m: int| #[trigger] names_month(t, m) implies month_value(s) == m by {
        assert(starts_with_month(s, m));
        let n = choose|n: int| starts_with_month(s, n);
        assert(names_month(t, n));
        lemma_months_differ(t, m, n);
    }
    if forall|m: int| !#[trigger] names_month(t, m) {
        assert forall|m: int| !#[trigger] starts_with_month(s, m) by {
            assert(!names_month(t, m));
        }
    }
}

/// `-M` goes by the number of the month.
pub proof fn months_order_by_number(a: Seq<u8>, b: Seq<u8>)
    ensures
        month_order(a, b) == Ordering::Less <==> month_value(a) < month_value(b),
        month_order(a, b) == Ordering::Equal <==> month_value(a) == month_value(b),
{
}

proof fn lemma_first_digits(d: Seq<u8>, r: Seq<u8>)
    requires
        are_figures(d),
        d.len() > 0,
        starts_without_figure(r),
    ensures
        version_pieces(d + r) == seq![0x30int, nat_int(figures_value(d))] + version_pieces(r),
{
    assert forall|k: int| 0 <= k < d.len() implies (digit())(#[trigger] d[k]) by {
        assert(is_figure(d[k]));
    }
    lemma_run_in_front(d, r, digit());
    assert((d + r)[0] == d[0]);
    digits_count_by_place(d);
}

proof fn lemma_first_byte(x: u8, r: Seq<u8>)
    requires
        !is_figure(x),
    ensures
        version_pieces(seq![x] + r) == seq![x + 0, 0int] + version_pieces(r),
{
    let s = seq![x] + r;
    assert(s[0] == x);
    assert(s.drop_first() =~= r);
}

proof fn lemma_first_pair(x: int, m: int, r: Seq<int>, y: int, n: int, q: Seq<int>)
    ensures
        ({
            let o = lex_order(seq![x, m] + r, seq![y, n] + q);
            &&& x < y ==> o == Ordering::Less
            &&& x > y ==> o == Ordering::Greater
            &&& x == y && m < n ==> o == Ordering::Less
            &&& x == y && m > n ==> o == Ordering::Greater
            &&& x == y && m == n ==> o == lex_order(r, q)
        }),
{
    let a = seq![x, m] + r;
    let b = seq![y, n] + q;
    assert(a[0] == x && b[0] == y);
    assert(a.drop_first()[0] == m && b.drop_first()[0] == n);
    assert(a.drop_first().drop_first() =~= r);
    assert(b.drop_first().drop_first() =~= q);
    reveal_with_fuel(lex_order, 3);
}

/// Under `-V` numbers inside text go by their values, whatever zeros they start with,
/// and where they are equal the text behind them decides.
pub proof fn versions_go_by_numbers(d: Seq<u8>, r: Seq<u8>, e: Seq<u8>, q: Seq<u8>)
    requires
        are_figures(d),
        d.len() > 0,
        starts_without_figure(r),
        are_figures(e),
        e.len() > 0,
        starts_without_figure(q),
    ensures
        ({
            let o = version_order(d + r, e + q);
            &&& figures_value(d) < figures_value(e) ==> o == Ordering::Less
            &&& figures_value(d) > figures_value(e) ==> o == Ordering::Greater
            &&& figures_value(d) == figures_value(e) ==> o == version_order(r, q)
        }),
{
    lemma_first_digits(d, r);
    lemma_first_digits(e, q);
    lemma_first_pair(
        0x30,
        nat_int(figures_value(d)),
        version_pieces(r),
        0x30,
        nat_int(figures_value(e)),
        version_pieces(q),
    );
}

/// Under `-V` other bytes go by their codes, and equal ones do not matter.
pub proof fn versions_go_by_bytes(x: u8, r: Seq<u8>, y: u8, q: Seq<u8>)
    requires
        !is_figure(x),
        !is_figure(y),
    ensures
        ({
            let o = version_order(seq![x] + r, seq![y] + q);
            &&& x < y ==> o == Ordering::Less
            &&& x > y ==> o == Ordering::Greater
            &&& x == y ==> o == version_order(r, q)
        }),
{
    lemma_first_byte(x, r);
    lemma_first_byte(y, q);
    lemma_first_pair(x + 0, 0, version_pieces(r), y + 0, 0, version_pieces(q));
}

/// Under `-V` a number stands among other bytes where digits do, and the end of the
/// text before everything.
pub proof fn versions_go_by_digits_and_length(d: Seq<u8>, r: Seq<u8>, y: u8, q: Seq<u8>)
    requires
        are_figures(d),
        d.len() > 0,
        starts_without_figure(r),
        !is_figure(y),
    ensures
        y < 0x30 ==> version_order(d + r, seq![y] + q) == Ordering::Greater && version_order(
            seq![y] + q,
            d + r,
        ) == Ordering::Less,
        y > 0x39 ==> version_order(d + r, seq![y] + q) == Ordering::Less && version_order(
            seq![y] + q,
            d + r,
        ) == Ordering::Greater,
        version_order(Seq::empty(), d + r) == Ordering::Less,
        version_order(Seq::empty(), seq![y] + q) == Ordering::Less,
        version_order(d + r, Seq::empty()) == Ordering::Greater,
        version_order(seq![y] + q, Seq::empty()) == Ordering::Greater,
        version_order(Seq::empty(), Seq::empty()) == Ordering::Equal,
{
    lemma_first_digits(d, r);
    lemma_first_byte(y, q);
    let n = nat_int(figures_value(d));
    lemma_first_pair(0x30, n, version_pieces(r), y + 0, 0, version_pieces(q));
    lemma_first_pair(y + 0, 0, version_pieces(q), 0x30, n, version_pieces(r));
}

/// Each discipline has its own order, and `-f` matters to raw bytes only.
pub proof fn kinds_have_their_orders(fold: bool, a: Seq<u8>, b: Seq<u8>)
    ensures
        kind_order(Kind::Numeric, fold, a, b) == numeric_order(a, b),
        kind_order(Kind::General, fold, a, b) == general_order(a, b),
        kind_order(Kind::Human, fold, a, b) == human_order(a, b),
        kind_order(Kind::Version, fold, a, b) == version_order(a, b),
        kind_order(Kind::Month, fold, a, b) == month_order(a, b),
        kind_order(Kind::Bytes, false, a, b) == bytes_order(a, b),
        kind_order(Kind::Bytes, true, a, b) == fold_order(a, b),
{
}

/// With `-b` the blanks at the start of a line do not count; without it the whole line
/// does.
pub proof fn blanks_are_skipped(blanks: Seq<u8>, t: Seq<u8>, opts: KeyOpts)
    requires
        are_spaces(blanks),
        starts_without_space(t),
    ensures
        key_part(blanks + t, opts) == (if opts.ignore_blanks {
            t
        } else {
            blanks + t
        }),
{
    assert forall|k: int| 0 <= k < blanks.len() implies (blank())(#[trigger] blanks[k]) by {
        assert(is_space(blanks[k]));
    }
    lemma_run_in_front(blanks, t, blank());
}

/// Whole lines are ordered by their keys, and unless `stable` ties by all their bytes;
/// `reverse` turns all of it round.
pub proof fn lines_go_by_key_and_bytes(a: Seq<u8>, b: Seq<u8>, opts: KeyOpts, stable: bool)
    ensures
        ({
            let (x, y) = (key_part(a, opts), key_part(b, opts));
            let key = if opts.numeric {
                numeric_order(x, y)
            } else if opts.fold {
                fold_order(x, y)
            } else {
                bytes_order(x, y)
            };
            let o = line_order(a, b, opts, false, stable);
            &&& key != Ordering::Equal ==> o == key
            &&& key == Ordering::Equal && stable ==> o == Ordering::Equal
            &&& key == Ordering::Equal && !stable ==> o == bytes_order(a, b)
            &&& line_order(a, b, opts, true, stable) == opposite(o)
        }),
{
}

/// One key orders lines as its discipline orders what the key selects, and `reverse`
/// turns that round.
pub proof fn one_key_orders(key: KeyDef, tab: Option<u8>, a: Seq<u8>, b: Seq<u8>)
    ensures
        ({
            let o = kind_order(key.kind, key.fold, key_bytes(a, key, tab), key_bytes(b, key, tab));
            one_key_order(key, tab, a, b) == (if key.reverse {
                opposite(o)
            } else {
                o
            })
        }),
{
}

/// The first key that tells lines apart decides, whatever the later ones say, and only
/// lines that no key tells apart tie.
pub proof fn first_differing_key_decides(keys: Seq<KeyDef>, tab: Option<u8>, a: Seq<u8>, b: Seq<u8>, i: int)
    requires
        0 <= i <= keys.len(),
        forall|j: int|
            0 <= j < i ==> one_key_order(#[trigger] keys[j], tab, a, b) == Ordering::Equal,
        i < keys.len() ==> one_key_order(keys[i], tab, a, b) != Ordering::Equal,
    ensures
        keys_order(keys, tab, a, b) == (if i < keys.len() {
            one_key_order(keys[i], tab, a, b)
        } else {
            Ordering::Equal
        }),
    decreases i,
{
    if i > 0 {
        let rest = keys.drop_first();
        assert(one_key_order(keys[0], tab, a, b) == Ordering::Equal);
        assert forall|j: int| 0 <= j < i - 1 implies one_key_order(#[trigger] rest[j], tab, a, b)
            == Ordering::Equal by {
            assert(rest[j] == keys[j + 1]);
        }
        first_differing_key_decides(rest, tab, a, b, i - 1);
    }
}

/// Lines that the keys tell apart are ordered by these. Ties are left alone where the
/// last resort is suppressed; otherwise all the bytes decide, in descending order
/// under a global `-r`.
pub proof fn keys_come_before_bytes(sorter: Sorter, a: Seq<u8>, b: Seq<u8>)
    ensures
        ({
            let o = keys_order(sorter.keys@, sorter.tab, a, b);
            &&& sorter.key_order(a, b) == o
            &&& o != Ordering::Equal ==> sorter.order(a, b) == o
            &&& o == Ordering::Equal && sorter.suppress_last_resort ==> sorter.order(a, b)
                == Ordering::Equal
            &&& o == Ordering::Equal && !sorter.suppress_last_resort ==> sorter.order(a, b) == (
            if sorter.global_reverse {
                opposite(bytes_order(a, b))
            } else {
                bytes_order(a, b)
            })
        }),
{
}

/// The key that a report points at is the first that tells the two lines apart; where
/// there is none it is the whole line.
pub proof fn reports_point_at_the_first_difference(sorter: Sorter, a: Seq<u8>, b: Seq<u8>, i: int)
    requires
        0 <= i <= sorter.keys@.len(),
        forall|j: int|
            0 <= j < i ==> one_key_order(#[trigger] sorter.keys@[j], sorter.tab, a, b)
                == Ordering::Equal,
        i < sorter.keys@.len() ==> one_key_order(sorter.keys@[i], sorter.tab, a, b)
            != Ordering::Equal,
    ensures
        i < sorter.keys@.len() ==> breaking_range(sorter, a, b) == (
            key_start(b, sorter.keys@[i], sorter.tab),
            key_end(b, sorter.keys@[i], sorter.tab),
        ),
        i == sorter.keys@.len() ==> breaking_range(sorter, a, b) == (0int, nat_int(b.len())),
{
    lemma_deciding_key(sorter.keys@, sorter.tab, a, b, i);
}

proof fn lemma_deciding_key(keys: Seq<KeyDef>, tab: Option<u8>, a: Seq<u8>, b: Seq<u8>, i: int)
    requires
        0 <= i <= keys.len(),
        forall|j: int|
            0 <= j < i ==> one_key_order(#[trigger] keys[j], tab, a, b) == Ordering::Equal,
        i < keys.len() ==> one_key_order(keys[i], tab, a, b) != Ordering::Equal,
    ensures
        deciding_key(keys, tab, a, b) == (if i < keys.len() {
            Some(keys[i])
        } else {
            None
        }),
    decreases i,
{
    if i > 0 {
        let rest = keys.drop_first();
        assert(one_key_order(keys[0], tab, a, b) == Ordering::Equal);
        assert forall|j: int| 0 <= j < i - 1 implies one_key_order(#[trigger] rest[j], tab, a, b)
            == Ordering::Equal by {
            assert(rest[j] == keys[j + 1]);
        }
        lemma_deciding_key(rest, tab, a, b, i - 1);
    }
}

} // verus!
