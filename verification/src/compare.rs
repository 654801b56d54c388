//! How the bytes of a key are ordered.

use crate::decimal::{
    all_digits, by_value, decimal, fixed_order_is_total, lemma_leading_zeros,
    lemma_longer_is_larger, lemma_same_length_order, zero_digit,
};
use crate::general::{
    general_order, general_order_is_total, human_order, human_order_is_total,
};
use crate::index::{ints, ix, nat_int};
use crate::key::Kind;
use crate::lex::{
    bytes_order, bytes_order_ties_only_equal, compare_bytes, lemma_lex_common_prefix, lex,
    lex_order, lex_order_is_total,
};
use crate::numeric::{cmp_int, numeric_order, numeric_value, strip_leading_zeros};
use crate::order::{
    directed, flip, int_order, is_total_order, lemma_directed_is_total, lemma_pullback_is_total,
    lemma_rank_order_is_total, lemma_tie_broken_is_total, tie_broken,
};
use crate::text::{
    blank, digit, digits_end, is_digit, lead, lemma_lead, lemma_run_end_bounds, past,
    skip_blanks, ZERO,
};
use std::cmp::Ordering;
use vstd::prelude::*;

pub use crate::general::{general_cmp, human_cmp};
pub use crate::numeric::{numeric_cmp, NumericKey};

verus! {

/// How to read and order the bytes of a key.
#[derive(Clone, Copy, Debug, PartialEq, Eq, Structural)]
pub struct KeyOpts {
    /// `-n`: compare the number at the start.
    pub numeric: bool,
    /// `-f`: fold lower case to upper case before comparing.
    pub fold: bool,
    /// `-b`: ignore blanks at the start of the key.
    pub ignore_blanks: bool,
}

impl Default for KeyOpts {
    /// Raw bytes.
    fn default() -> (opts: KeyOpts)
        ensures
            opts == (KeyOpts { numeric: false, fold: false, ignore_blanks: false }),
    {
        KeyOpts { numeric: false, fold: false, ignore_blanks: false }
    }
}

/// A lower case ASCII letter in upper case, any other byte as it is.
pub open spec fn upper(b: u8) -> u8 {
    if 0x61 <= b <= 0x7a {
        (b - 0x20) as u8
    } else {
        b
    }
}

/// `s` with ASCII letters in upper case.
pub open spec fn folded(s: Seq<u8>) -> Seq<u8> {
    s.map_values(|b: u8| upper(b))
}

/// The `-f` order.
pub open spec fn fold_order(a: Seq<u8>, b: Seq<u8>) -> Ordering {
    bytes_order(folded(a), folded(b))
}

/// The abbreviated names of the months, in upper case.
pub open spec fn month_names() -> Seq<Seq<u8>> {
    seq![
        seq![0x4au8, 0x41, 0x4e],  // JAN
        seq![0x46u8, 0x45, 0x42],  // FEB
        seq![0x4du8, 0x41, 0x52],  // MAR
        seq![0x41u8, 0x50, 0x52],  // APR
        seq![0x4du8, 0x41, 0x59],  // MAY
        seq![0x4au8, 0x55, 0x4e],  // JUN
        seq![0x4au8, 0x55, 0x4c],  // JUL
        seq![0x41u8, 0x55, 0x47],  // AUG
        seq![0x53u8, 0x45, 0x50],  // SEP
        seq![0x4fu8, 0x43, 0x54],  // OCT
        seq![0x4eu8, 0x4f, 0x56],  // NOV
        seq![0x44u8, 0x45, 0x43],  // DEC
    ]
}

/// `s` starts, behind blanks, with the name of month `m`, in any case.
pub open spec fn starts_with_month(s: Seq<u8>, m: int) -> bool {
    let t = past(s, blank());
    &&& 1 <= m <= 12
    &&& t.len() >= 3
    &&& folded(t.take(3)) == month_names()[m - 1]
}

/// The number of the month that `s` starts with, or 0.
pub open spec fn month_value(s: Seq<u8>) -> int {
    if exists|m: int| starts_with_month(s, m) {
        choose|m: int| starts_with_month(s, m)
    } else {
        0
    }
}

/// The `-M` order.
pub open spec fn month_order(a: Seq<u8>, b: Seq<u8>) -> Ordering {
    int_order(month_value(a), month_value(b))
}

/// What `-V` compares, two integers for each piece of `s`: a run of digits gives
/// the code of a digit and the number that the run stands for, any other byte
/// gives its code and 0.
pub open spec fn version_pieces(s: Seq<u8>) -> Seq<int>
    decreases s.len(),
{
    if s.len() == 0 {
        Seq::empty()
    } else if (digit())(s[0]) {
        proof {
            lemma_lead(s.drop_first(), digit());
        }
        seq![ZERO as int, decimal(s.take(lead(s, digit()))) as int] + version_pieces(
            s.skip(lead(s, digit())),
        )
    } else {
        seq![s[0] as int, 0] + version_pieces(s.drop_first())
    }
}

/// The `-V` order.
pub open spec fn version_order(a: Seq<u8>, b: Seq<u8>) -> Ordering {
    lex_order(version_pieces(a), version_pieces(b))
}

/// The order of two keys under a discipline. `fold` applies to raw bytes only.
pub open spec fn kind_order(kind: Kind, fold: bool, a: Seq<u8>, b: Seq<u8>) -> Ordering {
    match kind {
        Kind::Numeric => numeric_order(a, b),
        Kind::General => general_order(a, b),
        Kind::Human => human_order(a, b),
        Kind::Version => version_order(a, b),
        Kind::Month => month_order(a, b),
        Kind::Bytes => if fold {
            fold_order(a, b)
        } else {
            bytes_order(a, b)
        },
    }
}

/// The part of a line that `opts` compares.
pub open spec fn key_part(s: Seq<u8>, opts: KeyOpts) -> Seq<u8> {
    if opts.ignore_blanks {
        past(s, blank())
    } else {
        s
    }
}

/// The order of two lines as keys, without any tie-break.
pub open spec fn key_order(a: Seq<u8>, b: Seq<u8>, opts: KeyOpts) -> Ordering {
    kind_order(
        if opts.numeric {
            Kind::Numeric
        } else {
            Kind::Bytes
        },
        opts.fold,
        key_part(a, opts),
        key_part(b, opts),
    )
}

/// The order of two lines: as keys, then, unless `stable`, as bytes; all of it
/// reversed where `reverse` is set.
pub open spec fn line_order(a: Seq<u8>, b: Seq<u8>, opts: KeyOpts, reverse: bool, stable: bool) -> Ordering {
    directed(
        if stable {
            key_order(a, b, opts)
        } else {
            tie_broken(key_order(a, b, opts), bytes_order(a, b))
        },
        reverse,
    )
}

/// `b` in upper case.
pub fn to_upper(b: u8) -> (r: u8)
    ensures
        r == upper(b),
{
    if b >= 0x61 && b <= 0x7a {
        b - 0x20
    } else {
        b
    }
}

/// Compares bytes with ASCII lower case folded to upper case (`-f`).
pub fn fold_cmp(a: &[u8], b: &[u8]) -> (o: Ordering)
    ensures
        o == fold_order(a@, b@),
{
    let ghost x = ints(folded(a@));
    let ghost y = ints(folded(b@));
    let mut i: usize = 0;
    while i < a.len() && i < b.len()
        invariant
            x == ints(folded(a@)),
            y == ints(folded(b@)),
            i <= a@.len(),
            i <= b@.len(),
            forall|k: int| 0 <= k < i ==> #[trigger] x[k] == y[k],
        decreases a@.len() - i,
    {
        let p: u8 = to_upper(a[i]);
        let q: u8 = to_upper(b[i]);
        if p != q {
            proof {
                lemma_lex_common_prefix(x, y, ix(i));
            }
            return if p < q {
                Ordering::Less
            } else {
                Ordering::Greater
            };
        }
        i += 1;
    }
    proof {
        lemma_lex_common_prefix(x, y, ix(i));
    }
    if a.len() < b.len() {
        Ordering::Less
    } else if a.len() > b.len() {
        Ordering::Greater
    } else {
        Ordering::Equal
    }
}

/// The number of the month that `s` starts with, or 0.
pub fn month_num(s: &[u8]) -> (m: u8)
    ensures
        m == month_value(s@),
{
    let t = skip_blanks(s);
    if t.len() < 3 {
        return 0;
    }
    let (x, y, z) = (to_upper(t[0]), to_upper(t[1]), to_upper(t[2]));
    let ghost name = folded(t@.take(3));
    assert(name =~= seq![x, y, z]);
    let m: u8 = match (x, y, z) {
        (0x4a, 0x41, 0x4e) => 1,
        (0x46, 0x45, 0x42) => 2,
        (0x4d, 0x41, 0x52) => 3,
        (0x41, 0x50, 0x52) => 4,
        (0x4d, 0x41, 0x59) => 5,
        (0x4a, 0x55, 0x4e) => 6,
        (0x4a, 0x55, 0x4c) => 7,
        (0x41, 0x55, 0x47) => 8,
        (0x53, 0x45, 0x50) => 9,
        (0x4f, 0x43, 0x54) => 10,
        (0x4e, 0x4f, 0x56) => 11,
        (0x44, 0x45, 0x43) => 12,
        _ => 0,
    };
    proof {
        if m > 0 {
            assert(name =~= month_names()[m - 1]);
            assert(starts_with_month(s@, m as int));
        }
        assert forall|k: int| starts_with_month(s@, k) implies k == m by {
            let other = month_names()[k - 1];
            assert(name == other);
            assert(x == other[0] && y == other[1] && z == other[2]);
        }
    }
    m
}

/// Compares month names (`-M`): an unknown name comes before January.
pub fn month_cmp(a: &[u8], b: &[u8]) -> (o: Ordering)
    ensures
        o == month_order(a@, b@),
{
    let x: u8 = month_num(a);
    let y: u8 = month_num(b);
    if x < y {
        Ordering::Less
    } else if x > y {
        Ordering::Greater
    } else {
        Ordering::Equal
    }
}

/// Two pieces decide, or what is behind them does.
proof fn lemma_first_piece(x: int, y: int, r: Seq<int>, u: int, v: int, s: Seq<int>)
    ensures
        lex_order(seq![x, y] + r, seq![u, v] + s) == tie_broken(
            int_order(x, u),
            tie_broken(int_order(y, v), lex_order(r, s)),
        ),
{
    let a = seq![x, y] + r;
    let b = seq![u, v] + s;
    assert(a.drop_first().drop_first() =~= r);
    assert(b.drop_first().drop_first() =~= s);
    reveal_with_fuel(lex_order, 3);
}

/// Digit strings without leading zeros compare by length, then as bytes.
proof fn lemma_digits_order(a: Seq<u8>, b: Seq<u8>)
    requires
        all_digits(a),
        all_digits(b),
        a.len() > 0 ==> a[0] != ZERO,
        b.len() > 0 ==> b[0] != ZERO,
    ensures
        tie_broken(int_order(nat_int(a.len()), nat_int(b.len())), bytes_order(a, b)) == int_order(
            nat_int(decimal(a)),
            nat_int(decimal(b)),
        ),
{
    if a.len() < b.len() {
        lemma_longer_is_larger(a, b);
    } else if a.len() > b.len() {
        lemma_longer_is_larger(b, a);
    } else {
        lemma_same_length_order(a, b);
    }
}

/// The digits at the start of `d` without leading zeros.
proof fn lemma_stripped_digits(d: Seq<u8>)
    requires
        all_digits(d),
    ensures
        all_digits(past(d, zero_digit())),
        past(d, zero_digit()).len() > 0 ==> past(d, zero_digit())[0] != ZERO,
        decimal(past(d, zero_digit())) == decimal(d),
{
    lemma_lead(d, zero_digit());
    lemma_leading_zeros(d);
    let w = past(d, zero_digit());
    assert forall|i: int| 0 <= i < w.len() implies (digit())(#[trigger] w[i]) by {
        assert((digit())(d[i + lead(d, zero_digit())]));
    }
}

/// Bytes that are not both digits compare as bytes.
proof fn lemma_byte_piece(s: Seq<u8>, t: Seq<u8>)
    requires
        s.len() > 0,
        t.len() > 0,
        !((digit())(s[0]) && (digit())(t[0])),
    ensures
        s[0] < t[0] ==> version_order(s, t) == Ordering::Less,
        s[0] > t[0] ==> version_order(s, t) == Ordering::Greater,
        s[0] == t[0] ==> version_order(s, t) == version_order(s.drop_first(), t.drop_first()),
{
    let p = version_pieces(s);
    let q = version_pieces(t);
    lemma_first_piece(p[0], p[1], p.skip(2), q[0], q[1], q.skip(2));
    assert(p =~= seq![p[0], p[1]] + p.skip(2));
    assert(q =~= seq![q[0], q[1]] + q.skip(2));
    if s[0] == t[0] {
        assert(p.skip(2) =~= version_pieces(s.drop_first()));
        assert(q.skip(2) =~= version_pieces(t.drop_first()));
    }
}

proof fn lemma_no_pieces(s: Seq<u8>)
    ensures
        version_pieces(s).len() == 0 <==> s.len() == 0,
{
}

/// Compares runs of letters and numbers in their natural order (`-V`): `v2`
/// comes before `v10`, and leading zeros count for nothing.
pub fn version_cmp(a: &[u8], b: &[u8]) -> (o: Ordering)
    ensures
        o == version_order(a@, b@),
{
    let mut i: usize = 0;
    let mut j: usize = 0;
    proof {
        assert(a@.skip(0) =~= a@);
        assert(b@.skip(0) =~= b@);
    }
    while i < a.len() && j < b.len()
        invariant
            i <= a@.len(),
            j <= b@.len(),
            version_order(a@, b@) == version_order(a@.skip(ix(i)), b@.skip(ix(j))),
        decreases a@.len() - i,
    {
        let ca: u8 = a[i];
        let cb: u8 = b[j];
        let ghost s = a@.skip(ix(i));
        let ghost t = b@.skip(ix(j));
        if is_digit(ca) && is_digit(cb) {
            let end_a: usize = digits_end(a, i);
            let end_b: usize = digits_end(b, j);
            let run_a = &a[i..end_a];
            let run_b = &b[j..end_b];
            proof {
                lemma_run_end_bounds(a@, ix(i), digit());
                lemma_run_end_bounds(b@, ix(j), digit());
                assert(run_a@ =~= s.take(lead(s, digit())));
                assert(run_b@ =~= t.take(lead(t, digit())));
                assert(a@.skip(ix(end_a)) =~= s.skip(lead(s, digit())));
                assert(b@.skip(ix(end_b)) =~= t.skip(lead(t, digit())));
                lemma_lead(s.drop_first(), digit());
                lemma_lead(t.drop_first(), digit());
                lemma_stripped_digits(run_a@);
                lemma_stripped_digits(run_b@);
                lemma_digits_order(past(run_a@, zero_digit()), past(run_b@, zero_digit()));
                lemma_first_piece(
                    48,
                    nat_int(decimal(run_a@)),
                    version_pieces(a@.skip(ix(end_a))),
                    48,
                    nat_int(decimal(run_b@)),
                    version_pieces(b@.skip(ix(end_b))),
                );
            }
            match cmp_int(strip_leading_zeros(run_a), strip_leading_zeros(run_b)) {
                Ordering::Equal => {},
                other => {
                    return other;
                },
            }
            i = end_a;
            j = end_b;
        } else {
            proof {
                lemma_byte_piece(s, t);
                assert(a@.skip(i + 1) =~= s.drop_first());
                assert(b@.skip(j + 1) =~= t.drop_first());
            }
            if ca < cb {
                return Ordering::Less;
            }
            if ca > cb {
                return Ordering::Greater;
            }
            i += 1;
            j += 1;
        }
    }
    proof {
        lemma_no_pieces(a@.skip(ix(i)));
        lemma_no_pieces(b@.skip(ix(j)));
    }
    if a.len() - i < b.len() - j {
        Ordering::Less
    } else if a.len() - i > b.len() - j {
        Ordering::Greater
    } else {
        Ordering::Equal
    }
}

/// Compares two keys under a discipline. `fold` applies to raw bytes only.
pub fn compare_kind(a: &[u8], b: &[u8], kind: Kind, fold: bool) -> (o: Ordering)
    ensures
        o == kind_order(kind, fold, a@, b@),
{
    match kind {
        Kind::Numeric => numeric_cmp(a, b),
        Kind::General => general_cmp(a, b),
        Kind::Human => human_cmp(a, b),
        Kind::Version => version_cmp(a, b),
        Kind::Month => month_cmp(a, b),
        Kind::Bytes => if fold {
            fold_cmp(a, b)
        } else {
            compare_bytes(a, b)
        },
    }
}

/// Compares two lines as keys. Lines that tie here are equal to `-u` and `-c`.
pub fn compare_key(a: &[u8], b: &[u8], opts: &KeyOpts) -> (o: Ordering)
    ensures
        o == key_order(a@, b@, *opts),
{
    let (x, y) = if opts.ignore_blanks {
        (skip_blanks(a), skip_blanks(b))
    } else {
        (a, b)
    };
    if opts.numeric {
        numeric_cmp(x, y)
    } else if opts.fold {
        fold_cmp(x, y)
    } else {
        compare_bytes(x, y)
    }
}

/// Compares two whole lines as the sort does: as keys first. Unless `stable`, a
/// tie is broken by the raw bytes of the lines, so that only identical lines tie.
/// `reverse` reverses all of it.
pub fn full_compare(a: &[u8], b: &[u8], opts: &KeyOpts, reverse: bool, stable: bool) -> (o: Ordering)
    ensures
        o == line_order(a@, b@, *opts, reverse, stable),
{
    let mut o = compare_key(a, b, opts);
    match o {
        Ordering::Equal => if !stable {
            o = compare_bytes(a, b);
        },
        _ => {},
    }
    if reverse {
        flip(o)
    } else {
        o
    }
}

/// The byte order is total.
pub proof fn bytes_order_is_total()
    ensures
        is_total_order(|a: Seq<u8>, b: Seq<u8>| bytes_order(a, b)),
{
    lex_order_is_total();
    lemma_pullback_is_total(
        |a: Seq<u8>, b: Seq<u8>| bytes_order(a, b),
        lex(),
        |a: Seq<u8>| ints(a),
    );
}

/// Every discipline orders keys totally.
pub proof fn kind_order_is_total(kind: Kind, fold: bool)
    ensures
        is_total_order(|a: Seq<u8>, b: Seq<u8>| kind_order(kind, fold, a, b)),
{
    let c = |a: Seq<u8>, b: Seq<u8>| kind_order(kind, fold, a, b);
    match kind {
        Kind::Numeric => {
            fixed_order_is_total();
            lemma_pullback_is_total(c, by_value(), |a: Seq<u8>| numeric_value(a));
        },
        Kind::General => {
            general_order_is_total();
            lemma_pullback_is_total(
                c,
                |a: Seq<u8>, b: Seq<u8>| general_order(a, b),
                |a: Seq<u8>| a,
            );
        },
        Kind::Human => {
            human_order_is_total();
            lemma_pullback_is_total(
                c,
                |a: Seq<u8>, b: Seq<u8>| human_order(a, b),
                |a: Seq<u8>| a,
            );
        },
        Kind::Version => {
            lex_order_is_total();
            lemma_pullback_is_total(c, lex(), |a: Seq<u8>| version_pieces(a));
        },
        Kind::Month => {
            lemma_rank_order_is_total(c, |a: Seq<u8>| month_value(a));
        },
        Kind::Bytes => {
            bytes_order_is_total();
            let d = |a: Seq<u8>, b: Seq<u8>| bytes_order(a, b);
            if fold {
                lemma_pullback_is_total(c, d, |a: Seq<u8>| folded(a));
            } else {
                lemma_pullback_is_total(c, d, |a: Seq<u8>| a);
            }
        },
    }
}

/// The order of keys is total.
pub proof fn key_order_is_total(opts: KeyOpts)
    ensures
        is_total_order(|a: Seq<u8>, b: Seq<u8>| key_order(a, b, opts)),
{
    let kind = if opts.numeric {
        Kind::Numeric
    } else {
        Kind::Bytes
    };
    kind_order_is_total(kind, opts.fold);
    lemma_pullback_is_total(
        |a: Seq<u8>, b: Seq<u8>| key_order(a, b, opts),
        |a: Seq<u8>, b: Seq<u8>| kind_order(kind, opts.fold, a, b),
        |a: Seq<u8>| key_part(a, opts),
    );
}

/// The order of lines is total, and without `stable` only identical lines tie.
pub proof fn line_order_is_total(opts: KeyOpts, reverse: bool, stable: bool)
    ensures
        is_total_order(|a: Seq<u8>, b: Seq<u8>| line_order(a, b, opts, reverse, stable)),
        !stable ==> forall|a: Seq<u8>, b: Seq<u8>| #[trigger]
            line_order(a, b, opts, reverse, stable) == Ordering::Equal ==> a == b,
{
    let keys = |a: Seq<u8>, b: Seq<u8>| key_order(a, b, opts);
    let bytes = |a: Seq<u8>, b: Seq<u8>| bytes_order(a, b);
    let broken = |a: Seq<u8>, b: Seq<u8>| tie_broken(key_order(a, b, opts), bytes_order(a, b));
    let all = |a: Seq<u8>, b: Seq<u8>| line_order(a, b, opts, reverse, stable);
    key_order_is_total(opts);
    bytes_order_is_total();
    lemma_tie_broken_is_total(broken, keys, bytes);
    if stable {
        lemma_directed_is_total(all, keys, reverse);
    } else {
        lemma_directed_is_total(all, broken, reverse);
        assert forall|a: Seq<u8>, b: Seq<u8>| #[trigger]
            line_order(a, b, opts, reverse, stable) == Ordering::Equal implies a == b by {
            bytes_order_ties_only_equal(a, b);
        }
    }
}

/// `-r` turns every comparison round.
pub proof fn reverse_flips_line_order(a: Seq<u8>, b: Seq<u8>, opts: KeyOpts, stable: bool)
    ensures
        line_order(a, b, opts, true, stable) == line_order(b, a, opts, false, stable),
{
    key_order_is_total(opts);
    bytes_order_is_total();
    let keys = |a: Seq<u8>, b: Seq<u8>| key_order(a, b, opts);
    let bytes = |a: Seq<u8>, b: Seq<u8>| bytes_order(a, b);
    assert(keys(a, b) == crate::order::flipped(keys(b, a)));
    assert(bytes(a, b) == crate::order::flipped(bytes(b, a)));
}

} // verus!
