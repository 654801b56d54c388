//! Sorting lines that are held in memory: whole lines as bytes, lines that start
//! with numbers, and lines compared by keys.

use crate::agreement::integer_path_agrees;
use crate::compare::{
    compare_key, compare_kind, full_compare, key_order, kind_order, line_order,
    line_order_is_total, KeyOpts,
};
use crate::config::Config;
use crate::decimal::fixed_order;
use crate::general::{general_value, human_value, parse_general, parse_human};
use crate::index::ix;
use crate::key::{
    extract, key_bytes, keys_order, one_key_order, sorter_order_is_total, Kind, Sorter,
};
use crate::lex::compare_bytes;
use crate::lines::{
    all_admitted, arrange, arranged, distinct, lines_of, views, LineItems,
};
use crate::numeric::{lemma_same_value_same_order, numeric_value, NumericKey};
use crate::order::{flip, int_order, lemma_pullback_is_total, tie_broken};
use crate::parallel::{par_map, ItemMap, ItemOrder};
use crate::radix::try_numeric_radix;
use std::cmp::Ordering;
use vstd::prelude::*;

verus! {

/// Whole lines, compared as one key.
struct WholeLines {
    opts: KeyOpts,
    reverse: bool,
    stable: bool,
}

impl<'a> ItemOrder<&'a [u8]> for WholeLines {
    closed spec fn admits(&self, item: &'a [u8]) -> bool {
        true
    }

    closed spec fn item_order(&self) -> spec_fn(&'a [u8], &'a [u8]) -> Ordering {
        |a: &'a [u8], b: &'a [u8]| line_order(a@, b@, self.opts, self.reverse, self.stable)
    }

    proof fn item_order_is_total(&self) {
        line_order_is_total(self.opts, self.reverse, self.stable);
        lemma_pullback_is_total(
            self.item_order(),
            |a: Seq<u8>, b: Seq<u8>| line_order(a, b, self.opts, self.reverse, self.stable),
            |a: &'a [u8]| a@,
        );
    }

    fn compare_items(&self, a: &&'a [u8], b: &&'a [u8]) -> (o: Ordering) {
        full_compare(a, b, &self.opts, self.reverse, self.stable)
    }
}

impl<'a> LineItems<&'a [u8]> for WholeLines {
    type Line = Seq<u8>;

    closed spec fn line(&self, item: &'a [u8]) -> Seq<u8> {
        item@
    }

    closed spec fn line_order(&self) -> spec_fn(Seq<u8>, Seq<u8>) -> Ordering {
        |a: Seq<u8>, b: Seq<u8>| line_order(a, b, self.opts, self.reverse, self.stable)
    }

    closed spec fn same_line(&self) -> spec_fn(Seq<u8>, Seq<u8>) -> bool {
        |a: Seq<u8>, b: Seq<u8>| key_order(a, b, self.opts) == Ordering::Equal
    }

    closed spec fn ties_are_identical(&self) -> bool {
        !self.stable
    }

    proof fn items_follow_lines(&self) {
        line_order_is_total(self.opts, self.reverse, self.stable);
    }

    fn same_items(&self, a: &&'a [u8], b: &&'a [u8]) -> (r: bool) {
        match compare_key(a, b, &self.opts) {
            Ordering::Equal => true,
            _ => false,
        }
    }
}

/// The order of whole lines as a function.
pub open spec fn by_line(opts: KeyOpts, reverse: bool, stable: bool) -> spec_fn(
    Seq<u8>,
    Seq<u8>,
) -> Ordering {
    |a: Seq<u8>, b: Seq<u8>| line_order(a, b, opts, reverse, stable)
}

/// Whether two whole lines are equal as keys.
pub open spec fn same_key(opts: KeyOpts) -> spec_fn(Seq<u8>, Seq<u8>) -> bool {
    |a: Seq<u8>, b: Seq<u8>| key_order(a, b, opts) == Ordering::Equal
}

/// Sorts lines as bytes, perhaps without regard to case or to blanks at the start.
/// Gives the lines, as many as `--top` asks for, and how many `-u` removed. Ties
/// keep their order with `-s`, and with `-u` where lines that differ can tie.
pub fn byte_order<'a>(lines: Vec<&'a [u8]>, cfg: &Config, opts: &KeyOpts) -> (r: (Vec<&'a [u8]>, usize))
    ensures
        ({
            let stable = cfg.stable || cfg.unique && (opts.fold || opts.ignore_blanks);
            let order = by_line(*opts, cfg.reverse, stable);
            &&& views(r.0@) == arranged(
                views(lines@),
                order,
                same_key(*opts),
                cfg.unique,
                cfg.top,
            )
            &&& r.1 == lines@.len() - distinct(
                views(lines@),
                order,
                same_key(*opts),
                cfg.unique,
            ).len()
        }),
{
    let stable: bool = cfg.stable || (cfg.unique && (opts.fold || opts.ignore_blanks));
    let by = WholeLines { opts: *opts, reverse: cfg.reverse, stable };
    let ghost all = lines@;
    let (out, removed) = arrange(lines, &by, stable, cfg.unique, cfg.top);
    proof {
        assert(lines_of(&by, all) =~= views(all));
        assert(lines_of(&by, out@) =~= views(out@));
        assert(by.line_order() =~= by_line(*opts, cfg.reverse, stable));
        assert(by.same_line() =~= same_key(*opts));
    }
    (out, removed)
}

/// The options of a numeric sort of whole lines.
pub open spec fn numeric_opts() -> KeyOpts {
    KeyOpts { numeric: true, fold: false, ignore_blanks: false }
}

/// Lines with the numbers at their start.
struct NumberedLines {
    reverse: bool,
    stable: bool,
}

impl<'a> ItemOrder<(NumericKey<'a>, &'a [u8])> for NumberedLines {
    closed spec fn admits(&self, item: (NumericKey<'a>, &'a [u8])) -> bool {
        fixed_order(item.0@, numeric_value(item.1@)) == Ordering::Equal
    }

    closed spec fn item_order(&self) -> spec_fn(
        (NumericKey<'a>, &'a [u8]),
        (NumericKey<'a>, &'a [u8]),
    ) -> Ordering {
        |a: (NumericKey<'a>, &'a [u8]), b: (NumericKey<'a>, &'a [u8])|
            line_order(a.1@, b.1@, numeric_opts(), self.reverse, self.stable)
    }

    proof fn item_order_is_total(&self) {
        line_order_is_total(numeric_opts(), self.reverse, self.stable);
        lemma_pullback_is_total(
            self.item_order(),
            |a: Seq<u8>, b: Seq<u8>|
                line_order(a, b, numeric_opts(), self.reverse, self.stable),
            |a: (NumericKey<'a>, &'a [u8])| a.1@,
        );
    }

    fn compare_items(&self, a: &(NumericKey<'a>, &'a [u8]), b: &(NumericKey<'a>, &'a [u8])) -> (o:
        Ordering) {
        proof {
            lemma_same_value_same_order(a.0@, numeric_value(a.1@), b.0@, numeric_value(b.1@));
        }
        let mut o = a.0.cmp(&b.0);
        match o {
            Ordering::Equal => if !self.stable {
                o = compare_bytes(a.1, b.1);
            },
            _ => {},
        }
        if self.reverse {
            flip(o)
        } else {
            o
        }
    }
}

impl<'a> LineItems<(NumericKey<'a>, &'a [u8])> for NumberedLines {
    type Line = Seq<u8>;

    closed spec fn line(&self, item: (NumericKey<'a>, &'a [u8])) -> Seq<u8> {
        item.1@
    }

    closed spec fn line_order(&self) -> spec_fn(Seq<u8>, Seq<u8>) -> Ordering {
        |a: Seq<u8>, b: Seq<u8>| line_order(a, b, numeric_opts(), self.reverse, self.stable)
    }

    closed spec fn same_line(&self) -> spec_fn(Seq<u8>, Seq<u8>) -> bool {
        |a: Seq<u8>, b: Seq<u8>| key_order(a, b, numeric_opts()) == Ordering::Equal
    }

    closed spec fn ties_are_identical(&self) -> bool {
        !self.stable
    }

    proof fn items_follow_lines(&self) {
        line_order_is_total(numeric_opts(), self.reverse, self.stable);
    }

    fn same_items(&self, a: &(NumericKey<'a>, &'a [u8]), b: &(NumericKey<'a>, &'a [u8])) -> (r:
        bool) {
        proof {
            lemma_same_value_same_order(a.0@, numeric_value(a.1@), b.0@, numeric_value(b.1@));
        }
        match a.0.cmp(&b.0) {
            Ordering::Equal => true,
            _ => false,
        }
    }
}

/// Reads the number at the start of each line.
struct NumberOf;

impl<'a> ItemMap<&'a [u8]> for NumberOf {
    type Out = (NumericKey<'a>, &'a [u8]);

    closed spec fn maps_to(&self, item: &'a [u8], image: (NumericKey<'a>, &'a [u8])) -> bool {
        &&& image.1@ == item@
        &&& fixed_order(image.0@, numeric_value(item@)) == Ordering::Equal
    }

    fn map_item(&self, item: &&'a [u8]) -> (image: (NumericKey<'a>, &'a [u8])) {
        (NumericKey::parse(item), *item)
    }
}

/// Sorts lines by the numbers at their start. Gives the lines, as many as `--top`
/// asks for, and how many `-u` removed.
pub fn numeric_order<'a>(lines: Vec<&'a [u8]>, cfg: &Config) -> (r: (Vec<&'a [u8]>, usize))
    ensures
        ({
            let order = by_line(numeric_opts(), cfg.reverse, cfg.stable || cfg.unique);
            let same = same_key(numeric_opts());
            &&& views(r.0@) == arranged(views(lines@), order, same, cfg.unique, cfg.top)
            &&& r.1 == lines@.len() - distinct(views(lines@), order, same, cfg.unique).len()
        }),
{
    let stable: bool = cfg.stable || cfg.unique;
    if let Some(r) = try_numeric_radix(&lines, cfg) {
        proof {
            integer_path_agrees(views(lines@), cfg.reverse, stable, cfg.unique, cfg.top);
        }
        return r;
    }
    let by = NumberedLines { reverse: cfg.reverse, stable };
    let items: Vec<(NumericKey<'a>, &'a [u8])> = par_map(&lines, &NumberOf);
    proof {
        assert forall|i: int| 0 <= i < items@.len() implies by.admits(#[trigger] items@[i])
            && by.line(items@[i]) == views(lines@)[i] by {
            assert(NumberOf.maps_to(lines@[i], items@[i]));
        }
        assert(lines_of(&by, items@) =~= views(lines@));
    }
    let (out, removed) = arrange(items, &by, stable, cfg.unique, cfg.top);
    let mut plain: Vec<&'a [u8]> = Vec::new();
    let mut i: usize = 0;
    while i < out.len()
        invariant
            i <= out@.len(),
            plain@.len() == i,
            forall|k: int| 0 <= k < i ==> (#[trigger] plain@[k])@ == by.line(out@[k]),
        decreases out@.len() - i,
    {
        plain.push(out[i].1);
        i += 1;
    }
    proof {
        assert(views(plain@) =~= lines_of(&by, out@));
        assert(by.line_order() =~= by_line(numeric_opts(), cfg.reverse, stable));
        assert(by.same_line() =~= same_key(numeric_opts()));
    }
    (plain, removed)
}

/// The bytes of a key, read once so that they can be compared many times.
#[derive(Clone, Copy, Debug)]
enum Dec<'a> {
    /// A number.
    Num(NumericKey<'a>),
    /// A number with an exponent, as a double precision value.
    Double(Option<i64>),
    /// A size, as a double precision value.
    Size(i64),
    /// The bytes themselves.
    Slice(&'a [u8]),
}

/// A machine integer in specifications.
spec fn value_of(v: i64) -> int {
    v as int
}

/// `dec` is what the bytes of a key are read as.
spec fn reads_as(dec: Dec, key: Seq<u8>, kind: Kind) -> bool {
    match dec {
        Dec::Num(n) => kind == Kind::Numeric && fixed_order(n@, numeric_value(key))
            == Ordering::Equal,
        Dec::Double(v) => kind == Kind::General && match (v, general_value(key)) {
            (Some(x), Some(y)) => value_of(x) == y,
            (None, None) => true,
            _ => false,
        },
        Dec::Size(v) => kind == Kind::Human && value_of(v) == human_value(key),
        Dec::Slice(s) => s@ == key && kind != Kind::Numeric && kind != Kind::General && kind
            != Kind::Human,
    }
}

/// Reads the bytes of a key.
fn decorate<'a>(key: &'a [u8], kind: Kind) -> (dec: Dec<'a>)
    ensures
        reads_as(dec, key@, kind),
{
    match kind {
        Kind::Numeric => Dec::Num(NumericKey::parse(key)),
        Kind::General => Dec::Double(parse_general(key)),
        Kind::Human => Dec::Size(parse_human(key)),
        _ => Dec::Slice(key),
    }
}

fn compare_ints(x: i64, y: i64) -> (o: Ordering)
    ensures
        o == int_order(value_of(x), value_of(y)),
{
    if x < y {
        Ordering::Less
    } else if x == y {
        Ordering::Equal
    } else {
        Ordering::Greater
    }
}

/// Compares keys that were read under the same discipline.
fn compare_decorated<'a>(a: &Dec<'a>, b: &Dec<'a>, kind: Kind, fold: bool) -> (o: Ordering)
    ensures
        forall|x: Seq<u8>, y: Seq<u8>|
            #![trigger reads_as(*a, x, kind), reads_as(*b, y, kind)]
            reads_as(*a, x, kind) && reads_as(*b, y, kind) ==> o == kind_order(kind, fold, x, y),
{
    match (a, b) {
        (Dec::Num(x), Dec::Num(y)) => {
            proof {
                assert forall|p: Seq<u8>, q: Seq<u8>|
                    #![trigger reads_as(*a, p, kind), reads_as(*b, q, kind)]
                    reads_as(*a, p, kind) && reads_as(*b, q, kind) implies fixed_order(x@, y@)
                    == kind_order(kind, fold, p, q) by {
                    lemma_same_value_same_order(x@, numeric_value(p), y@, numeric_value(q));
                }
            }
            x.cmp(y)
        },
        (Dec::Double(x), Dec::Double(y)) => match (x, y) {
            (Some(v), Some(w)) => compare_ints(*v, *w),
            (Some(_), None) => Ordering::Greater,
            (None, Some(_)) => Ordering::Less,
            (None, None) => Ordering::Equal,
        },
        (Dec::Size(x), Dec::Size(y)) => compare_ints(*x, *y),
        (Dec::Slice(x), Dec::Slice(y)) => compare_kind(x, y, kind, fold),
        _ => Ordering::Equal,
    }
}

/// The order of lines by a comparison plan, as a function.
pub open spec fn by_sorter(sorter: Sorter) -> spec_fn(Seq<u8>, Seq<u8>) -> Ordering {
    |a: Seq<u8>, b: Seq<u8>| sorter.order(a, b)
}

/// Whether the keys do not tell two lines apart.
pub open spec fn same_keys(sorter: Sorter) -> spec_fn(Seq<u8>, Seq<u8>) -> bool {
    |a: Seq<u8>, b: Seq<u8>| sorter.key_order(a, b) == Ordering::Equal
}

/// Lines with their only key.
struct KeyedLines<'s> {
    sorter: &'s Sorter,
}

impl<'s> KeyedLines<'s> {
    spec fn is_ready(&self) -> bool {
        self.sorter.keys@.len() == 1
    }
}

impl<'a, 's> ItemOrder<(Dec<'a>, &'a [u8])> for KeyedLines<'s> {
    closed spec fn admits(&self, item: (Dec<'a>, &'a [u8])) -> bool {
        &&& self.is_ready()
        &&& reads_as(
            item.0,
            key_bytes(item.1@, self.sorter.keys@[0], self.sorter.tab),
            self.sorter.keys@[0].kind,
        )
    }

    closed spec fn item_order(&self) -> spec_fn((Dec<'a>, &'a [u8]), (Dec<'a>, &'a [u8])) -> Ordering {
        |a: (Dec<'a>, &'a [u8]), b: (Dec<'a>, &'a [u8])| self.sorter.order(a.1@, b.1@)
    }

    proof fn item_order_is_total(&self) {
        sorter_order_is_total(*self.sorter);
        lemma_pullback_is_total(
            self.item_order(),
            |a: Seq<u8>, b: Seq<u8>| self.sorter.order(a, b),
            |a: (Dec<'a>, &'a [u8])| a.1@,
        );
    }

    fn compare_items(&self, a: &(Dec<'a>, &'a [u8]), b: &(Dec<'a>, &'a [u8])) -> (o: Ordering) {
        let key = &self.sorter.keys[0];
        let mut o = compare_decorated(&a.0, &b.0, key.kind, key.fold);
        if key.reverse {
            o = flip(o);
        }
        proof {
            lemma_one_key(*self.sorter, a.1@, b.1@);
        }
        self.sorter.finish(o, a.1, b.1)
    }
}

/// One key orders lines as all keys do.
proof fn lemma_one_key(sorter: Sorter, a: Seq<u8>, b: Seq<u8>)
    requires
        sorter.keys@.len() == 1,
    ensures
        sorter.key_order(a, b) == one_key_order(sorter.keys@[0], sorter.tab, a, b),
{
    reveal_with_fuel(keys_order, 2);
}

impl<'a, 's> LineItems<(Dec<'a>, &'a [u8])> for KeyedLines<'s> {
    type Line = Seq<u8>;

    closed spec fn line(&self, item: (Dec<'a>, &'a [u8])) -> Seq<u8> {
        item.1@
    }

    closed spec fn line_order(&self) -> spec_fn(Seq<u8>, Seq<u8>) -> Ordering {
        by_sorter(*self.sorter)
    }

    closed spec fn same_line(&self) -> spec_fn(Seq<u8>, Seq<u8>) -> bool {
        same_keys(*self.sorter)
    }

    closed spec fn ties_are_identical(&self) -> bool {
        !self.sorter.suppress_last_resort
    }

    proof fn items_follow_lines(&self) {
        sorter_order_is_total(*self.sorter);
        assert(by_sorter(*self.sorter) =~= (|a: Seq<u8>, b: Seq<u8>| self.sorter.order(a, b)));
    }

    fn same_items(&self, a: &(Dec<'a>, &'a [u8]), b: &(Dec<'a>, &'a [u8])) -> (r: bool) {
        let key = &self.sorter.keys[0];
        proof {
            lemma_one_key(*self.sorter, a.1@, b.1@);
        }
        match compare_decorated(&a.0, &b.0, key.kind, key.fold) {
            Ordering::Equal => true,
            _ => false,
        }
    }
}

/// Reads the only key of each line.
struct KeyOf<'s> {
    sorter: &'s Sorter,
}

impl<'s> KeyOf<'s> {
    #[verifier::type_invariant]
    spec fn is_ready(&self) -> bool {
        self.sorter.keys@.len() == 1 && self.sorter.is_valid()
    }
}

impl<'a, 's> ItemMap<&'a [u8]> for KeyOf<'s> {
    type Out = (Dec<'a>, &'a [u8]);

    closed spec fn maps_to(&self, item: &'a [u8], image: (Dec<'a>, &'a [u8])) -> bool {
        &&& image.1@ == item@
        &&& reads_as(
            image.0,
            key_bytes(item@, self.sorter.keys@[0], self.sorter.tab),
            self.sorter.keys@[0].kind,
        )
    }

    fn map_item(&self, item: &&'a [u8]) -> (image: (Dec<'a>, &'a [u8])) {
        proof {
            use_type_invariant(self);
        }
        let key = &self.sorter.keys[0];
        (decorate(extract(item, key, self.sorter.tab), key.kind), *item)
    }
}

/// Sorts lines by one key. Gives the lines, as many as `--top` asks for, and how
/// many `-u` removed.
pub fn single_key_order<'a>(lines: Vec<&'a [u8]>, cfg: &Config, sorter: &Sorter) -> (r: (Vec<&'a [u8]>, usize))
    requires
        sorter.is_valid(),
        sorter.keys@.len() == 1,
    ensures
        views(r.0@) == arranged(
            views(lines@),
            by_sorter(*sorter),
            same_keys(*sorter),
            cfg.unique,
            cfg.top,
        ),
        r.1 == lines@.len() - distinct(
            views(lines@),
            by_sorter(*sorter),
            same_keys(*sorter),
            cfg.unique,
        ).len(),
{
    let by = KeyedLines { sorter };
    let read = KeyOf { sorter };
    let items: Vec<(Dec<'a>, &'a [u8])> = par_map(&lines, &read);
    proof {
        assert forall|i: int| 0 <= i < items@.len() implies by.admits(#[trigger] items@[i])
            && by.line(items@[i]) == views(lines@)[i] by {
            assert(read.maps_to(lines@[i], items@[i]));
        }
        assert(lines_of(&by, items@) =~= views(lines@));
    }
    let (out, removed) = arrange(items, &by, sorter.suppress_last_resort, cfg.unique, cfg.top);
    let mut plain: Vec<&'a [u8]> = Vec::new();
    let mut i: usize = 0;
    while i < out.len()
        invariant
            i <= out@.len(),
            plain@.len() == i,
            forall|k: int| 0 <= k < i ==> (#[trigger] plain@[k])@ == by.line(out@[k]),
        decreases out@.len() - i,
    {
        plain.push(out[i].1);
        i += 1;
    }
    assert(views(plain@) =~= lines_of(&by, out@));
    (plain, removed)
}

/// `row` holds the keys of a line, read once.
spec fn row_reads_as(row: Seq<Dec>, line: Seq<u8>, sorter: Sorter) -> bool {
    &&& row.len() == sorter.keys@.len()
    &&& forall|j: int|
        0 <= j < row.len() ==> reads_as(
            #[trigger] row[j],
            key_bytes(line, sorter.keys@[j], sorter.tab),
            sorter.keys@[j].kind,
        )
}

/// Reads all keys of each line.
struct KeysOf<'s> {
    sorter: &'s Sorter,
}

impl<'s> KeysOf<'s> {
    #[verifier::type_invariant]
    spec fn is_ready(&self) -> bool {
        self.sorter.is_valid()
    }
}

impl<'a, 's> ItemMap<&'a [u8]> for KeysOf<'s> {
    type Out = Vec<Dec<'a>>;

    closed spec fn maps_to(&self, item: &'a [u8], image: Vec<Dec<'a>>) -> bool {
        row_reads_as(image@, item@, *self.sorter)
    }

    fn map_item(&self, item: &&'a [u8]) -> (image: Vec<Dec<'a>>) {
        proof {
            use_type_invariant(self);
        }
        let mut row: Vec<Dec<'a>> = Vec::new();
        let mut j: usize = 0;
        while j < self.sorter.keys.len()
            invariant
                j <= self.sorter.keys@.len(),
                self.sorter.is_valid(),
                row@.len() == j,
                forall|k: int|
                    0 <= k < j ==> reads_as(
                        #[trigger] row@[k],
                        key_bytes(item@, self.sorter.keys@[k], self.sorter.tab),
                        self.sorter.keys@[k].kind,
                    ),
            decreases self.sorter.keys@.len() - j,
        {
            let key = &self.sorter.keys[j];
            row.push(decorate(extract(item, key, self.sorter.tab), key.kind));
            j += 1;
        }
        row
    }
}

/// Lines with the positions of their keys in a table.
struct TabledLines<'a, 's> {
    sorter: &'s Sorter,
    rows: &'s Vec<Vec<Dec<'a>>>,
}

impl<'a, 's> TabledLines<'a, 's> {
    /// Compares the keys of two rows.
    fn compare_rows(&self, a: &Vec<Dec<'a>>, b: &Vec<Dec<'a>>) -> (o: Ordering)
        requires
            a@.len() == self.sorter.keys@.len(),
            b@.len() == self.sorter.keys@.len(),
        ensures
            forall|x: Seq<u8>, y: Seq<u8>|
                #![trigger row_reads_as(a@, x, *self.sorter), row_reads_as(b@, y, *self.sorter)]
                row_reads_as(a@, x, *self.sorter) && row_reads_as(b@, y, *self.sorter) ==> o
                    == self.sorter.key_order(x, y),
    {
        let ghost keys = self.sorter.keys@;
        let ghost tab = self.sorter.tab;
        let mut j: usize = 0;
        assert(keys.skip(0) =~= keys);
        while j < self.sorter.keys.len()
            invariant
                keys == self.sorter.keys@,
                tab == self.sorter.tab,
                a@.len() == keys.len(),
                b@.len() == keys.len(),
                j <= keys.len(),
                forall|x: Seq<u8>, y: Seq<u8>|
                    #![trigger row_reads_as(a@, x, *self.sorter), row_reads_as(b@, y, *self.sorter)]
                    row_reads_as(a@, x, *self.sorter) && row_reads_as(b@, y, *self.sorter)
                        ==> keys_order(keys.skip(ix(j)), tab, x, y) == self.sorter.key_order(x, y),
            decreases keys.len() - j,
        {
            let key = &self.sorter.keys[j];
            let mut o = compare_decorated(&a[j], &b[j], key.kind, key.fold);
            if key.reverse {
                o = flip(o);
            }
            proof {
                assert forall|x: Seq<u8>, y: Seq<u8>|
                    #![trigger row_reads_as(a@, x, *self.sorter), row_reads_as(b@, y, *self.sorter)]
                    row_reads_as(a@, x, *self.sorter) && row_reads_as(b@, y, *self.sorter)
                    implies self.sorter.key_order(x, y) == tie_broken(
                    o,
                    keys_order(keys.skip(j + 1), tab, x, y),
                ) by {
                    assert(reads_as(a@[ix(j)], key_bytes(x, keys[ix(j)], tab), keys[ix(j)].kind));
                    assert(reads_as(b@[ix(j)], key_bytes(y, keys[ix(j)], tab), keys[ix(j)].kind));
                    assert(keys.skip(ix(j)).drop_first() =~= keys.skip(j + 1));
                }
            }
            match o {
                Ordering::Equal => {},
                _ => {
                    return o;
                },
            }
            j += 1;
        }
        Ordering::Equal
    }
}

impl<'a, 's> ItemOrder<(usize, &'a [u8])> for TabledLines<'a, 's> {
    closed spec fn admits(&self, item: (usize, &'a [u8])) -> bool {
        &&& item.0 < self.rows@.len()
        &&& row_reads_as(self.rows@[ix(item.0)]@, item.1@, *self.sorter)
    }

    closed spec fn item_order(&self) -> spec_fn((usize, &'a [u8]), (usize, &'a [u8])) -> Ordering {
        |a: (usize, &'a [u8]), b: (usize, &'a [u8])| self.sorter.order(a.1@, b.1@)
    }

    proof fn item_order_is_total(&self) {
        sorter_order_is_total(*self.sorter);
        lemma_pullback_is_total(
            self.item_order(),
            |a: Seq<u8>, b: Seq<u8>| self.sorter.order(a, b),
            |a: (usize, &'a [u8])| a.1@,
        );
    }

    fn compare_items(&self, a: &(usize, &'a [u8]), b: &(usize, &'a [u8])) -> (o: Ordering) {
        let o = self.compare_rows(&self.rows[a.0], &self.rows[b.0]);
        self.sorter.finish(o, a.1, b.1)
    }
}

impl<'a, 's> LineItems<(usize, &'a [u8])> for TabledLines<'a, 's> {
    type Line = Seq<u8>;

    closed spec fn line(&self, item: (usize, &'a [u8])) -> Seq<u8> {
        item.1@
    }

    closed spec fn line_order(&self) -> spec_fn(Seq<u8>, Seq<u8>) -> Ordering {
        by_sorter(*self.sorter)
    }

    closed spec fn same_line(&self) -> spec_fn(Seq<u8>, Seq<u8>) -> bool {
        same_keys(*self.sorter)
    }

    closed spec fn ties_are_identical(&self) -> bool {
        !self.sorter.suppress_last_resort
    }

    proof fn items_follow_lines(&self) {
        sorter_order_is_total(*self.sorter);
        assert(by_sorter(*self.sorter) =~= (|a: Seq<u8>, b: Seq<u8>| self.sorter.order(a, b)));
    }

    fn same_items(&self, a: &(usize, &'a [u8]), b: &(usize, &'a [u8])) -> (r: bool) {
        match self.compare_rows(&self.rows[a.0], &self.rows[b.0]) {
            Ordering::Equal => true,
            _ => false,
        }
    }
}

/// Sorts lines by any number of keys. Gives the lines, as many as `--top` asks
/// for, and how many `-u` removed.
pub fn general_order<'a>(lines: Vec<&'a [u8]>, cfg: &Config, sorter: &Sorter) -> (r: (Vec<&'a [u8]>, usize))
    requires
        sorter.is_valid(),
    ensures
        views(r.0@) == arranged(
            views(lines@),
            by_sorter(*sorter),
            same_keys(*sorter),
            cfg.unique,
            cfg.top,
        ),
        r.1 == lines@.len() - distinct(
            views(lines@),
            by_sorter(*sorter),
            same_keys(*sorter),
            cfg.unique,
        ).len(),
{
    if sorter.keys.len() == 1 {
        return single_key_order(lines, cfg, sorter);
    }
    let read = KeysOf { sorter };
    let rows: Vec<Vec<Dec<'a>>> = par_map(&lines, &read);
    let by = TabledLines { sorter, rows: &rows };
    let mut items: Vec<(usize, &'a [u8])> = Vec::new();
    let mut i: usize = 0;
    while i < lines.len()
        invariant
            i <= lines@.len(),
            rows@.len() == lines@.len(),
            by.sorter == sorter,
            by.rows@ == rows@,
            read.sorter == sorter,
            forall|k: int| 0 <= k < lines@.len() ==> read.maps_to(lines@[k], #[trigger] rows@[k]),
            items@.len() == i,
            all_admitted(&by, items@),
            forall|k: int| 0 <= k < i ==> by.line(#[trigger] items@[k]) == lines@[k]@,
        decreases lines@.len() - i,
    {
        assert(read.maps_to(lines@[ix(i)], rows@[ix(i)]));
        items.push((i, lines[i]));
        i += 1;
    }
    assert(lines_of(&by, items@) =~= views(lines@));
    let (out, removed) = arrange(items, &by, sorter.suppress_last_resort, cfg.unique, cfg.top);
    let mut plain: Vec<&'a [u8]> = Vec::new();
    let mut i: usize = 0;
    while i < out.len()
        invariant
            i <= out@.len(),
            plain@.len() == i,
            forall|k: int| 0 <= k < i ==> (#[trigger] plain@[k])@ == by.line(out@[k]),
        decreases out@.len() - i,
    {
        plain.push(out[i].1);
        i += 1;
    }
    assert(views(plain@) =~= lines_of(&by, out@));
    (plain, removed)
}

} // verus!
