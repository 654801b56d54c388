//! Sorting records of comma- or tab-separated values.

use crate::compare::{bytes_order_is_total, compare_kind, kind_order, kind_order_is_total};
use crate::compress::copy_of;
use crate::config::{texts, Config, Format};
use crate::diag::{lossy_text, push_bytes, text_of};
use crate::index::{ix, nat_int};
use crate::input::{buffers, read_all, Input};
use crate::key::{key_position, kind_from_opts, kind_of_letters, parse_pos, Kind};
use crate::lex::{
    bytes_order, bytes_order_ties_only_equal, compare_bytes, lemma_lex_equal, lex, lex_order,
    lex_order_is_total,
};
use crate::lines::{arrange, arranged, distinct, lines_of, LineItems};
use crate::merge::concatenated;
use crate::order::{
    directed, flip, is_total_order, lemma_directed_is_total, lemma_pullback_is_total,
    lemma_tie_broken_is_total, tie_broken,
};
use crate::outcome::{record_stats, succeed, success, Run, RunError, Stats};
use crate::parallel::ItemOrder;
use crate::text::{lead, NEWLINE, TAB};
use crate::words::{char_other_than, char_position, chars_of, digit_char, has_char, is_digit_char, joined};
use std::cmp::Ordering;
use vstd::prelude::*;
use vstd::string::{StrSliceExecFns, StringExecFns};
use vstd::utf8::encode_utf8;

verus! {

/// A comma.
pub const COMMA: u8 = 0x2c;

/// The fields of the header of data; `None` where it cannot be read.
pub uninterp spec fn csv_header(data: Seq<u8>, delim: u8) -> Option<Seq<Seq<u8>>>;

/// The fields of the records of data, with or without a header before them; `None`
/// where they cannot be read.
pub uninterp spec fn csv_rows(data: Seq<u8>, delim: u8, header: bool) -> Option<Seq<Seq<Seq<u8>>>>;

/// Records written as text; `None` where they cannot be written.
pub uninterp spec fn csv_text(rows: Seq<Seq<Seq<u8>>>, delim: u8) -> Option<Seq<u8>>;

/// The fields of records.
pub open spec fn row_views(rows: Seq<Vec<Vec<u8>>>) -> Seq<Seq<Seq<u8>>> {
    rows.map_values(|r: Vec<Vec<u8>>| buffers(r@))
}

/// Calls csv's `Reader::byte_headers` on a reader that takes records of any length:
/// the fields of the first record. The result has a name; nothing more is claimed
/// of it here.
#[verifier::external_body]
pub(crate) fn read_csv_header(data: &[u8], delim: u8) -> (r: Result<Vec<Vec<u8>>, csv::Error>)
    ensures
        match r {
            Ok(h) => csv_header(data@, delim) == Some(buffers(h@)),
            Err(_) => csv_header(data@, delim) is None,
        },
{
    let mut b = csv::ReaderBuilder::new();
    let mut reader = b.delimiter(delim).has_headers(true).flexible(true).from_reader(data);
    Ok(reader.byte_headers()?.iter().map(|f| f.to_vec()).collect())
}

/// Calls csv's `Reader::byte_records` on a reader that takes records of any length:
/// the fields of the records, behind the header where there is one. The result has
/// a name; nothing more is claimed of it here.
#[verifier::external_body]
pub(crate) fn read_csv_rows(data: &[u8], delim: u8, header: bool) -> (r: Result<
    Vec<Vec<Vec<u8>>>,
    csv::Error,
>)
    ensures
        match r {
            Ok(rows) => csv_rows(data@, delim, header) == Some(row_views(rows@)),
            Err(_) => csv_rows(data@, delim, header) is None,
        },
{
    let mut b = csv::ReaderBuilder::new();
    let mut reader = b.delimiter(delim).has_headers(header).flexible(true).from_reader(data);
    reader
        .byte_records()
        .map(|r| r.map(|rec| rec.iter().map(|f| f.to_vec()).collect()))
        .collect()
}

/// Calls csv's `Writer::write_byte_record` for each record in turn: the text of the
/// records. The result has a name; nothing more is claimed of it here.
#[verifier::external_body]
pub(crate) fn write_csv_rows(rows: &Vec<Vec<Vec<u8>>>, delim: u8) -> (r: Result<Vec<u8>, csv::Error>)
    ensures
        match r {
            Ok(text) => csv_text(row_views(rows@), delim) == Some(text@),
            Err(_) => csv_text(row_views(rows@), delim) is None,
        },
{
    let mut w = csv::WriterBuilder::new().delimiter(delim).from_writer(Vec::new());
    for row in rows {
        w.write_byte_record(&csv::ByteRecord::from(row.as_slice()))?;
    }
    w.into_inner().map_err(|e| e.into_error().into())
}

/// A column to sort by.
#[derive(Clone, Copy, Debug, PartialEq, Eq, Structural)]
pub struct ColKey {
    /// The column, counted from 0; `None` for the whole record.
    pub col: Option<usize>,
    /// How the column is ordered.
    pub kind: Kind,
    /// Fold case.
    pub fold: bool,
    /// Reverse the order.
    pub reverse: bool,
}

/// The names of columns as a list in a message.
pub open spec fn name_list(names: Seq<Seq<u8>>) -> Seq<char>
    decreases names.len(),
{
    if names.len() == 0 {
        Seq::empty()
    } else if names.len() == 1 {
        lossy_text(names[0])
    } else {
        name_list(names.drop_last()) + ", "@ + lossy_text(names.last())
    }
}

/// Where a name first stands among the columns.
pub open spec fn column_of(names: Seq<Seq<u8>>, name: Seq<u8>, from: int) -> Option<int>
    decreases names.len() - from,
{
    if from < 0 || from >= names.len() {
        None
    } else if names[from] == name {
        Some(from)
    } else {
        column_of(names, name, from + 1)
    }
}

/// The column that a key specification names by its number, `N[OPTS][,N[OPTS]]`;
/// or what is wrong with it. Without option letters it takes all options from
/// `global`.
pub open spec fn numbered_column(spec: Seq<char>, global: ColKey) -> Result<ColKey, Seq<char>> {
    let n = lead(spec, char_other_than(','));
    let start = key_position(spec.take(n));
    let end = key_position(spec.skip(n + 1));
    if start is Err {
        Err(start->Err_0)
    } else if n < spec.len() && end is Err {
        Err(end->Err_0)
    } else {
        let (field, ch, letters) = start->Ok_0;
        let (end_field, end_ch, end_letters) = if n < spec.len() {
            end->Ok_0
        } else {
            (field, 0nat, Seq::empty())
        };
        let all = letters + end_letters;
        if end_field != field {
            Err("multi-column key ranges are not supported for CSV/TSV: '"@ + spec + "'"@)
        } else if ch != 0 || end_ch != 0 {
            Err("character positions are not supported for CSV/TSV columns: '"@ + spec + "'"@)
        } else {
            Ok(
                ColKey {
                    col: Some((field - 1) as usize),
                    kind: if all.len() == 0 {
                        global.kind
                    } else {
                        kind_of_letters(all)
                    },
                    fold: if all.len() == 0 {
                        global.fold
                    } else {
                        all.contains('f')
                    },
                    reverse: if all.len() == 0 {
                        global.reverse
                    } else {
                        all.contains('r')
                    },
                },
            )
        }
    }
}

/// The column that a key specification names, by its number or, where the data has
/// a header, by its name; or what is wrong with it.
pub open spec fn column_key(spec: Seq<char>, names: Option<Seq<Seq<u8>>>, global: ColKey) -> Result<ColKey, Seq<char>> {
    if spec.len() > 0 && (digit_char())(spec[0]) {
        numbered_column(spec, global)
    } else {
        match names {
            None => Err("column name '"@ + spec + "' requires --header for CSV/TSV"@),
            Some(names) => match column_of(names, encode_utf8(spec), 0) {
                Some(i) => Ok(ColKey { col: Some(i as usize), ..global }),
                None => Err("no column named '"@ + spec + "'; available: "@ + name_list(names)),
            },
        }
    }
}

/// The columns that specifications name, or what is wrong with the first bad one.
pub open spec fn column_keys(specs: Seq<Seq<char>>, names: Option<Seq<Seq<u8>>>, global: ColKey) -> Result<Seq<ColKey>, Seq<char>>
    decreases specs.len(),
{
    if specs.len() == 0 {
        Ok(Seq::empty())
    } else {
        match column_keys(specs.drop_last(), names, global) {
            Ok(keys) => match column_key(specs.last(), names, global) {
                Ok(key) => Ok(keys.push(key)),
                Err(e) => Err(e),
            },
            Err(e) => Err(e),
        }
    }
}

/// The key that covers the whole record, with the global options.
pub open spec fn global_key(cfg: Config) -> ColKey {
    ColKey { col: None, kind: cfg.kind(), fold: cfg.fold_case, reverse: cfg.reverse }
}

/// The columns that a job sorts by: those given, or the whole record.
pub open spec fn job_columns(cfg: Config, names: Option<Seq<Seq<u8>>>) -> Result<Seq<ColKey>, Seq<char>> {
    if cfg.keys@.len() == 0 {
        Ok(seq![global_key(cfg)])
    } else {
        column_keys(texts(cfg.keys@), names, global_key(cfg))
    }
}

/// The names of the columns, where the data has a header.
pub open spec fn header_names(headers: Option<&Vec<Vec<u8>>>) -> Option<Seq<Seq<u8>>> {
    match headers {
        Some(h) => Some(buffers(h@)),
        None => None,
    }
}

fn same_bytes(a: &[u8], b: &[u8]) -> (r: bool)
    ensures
        r == (a@ == b@),
{
    if a.len() != b.len() {
        return false;
    }
    let mut i: usize = 0;
    while i < a.len()
        invariant
            i <= a@.len(),
            a@.len() == b@.len(),
            forall|k: int| 0 <= k < i ==> #[trigger] a@[k] == b@[k],
        decreases a@.len() - i,
    {
        if a[i] != b[i] {
            return false;
        }
        i += 1;
    }
    assert(a@ =~= b@);
    true
}

/// The position of a name among the columns.
fn find_column(names: &Vec<Vec<u8>>, name: &[u8]) -> (r: Option<usize>)
    ensures
        match r {
            Some(i) => column_of(buffers(names@), name@, 0) == Some(i as int),
            None => column_of(buffers(names@), name@, 0) is None,
        },
{
    let mut i: usize = 0;
    while i < names.len()
        invariant
            i <= names@.len(),
            column_of(buffers(names@), name@, 0) == column_of(buffers(names@), name@, i as int),
        decreases names@.len() - i,
    {
        if same_bytes(names[i].as_slice(), name) {
            return Some(i);
        }
        i += 1;
    }
    None
}

/// The names of the columns as a list.
fn list_names(names: &Vec<Vec<u8>>) -> (r: String)
    ensures
        r@ == name_list(buffers(names@)),
{
    let mut r = String::new();
    let mut i: usize = 0;
    let ghost all = buffers(names@);
    assert(all.take(0) =~= Seq::<Seq<u8>>::empty());
    while i < names.len()
        invariant
            i <= names@.len(),
            all == buffers(names@),
            r@ == name_list(all.take(i as int)),
        decreases names@.len() - i,
    {
        let ghost before = r@;
        proof {
            assert(all.take(i + 1).drop_last() =~= all.take(i as int));
            assert(all.take(i + 1).last() == names@[i as int]@);
        }
        if i > 0 {
            r.append(", ");
        }
        r.append(text_of(names[i].as_slice()).as_str());
        proof {
            if i == 0 {
                assert(before =~= Seq::<char>::empty());
                assert(before + lossy_text(all[0]) =~= lossy_text(all[0]));
                assert(all.take(1)[0] == all[0]);
            }
        }
        i += 1;
    }
    assert(all.take(i as int) =~= all);
    r
}

/// Reads a column specification that starts with a number.
fn parse_numbered_column(spec: &str, global: &ColKey) -> (r: Result<ColKey, String>)
    ensures
        match r {
            Ok(key) => numbered_column(spec@, *global) == Ok::<ColKey, Seq<char>>(key),
            Err(e) => numbered_column(spec@, *global) == Err::<ColKey, Seq<char>>(e@),
        },
{
    let c = chars_of(spec);
    let n: usize = char_position(&c, 0, ',');
    proof {
        assert(spec@.skip(0) =~= spec@);
        assert(spec@.subrange(0, n as int) =~= spec@.take(n as int));
    }
    let (field, ch, letters) = match parse_pos(spec.substring_char(0, n)) {
        Ok(p) => p,
        Err(e) => {
            return Err(e);
        },
    };
    let (end_field, end_ch, end_letters) = if n < c.len() {
        let rest = spec.substring_char(n + 1, c.len());
        assert(rest@ =~= spec@.skip(n + 1));
        match parse_pos(rest) {
            Ok(p) => p,
            Err(e) => {
                return Err(e);
            },
        }
    } else {
        (field, 0, String::new())
    };
    if end_field != field {
        return Err(
            joined("multi-column key ranges are not supported for CSV/TSV: '", spec, "'"),
        );
    }
    if ch != 0 || end_ch != 0 {
        return Err(
            joined("character positions are not supported for CSV/TSV columns: '", spec, "'"),
        );
    }
    let all = letters.concat(end_letters.as_str());
    if all.as_str().is_empty() {
        Ok(
            ColKey {
                col: Some(field - 1),
                kind: global.kind,
                fold: global.fold,
                reverse: global.reverse,
            },
        )
    } else {
        let every = chars_of(all.as_str());
        Ok(
            ColKey {
                col: Some(field - 1),
                kind: kind_from_opts(all.as_str()),
                fold: has_char(&every, 'f'),
                reverse: has_char(&every, 'r'),
            },
        )
    }
}

/// Reads one column specification.
fn parse_column(spec: &str, headers: Option<&Vec<Vec<u8>>>, global: &ColKey) -> (r: Result<ColKey, String>)
    ensures
        match r {
            Ok(key) => column_key(spec@, header_names(headers), *global) == Ok::<
                ColKey,
                Seq<char>,
            >(key),
            Err(e) => column_key(spec@, header_names(headers), *global) == Err::<
                ColKey,
                Seq<char>,
            >(e@),
        },
{
    let c = chars_of(spec);
    if c.len() > 0 && is_digit_char(c[0]) {
        return parse_numbered_column(spec, global);
    }
    match headers {
        None => Err(joined("column name '", spec, "' requires --header for CSV/TSV")),
        Some(names) => match find_column(names, spec.as_bytes()) {
            Some(i) => Ok(
                ColKey {
                    col: Some(i),
                    kind: global.kind,
                    fold: global.fold,
                    reverse: global.reverse,
                },
            ),
            None => {
                let mut e = joined("no column named '", spec, "'; available: ");
                e.append(list_names(names).as_str());
                Err(e)
            },
        },
    }
}

/// Reads the columns that a job sorts by.
pub fn parse_csv_keys(cfg: &Config, headers: Option<&Vec<Vec<u8>>>) -> (r: Result<Vec<ColKey>, String>)
    ensures
        match r {
            Ok(keys) => job_columns(*cfg, header_names(headers)) == Ok::<Seq<ColKey>, Seq<char>>(
                keys@,
            ),
            Err(e) => job_columns(*cfg, header_names(headers)) == Err::<Seq<ColKey>, Seq<char>>(
                e@,
            ),
        },
{
    let global = ColKey {
        col: None,
        kind: cfg.global_kind(),
        fold: cfg.fold_case,
        reverse: cfg.reverse,
    };
    let mut keys: Vec<ColKey> = Vec::new();
    if cfg.keys.len() == 0 {
        keys.push(global);
        assert(keys@ =~= seq![global_key(*cfg)]);
        return Ok(keys);
    }
    let ghost specs = texts(cfg.keys@);
    let ghost names = header_names(headers);
    let mut i: usize = 0;
    assert(specs.take(0) =~= Seq::<Seq<char>>::empty());
    assert(keys@ =~= Seq::<ColKey>::empty());
    while i < cfg.keys.len()
        invariant
            i <= cfg.keys@.len(),
            cfg.keys@.len() > 0,
            specs == texts(cfg.keys@),
            names == header_names(headers),
            global == global_key(*cfg),
            column_keys(specs.take(i as int), names, global) == Ok::<Seq<ColKey>, Seq<char>>(
                keys@,
            ),
        decreases cfg.keys@.len() - i,
    {
        proof {
            assert(specs.take(i + 1).drop_last() =~= specs.take(i as int));
            assert(specs.take(i + 1).last() == cfg.keys@[i as int]@);
        }
        match parse_column(cfg.keys[i].as_str(), headers, &global) {
            Ok(key) => {
                keys.push(key);
            },
            Err(e) => {
                proof {
                    lemma_bad_column(specs, i + 1, names, global);
                }
                return Err(e);
            },
        }
        i += 1;
    }
    assert(specs.take(i as int) =~= specs);
    Ok(keys)
}

/// A bad specification makes the whole list bad.
proof fn lemma_bad_column(specs: Seq<Seq<char>>, i: int, names: Option<Seq<Seq<u8>>>, global: ColKey)
    requires
        0 <= i <= specs.len(),
        column_keys(specs.take(i), names, global) is Err,
    ensures
        column_keys(specs, names, global) == column_keys(specs.take(i), names, global),
    decreases specs.len(),
{
    if i == specs.len() {
        assert(specs.take(i) =~= specs);
    } else {
        let rest = specs.drop_last();
        assert(rest.take(i) =~= specs.take(i));
        lemma_bad_column(rest, i, names, global);
    }
}

/// A record: its fields, and all of them in one.
#[derive(Debug)]
pub struct CsvRecord {
    /// The fields.
    pub fields: Vec<Vec<u8>>,
    /// The fields one behind the other.
    pub whole: Vec<u8>,
}

impl CsvRecord {
    /// `whole` holds the fields one behind the other.
    pub open spec fn is_valid(&self) -> bool {
        self.whole@ == concatenated(buffers(self.fields@))
    }

    /// A record of the given fields.
    pub fn new(fields: Vec<Vec<u8>>) -> (r: CsvRecord)
        ensures
            r.is_valid(),
            r.fields@ == fields@,
    {
        let mut whole: Vec<u8> = Vec::new();
        let mut i: usize = 0;
        let ghost all = buffers(fields@);
        assert(all.take(0) =~= Seq::<Seq<u8>>::empty());
        assert(whole@ =~= Seq::<u8>::empty());
        while i < fields.len()
            invariant
                i <= fields@.len(),
                all == buffers(fields@),
                whole@ == concatenated(all.take(i as int)),
            decreases fields@.len() - i,
        {
            proof {
                assert(all.take(i + 1).drop_last() =~= all.take(i as int));
                assert(all.take(i + 1).last() == fields@[i as int]@);
            }
            push_bytes(&mut whole, fields[i].as_slice());
            i += 1;
        }
        assert(all.take(i as int) =~= all);
        CsvRecord { fields, whole }
    }
}

/// The bytes of a record that a column holds: nothing where the record has no such
/// column.
pub open spec fn column_bytes(rec: Seq<Seq<u8>>, col: Option<usize>) -> Seq<u8> {
    match col {
        None => concatenated(rec),
        Some(i) => if i < rec.len() {
            rec[i as int]
        } else {
            Seq::empty()
        },
    }
}

/// The bytes of `rec` in a column.
pub fn field(rec: &CsvRecord, col: Option<usize>) -> (r: &[u8])
    requires
        rec.is_valid(),
    ensures
        r@ == column_bytes(buffers(rec.fields@), col),
{
    match col {
        None => rec.whole.as_slice(),
        Some(i) => if i < rec.fields.len() {
            rec.fields[i].as_slice()
        } else {
            let none = &rec.whole.as_slice()[0..0];
            assert(none@ =~= Seq::<u8>::empty());
            none
        },
    }
}

/// The lengths of the fields of a record.
pub open spec fn field_lengths(rec: Seq<Seq<u8>>) -> Seq<int> {
    rec.map_values(|f: Seq<u8>| nat_int(f.len()))
}

/// The order of two records by the lengths of their fields, which tells records
/// apart whose fields hold the same bytes one behind the other.
pub open spec fn layout_order(a: Seq<Seq<u8>>, b: Seq<Seq<u8>>) -> Ordering {
    lex_order(field_lengths(a), field_lengths(b))
}

/// The order of two records by one column.
pub open spec fn one_column_order(key: ColKey, a: Seq<Seq<u8>>, b: Seq<Seq<u8>>) -> Ordering {
    directed(
        kind_order(key.kind, key.fold, column_bytes(a, key.col), column_bytes(b, key.col)),
        key.reverse,
    )
}

/// The order of two records by several columns: the first that tells them apart
/// decides.
pub open spec fn columns_order(keys: Seq<ColKey>, a: Seq<Seq<u8>>, b: Seq<Seq<u8>>) -> Ordering
    decreases keys.len(),
{
    if keys.len() == 0 {
        Ordering::Equal
    } else {
        tie_broken(one_column_order(keys[0], a, b), columns_order(keys.drop_first(), a, b))
    }
}

/// The order of two whole records as raw bytes.
pub open spec fn whole_order(a: Seq<Seq<u8>>, b: Seq<Seq<u8>>) -> Ordering {
    tie_broken(bytes_order(concatenated(a), concatenated(b)), layout_order(a, b))
}

/// The order of two records: by the columns, and unless `suppress` then by all
/// their bytes and by the lengths of their fields.
pub open spec fn record_order(keys: Seq<ColKey>, suppress: bool, a: Seq<Seq<u8>>, b: Seq<Seq<u8>>) -> Ordering {
    if suppress {
        columns_order(keys, a, b)
    } else {
        tie_broken(columns_order(keys, a, b), whole_order(a, b))
    }
}

/// [`record_order`] as a function.
pub open spec fn by_record(keys: Seq<ColKey>, suppress: bool) -> spec_fn(
    Seq<Seq<u8>>,
    Seq<Seq<u8>>,
) -> Ordering {
    |a: Seq<Seq<u8>>, b: Seq<Seq<u8>>| record_order(keys, suppress, a, b)
}

/// Some key compares whole records as text.
pub open spec fn has_whole_text(keys: Seq<ColKey>) -> bool {
    exists|i: int| 0 <= i < keys.len() && is_whole_text(#[trigger] keys[i])
}

/// The key compares whole records as text.
pub open spec fn is_whole_text(key: ColKey) -> bool {
    key.col is None && key.kind == Kind::Bytes
}

/// The order of two records under `-u`: by the columns, and where whole records are
/// compared as text also by the lengths of their fields, so that records with other
/// fields are not taken for the same.
pub open spec fn distinct_order(keys: Seq<ColKey>, a: Seq<Seq<u8>>, b: Seq<Seq<u8>>) -> Ordering {
    if has_whole_text(keys) {
        tie_broken(columns_order(keys, a, b), layout_order(a, b))
    } else {
        columns_order(keys, a, b)
    }
}

/// Whether two records are the same under `-u`.
pub open spec fn same_columns(keys: Seq<ColKey>) -> spec_fn(Seq<Seq<u8>>, Seq<Seq<u8>>) -> bool {
    |a: Seq<Seq<u8>>, b: Seq<Seq<u8>>| distinct_order(keys, a, b) == Ordering::Equal
}

/// The order in which a job puts records: under `-u` as [`distinct_order`] says,
/// otherwise as [`record_order`] does, ties left as they are with `-s`.
pub open spec fn job_order(keys: Seq<ColKey>, stable: bool, unique: bool) -> spec_fn(
    Seq<Seq<u8>>,
    Seq<Seq<u8>>,
) -> Ordering {
    if unique {
        |a: Seq<Seq<u8>>, b: Seq<Seq<u8>>| distinct_order(keys, a, b)
    } else {
        by_record(keys, stable)
    }
}

/// Compares two records by the lengths of their fields.
fn compare_layout(a: &Vec<Vec<u8>>, b: &Vec<Vec<u8>>) -> (o: Ordering)
    ensures
        o == layout_order(buffers(a@), buffers(b@)),
{
    let ghost x = field_lengths(buffers(a@));
    let ghost y = field_lengths(buffers(b@));
    let mut i: usize = 0;
    assert(x.skip(0) =~= x);
    assert(y.skip(0) =~= y);
    while i < a.len() && i < b.len()
        invariant
            i <= a@.len(),
            i <= b@.len(),
            x == field_lengths(buffers(a@)),
            y == field_lengths(buffers(b@)),
            lex_order(x, y) == lex_order(x.skip(ix(i)), y.skip(ix(i))),
        decreases a@.len() - i,
    {
        proof {
            assert(x.skip(ix(i))[0] == a@[ix(i)]@.len());
            assert(y.skip(ix(i))[0] == b@[ix(i)]@.len());
            assert(x.skip(ix(i)).drop_first() =~= x.skip(i + 1));
            assert(y.skip(ix(i)).drop_first() =~= y.skip(i + 1));
        }
        if a[i].len() < b[i].len() {
            return Ordering::Less;
        }
        if a[i].len() > b[i].len() {
            return Ordering::Greater;
        }
        i += 1;
    }
    if a.len() < b.len() {
        Ordering::Less
    } else if a.len() > b.len() {
        Ordering::Greater
    } else {
        Ordering::Equal
    }
}

/// Compares two records by the columns.
fn compare_columns(a: &CsvRecord, b: &CsvRecord, keys: &Vec<ColKey>) -> (o: Ordering)
    requires
        a.is_valid(),
        b.is_valid(),
    ensures
        o == columns_order(keys@, buffers(a.fields@), buffers(b.fields@)),
{
    let ghost x = buffers(a.fields@);
    let ghost y = buffers(b.fields@);
    let mut i: usize = 0;
    assert(keys@.skip(0) =~= keys@);
    while i < keys.len()
        invariant
            a.is_valid(),
            b.is_valid(),
            x == buffers(a.fields@),
            y == buffers(b.fields@),
            i <= keys@.len(),
            columns_order(keys@, x, y) == columns_order(keys@.skip(ix(i)), x, y),
        decreases keys@.len() - i,
    {
        let key = &keys[i];
        assert(keys@.skip(ix(i)).drop_first() =~= keys@.skip(i + 1));
        let o = compare_kind(field(a, key.col), field(b, key.col), key.kind, key.fold);
        match o {
            Ordering::Equal => {},
            _ => {
                return if key.reverse {
                    flip(o)
                } else {
                    o
                };
            },
        }
        i += 1;
    }
    Ordering::Equal
}

/// Compares two records: by the columns, and unless `suppress` then by all their
/// bytes and by the lengths of their fields.
pub fn cmp_records(a: &CsvRecord, b: &CsvRecord, keys: &Vec<ColKey>, suppress: bool) -> (o: Ordering)
    requires
        a.is_valid(),
        b.is_valid(),
    ensures
        o == record_order(keys@, suppress, buffers(a.fields@), buffers(b.fields@)),
{
    let o = compare_columns(a, b, keys);
    match o {
        Ordering::Equal => if suppress {
            o
        } else {
            let whole = compare_bytes(a.whole.as_slice(), b.whole.as_slice());
            match whole {
                Ordering::Equal => compare_layout(&a.fields, &b.fields),
                _ => whole,
            }
        },
        _ => o,
    }
}

/// Whether some key compares whole records as text.
fn compares_whole_text(keys: &Vec<ColKey>) -> (r: bool)
    ensures
        r == has_whole_text(keys@),
{
    let mut i: usize = 0;
    while i < keys.len()
        invariant
            i <= keys@.len(),
            forall|k: int| 0 <= k < i ==> !is_whole_text(#[trigger] keys@[k]),
        decreases keys@.len() - i,
    {
        if keys[i].col.is_none() && keys[i].kind == Kind::Bytes {
            assert(is_whole_text(keys@[ix(i)]));
            return true;
        }
        i += 1;
    }
    false
}

/// Compares two records as `-u` does.
fn compare_distinct(a: &CsvRecord, b: &CsvRecord, keys: &Vec<ColKey>) -> (o: Ordering)
    requires
        a.is_valid(),
        b.is_valid(),
    ensures
        o == distinct_order(keys@, buffers(a.fields@), buffers(b.fields@)),
{
    let o = compare_columns(a, b, keys);
    match o {
        Ordering::Equal => if compares_whole_text(keys) {
            compare_layout(&a.fields, &b.fields)
        } else {
            o
        },
        _ => o,
    }
}

/// Whether two records are the same under `-u`.
pub fn keys_equal(a: &CsvRecord, b: &CsvRecord, keys: &Vec<ColKey>) -> (r: bool)
    requires
        a.is_valid(),
        b.is_valid(),
    ensures
        r == (distinct_order(keys@, buffers(a.fields@), buffers(b.fields@)) == Ordering::Equal),
{
    match compare_distinct(a, b, keys) {
        Ordering::Equal => true,
        _ => false,
    }
}

proof fn lemma_layout_is_total()
    ensures
        is_total_order(|a: Seq<Seq<u8>>, b: Seq<Seq<u8>>| layout_order(a, b)),
{
    lex_order_is_total();
    lemma_pullback_is_total(
        |a: Seq<Seq<u8>>, b: Seq<Seq<u8>>| layout_order(a, b),
        lex(),
        |a: Seq<Seq<u8>>| field_lengths(a),
    );
}

/// The order of records by columns is total.
pub proof fn columns_order_is_total(keys: Seq<ColKey>)
    ensures
        is_total_order(|a: Seq<Seq<u8>>, b: Seq<Seq<u8>>| columns_order(keys, a, b)),
    decreases keys.len(),
{
    if keys.len() > 0 {
        let key = keys[0];
        let rest = keys.drop_first();
        let c = |a: Seq<u8>, b: Seq<u8>| kind_order(key.kind, key.fold, a, b);
        let d = |a: Seq<Seq<u8>>, b: Seq<Seq<u8>>|
            kind_order(key.kind, key.fold, column_bytes(a, key.col), column_bytes(b, key.col));
        let e = |a: Seq<Seq<u8>>, b: Seq<Seq<u8>>| one_column_order(key, a, b);
        kind_order_is_total(key.kind, key.fold);
        lemma_pullback_is_total(d, c, |a: Seq<Seq<u8>>| column_bytes(a, key.col));
        lemma_directed_is_total(e, d, key.reverse);
        columns_order_is_total(rest);
        lemma_tie_broken_is_total(
            |a: Seq<Seq<u8>>, b: Seq<Seq<u8>>| columns_order(keys, a, b),
            e,
            |a: Seq<Seq<u8>>, b: Seq<Seq<u8>>| columns_order(rest, a, b),
        );
    }
}

/// The order of records is total.
pub proof fn record_order_is_total(keys: Seq<ColKey>, suppress: bool)
    ensures
        is_total_order(by_record(keys, suppress)),
{
    let columns = |a: Seq<Seq<u8>>, b: Seq<Seq<u8>>| columns_order(keys, a, b);
    let bytes = |a: Seq<u8>, b: Seq<u8>| bytes_order(a, b);
    let joined = |a: Seq<Seq<u8>>, b: Seq<Seq<u8>>|
        bytes_order(concatenated(a), concatenated(b));
    let layout = |a: Seq<Seq<u8>>, b: Seq<Seq<u8>>| layout_order(a, b);
    let whole = |a: Seq<Seq<u8>>, b: Seq<Seq<u8>>| whole_order(a, b);
    columns_order_is_total(keys);
    bytes_order_is_total();
    lemma_pullback_is_total(joined, bytes, |a: Seq<Seq<u8>>| concatenated(a));
    lemma_layout_is_total();
    lemma_tie_broken_is_total(whole, joined, layout);
    if suppress {
        lemma_pullback_is_total(by_record(keys, suppress), columns, |a: Seq<Seq<u8>>| a);
    } else {
        lemma_tie_broken_is_total(by_record(keys, suppress), columns, whole);
    }
}

/// The order in which a job puts records is total.
pub proof fn job_order_is_total(keys: Seq<ColKey>, stable: bool, unique: bool)
    ensures
        is_total_order(job_order(keys, stable, unique)),
{
    if unique {
        let columns = |a: Seq<Seq<u8>>, b: Seq<Seq<u8>>| columns_order(keys, a, b);
        columns_order_is_total(keys);
        if has_whole_text(keys) {
            lemma_layout_is_total();
            lemma_tie_broken_is_total(
                job_order(keys, stable, unique),
                columns,
                |a: Seq<Seq<u8>>, b: Seq<Seq<u8>>| layout_order(a, b),
            );
        } else {
            lemma_pullback_is_total(job_order(keys, stable, unique), columns, |a: Seq<Seq<u8>>| a);
        }
    } else {
        record_order_is_total(keys, stable);
    }
}

/// The bytes of the fields, one behind the other, and their lengths make a record.
proof fn lemma_layout_makes_record(a: Seq<Seq<u8>>, b: Seq<Seq<u8>>)
    requires
        concatenated(a) == concatenated(b),
        field_lengths(a) == field_lengths(b),
    ensures
        a == b,
    decreases a.len(),
{
    assert(field_lengths(a).len() == a.len());
    assert(field_lengths(b).len() == b.len());
    if a.len() > 0 {
        let n = a.len() - 1;
        let (p, q) = (a.drop_last(), b.drop_last());
        assert(field_lengths(p) =~= field_lengths(a).drop_last());
        assert(field_lengths(q) =~= field_lengths(b).drop_last());
        assert(field_lengths(a)[n] == a.last().len());
        assert(field_lengths(b)[n] == b.last().len());
        let m = nat_int(concatenated(p).len());
        assert(nat_int(concatenated(q).len()) == m) by {
            assert(concatenated(a).len() == m + a.last().len());
            assert(concatenated(b).len() == concatenated(q).len() + b.last().len());
        }
        assert(concatenated(p) =~= concatenated(a).take(m));
        assert(concatenated(q) =~= concatenated(b).take(m));
        assert(a.last() =~= concatenated(a).skip(m));
        assert(b.last() =~= concatenated(b).skip(m));
        lemma_layout_makes_record(p, q);
        assert(a =~= p.push(a.last()));
        assert(b =~= q.push(b.last()));
    } else {
        assert(a =~= b);
    }
}

/// Where no column is given and case counts, only identical records are the same.
pub proof fn whole_records_tie_only_when_identical(key: ColKey, a: Seq<Seq<u8>>, b: Seq<Seq<u8>>)
    requires
        key.col is None,
        key.kind == Kind::Bytes,
        !key.fold,
    ensures
        (same_columns(seq![key]))(a, b) <==> a == b,
{
    reveal_with_fuel(columns_order, 2);
    assert(is_whole_text(seq![key][0]));
    bytes_order_ties_only_equal(concatenated(a), concatenated(b));
    lemma_lex_equal(field_lengths(a), field_lengths(b));
    if concatenated(a) == concatenated(b) && field_lengths(a) == field_lengths(b) {
        lemma_layout_makes_record(a, b);
    }
}

/// Records by their positions in a table.
struct TableRows<'s> {
    records: &'s Vec<CsvRecord>,
    keys: &'s Vec<ColKey>,
    stable: bool,
    unique: bool,
}

impl<'s> ItemOrder<usize> for TableRows<'s> {
    closed spec fn admits(&self, item: usize) -> bool {
        item < self.records@.len() && self.records@[ix(item)].is_valid()
    }

    closed spec fn item_order(&self) -> spec_fn(usize, usize) -> Ordering {
        |a: usize, b: usize|
            (job_order(self.keys@, self.stable, self.unique))(
                buffers(self.records@[ix(a)].fields@),
                buffers(self.records@[ix(b)].fields@),
            )
    }

    proof fn item_order_is_total(&self) {
        job_order_is_total(self.keys@, self.stable, self.unique);
        lemma_pullback_is_total(
            self.item_order(),
            job_order(self.keys@, self.stable, self.unique),
            |a: usize| buffers(self.records@[ix(a)].fields@),
        );
    }

    fn compare_items(&self, a: &usize, b: &usize) -> (o: Ordering) {
        if self.unique {
            compare_distinct(&self.records[*a], &self.records[*b], self.keys)
        } else {
            cmp_records(&self.records[*a], &self.records[*b], self.keys, self.stable)
        }
    }
}

impl<'s> LineItems<usize> for TableRows<'s> {
    type Line = Seq<Seq<u8>>;

    closed spec fn line(&self, item: usize) -> Seq<Seq<u8>> {
        buffers(self.records@[ix(item)].fields@)
    }

    closed spec fn line_order(&self) -> spec_fn(Seq<Seq<u8>>, Seq<Seq<u8>>) -> Ordering {
        job_order(self.keys@, self.stable, self.unique)
    }

    closed spec fn same_line(&self) -> spec_fn(Seq<Seq<u8>>, Seq<Seq<u8>>) -> bool {
        same_columns(self.keys@)
    }

    closed spec fn ties_are_identical(&self) -> bool {
        false
    }

    proof fn items_follow_lines(&self) {
        job_order_is_total(self.keys@, self.stable, self.unique);
    }

    fn same_items(&self, a: &usize, b: &usize) -> (r: bool) {
        keys_equal(&self.records[*a], &self.records[*b], self.keys)
    }
}

/// The records that a job writes.
pub open spec fn arranged_rows(rows: Seq<Seq<Seq<u8>>>, cfg: Config, keys: Seq<ColKey>) -> Seq<Seq<Seq<u8>>> {
    arranged(
        rows,
        job_order(keys, cfg.stable, cfg.unique),
        same_columns(keys),
        cfg.unique,
        cfg.top,
    )
}

/// The records that a job keeps before `--top` cuts them off.
pub open spec fn distinct_rows(rows: Seq<Seq<Seq<u8>>>, cfg: Config, keys: Seq<ColKey>) -> Seq<Seq<Seq<u8>>> {
    distinct(rows, job_order(keys, cfg.stable, cfg.unique), same_columns(keys), cfg.unique)
}

fn copy_fields(fields: &Vec<Vec<u8>>) -> (r: Vec<Vec<u8>>)
    ensures
        buffers(r@) == buffers(fields@),
{
    let mut r: Vec<Vec<u8>> = Vec::new();
    let mut i: usize = 0;
    while i < fields.len()
        invariant
            i <= fields@.len(),
            r@.len() == i,
            forall|k: int| 0 <= k < i ==> (#[trigger] r@[k])@ == fields@[k]@,
        decreases fields@.len() - i,
    {
        r.push(copy_of(fields[i].as_slice()));
        i += 1;
    }
    assert(buffers(r@) =~= buffers(fields@));
    r
}

/// Puts records in order: sorted, without repeated keys where `-u` asks for it, and
/// cut off at `--top`. Records that tie keep their order. Gives the records and how
/// many `-u` removed.
pub fn arrange_records(rows: &Vec<Vec<Vec<u8>>>, cfg: &Config, keys: &Vec<ColKey>) -> (r: (
    Vec<Vec<Vec<u8>>>,
    usize,
))
    ensures
        row_views(r.0@) == arranged_rows(row_views(rows@), *cfg, keys@),
        r.1 == rows@.len() - distinct_rows(row_views(rows@), *cfg, keys@).len(),
{
    let mut records: Vec<CsvRecord> = Vec::new();
    let mut items: Vec<usize> = Vec::new();
    let mut i: usize = 0;
    while i < rows.len()
        invariant
            i <= rows@.len(),
            records@.len() == i,
            items@.len() == i,
            forall|k: int|
                0 <= k < i ==> (#[trigger] records@[k]).is_valid() && buffers(records@[k].fields@)
                    == buffers(rows@[k]@),
            forall|k: int| 0 <= k < i ==> #[trigger] items@[k] == k,
        decreases rows@.len() - i,
    {
        records.push(CsvRecord::new(copy_fields(&rows[i])));
        items.push(i);
        i += 1;
    }
    let by = TableRows { records: &records, keys, stable: cfg.stable, unique: cfg.unique };
    proof {
        assert forall|k: int| 0 <= k < items@.len() implies by.admits(#[trigger] items@[k]) by {
            assert(records@[k].is_valid());
        }
        assert(lines_of(&by, items@) =~= row_views(rows@)) by {
            assert forall|k: int| 0 <= k < items@.len() implies #[trigger] lines_of(&by, items@)[k]
                == row_views(rows@)[k] by {
                assert(items@[k] == k);
                assert(records@[k].is_valid());
            }
        }
    }
    let (order, removed) = arrange(items, &by, true, cfg.unique, cfg.top);
    let mut out: Vec<Vec<Vec<u8>>> = Vec::new();
    let mut i: usize = 0;
    while i < order.len()
        invariant
            i <= order@.len(),
            by.records@ == records@,
            forall|k: int| 0 <= k < order@.len() ==> by.admits(#[trigger] order@[k]),
            out@.len() == i,
            forall|k: int| 0 <= k < i ==> buffers((#[trigger] out@[k])@) == by.line(order@[k]),
        decreases order@.len() - i,
    {
        assert(by.admits(order@[ix(i)]));
        out.push(copy_fields(&records[order[i]].fields));
        i += 1;
    }
    assert(row_views(out@) =~= lines_of(&by, order@));
    (out, removed)
}

/// The separator of a job: the one of `-t`, otherwise a tab or a comma.
pub open spec fn delimiter_of(cfg: Config) -> u8 {
    match cfg.tab {
        Some(t) => t,
        None => if cfg.format == Format::Tsv {
            TAB
        } else {
            COMMA
        },
    }
}

/// The header of a job's data, where it has one.
pub open spec fn header_of(cfg: Config, data: Seq<u8>) -> Option<Seq<Seq<u8>>> {
    if cfg.header {
        csv_header(data, delimiter_of(cfg))
    } else {
        None
    }
}

/// The rows that a job writes: the header, if there is one, and the records in
/// order.
pub open spec fn output_rows(cfg: Config, data: Seq<u8>, keys: Seq<ColKey>) -> Seq<Seq<Seq<u8>>> {
    let rows = arranged_rows(csv_rows(data, delimiter_of(cfg), cfg.header)->Some_0, cfg, keys);
    match header_of(cfg, data) {
        Some(h) => seq![h] + rows,
        None => rows,
    }
}

/// `run` is what sorting the records of `data` leaves behind.
pub open spec fn is_csv_run(cfg: Config, data: Seq<u8>, run: Run) -> bool {
    let d = delimiter_of(cfg);
    let keys = job_columns(cfg, header_of(cfg, data));
    let rows = csv_rows(data, d, cfg.header);
    &&& cfg.header ==> csv_header(data, d) is Some
    &&& keys is Ok
    &&& rows is Some
    &&& csv_text(output_rows(cfg, data, keys->Ok_0), d) is Some
    &&& run.output is Some
    &&& run.output->Some_0@ == csv_text(output_rows(cfg, data, keys->Ok_0), d)->Some_0
    &&& run.report@.len() == 0
    &&& run.outcome == success(
        cfg.stats,
        record_stats(
            rows->Some_0.len(),
            arranged_rows(rows->Some_0, cfg, keys->Ok_0).len(),
            distinct_rows(rows->Some_0, cfg, keys->Ok_0).len(),
        ),
    )
}

/// `e` is why the records of `data` cannot be sorted: the header cannot be read, a
/// key is wrong, or the records cannot be read or written.
pub open spec fn is_csv_fault(cfg: Config, data: Seq<u8>, e: RunError) -> bool {
    let d = delimiter_of(cfg);
    let keys = job_columns(cfg, header_of(cfg, data));
    let rows = csv_rows(data, d, cfg.header);
    match e {
        RunError::Csv(_) => {
            ||| cfg.header && csv_header(data, d) is None
            ||| keys is Ok && rows is None
            ||| keys is Ok && rows is Some && csv_text(output_rows(cfg, data, keys->Ok_0), d)
                is None
        },
        RunError::Invalid(m) => (cfg.header ==> csv_header(data, d) is Some) && keys == Err::<
            Seq<ColKey>,
            Seq<char>,
        >(m@),
        _ => false,
    }
}

/// Sorts records of comma- or tab-separated values.
pub fn run_csv(cfg: &Config, input: &Input) -> (r: Result<Run, RunError>)
    ensures
        match r {
            Ok(run) => input.is_readable() && is_csv_run(*cfg, input.text(NEWLINE), run),
            Err(RunError::Input(e)) => input.is_fault(e),
            Err(e) => input.is_readable() && is_csv_fault(*cfg, input.text(NEWLINE), e),
        },
{
    let delim: u8 = match cfg.tab {
        Some(t) => t,
        None => if cfg.format == Format::Tsv {
            TAB
        } else {
            COMMA
        },
    };
    let data: Vec<u8> = match read_all(input, NEWLINE) {
        Ok(data) => data,
        Err(e) => {
            return Err(RunError::Input(e));
        },
    };
    let header: Option<Vec<Vec<u8>>> = if cfg.header {
        match read_csv_header(data.as_slice(), delim) {
            Ok(h) => Some(h),
            Err(e) => {
                return Err(RunError::Csv(e));
            },
        }
    } else {
        None
    };
    let keys: Vec<ColKey> = match parse_csv_keys(cfg, header.as_ref()) {
        Ok(keys) => keys,
        Err(m) => {
            return Err(RunError::Invalid(m));
        },
    };
    let rows: Vec<Vec<Vec<u8>>> = match read_csv_rows(data.as_slice(), delim, cfg.header) {
        Ok(rows) => rows,
        Err(e) => {
            return Err(RunError::Csv(e));
        },
    };
    let lines_in: usize = rows.len();
    let (sorted, removed) = arrange_records(&rows, cfg, &keys);
    let mut sorted = sorted;
    let lines_out: usize = sorted.len();
    let ghost body = row_views(sorted@);
    proof {
        assert(body.len() == lines_out);
    }
    let mut all: Vec<Vec<Vec<u8>>> = Vec::new();
    if let Some(h) = header {
        all.push(h);
    }
    let ghost head = row_views(all@);
    all.append(&mut sorted);
    proof {
        assert(row_views(all@) =~= head + body);
        assert(row_views(all@) =~= output_rows(*cfg, data@, keys@));
    }
    match write_csv_rows(&all, delim) {
        Ok(text) => Ok(
            Run {
                output: Some(text),
                report: Vec::new(),
                outcome: succeed(
                    cfg.stats,
                    Stats {
                        lines_in,
                        lines_out,
                        duplicates_removed: removed,
                        chunks: None,
                    },
                ),
            },
        ),
        Err(e) => Err(RunError::Csv(e)),
    }
}

} // verus!
