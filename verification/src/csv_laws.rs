//! What the keys of a CSV job mean, and how they order records.

use crate::compare::kind_order;
use crate::config::{texts, Config, Format};
use crate::csv_format::{
    arranged_rows, column_bytes, column_key, column_keys, column_of, columns_order, csv_header,
    csv_rows, delimiter_of, field_lengths, global_key, header_of, is_whole_text, job_columns,
    job_order, layout_order, name_list, numbered_column, one_column_order, output_rows, ColKey,
};
use crate::diag::lossy_text;
use crate::index::{ix, nat_int};
use crate::key::{key_position, kind_of_letters, Kind};
use crate::lex::bytes_order;
use crate::order_laws::{goes_by_first_difference, lemma_image_goes_by_first_difference, opposite};
use crate::spec_laws::{
    are_digit_letters, char_value, is_digit_letter, is_position, lemma_split_at_comma,
    letters_value, position_text, positions_read_as_written, spec_text,
};
use crate::text::lemma_run_in_front;
use crate::words::{char_other_than, digit_char};
use std::cmp::Ordering;
use vstd::prelude::*;
use vstd::utf8::encode_utf8;

verus! {

/// A specification is taken for a number where it starts with a digit.
pub open spec fn is_number_spec(spec: Seq<char>) -> bool {
    spec.len() > 0 && is_digit_letter(spec[0])
}

proof fn lemma_number_spec(spec: Seq<char>, names: Option<Seq<Seq<u8>>>, global: ColKey)
    requires
        is_number_spec(spec),
    ensures
        column_key(spec, names, global) == numbered_column(spec, global),
{
    assert((digit_char())(spec[0]));
}

/// Where a name first stands.
proof fn lemma_column_of(names: Seq<Seq<u8>>, name: Seq<u8>, from: int, i: int)
    requires
        0 <= from <= i <= names.len(),
        forall|j: int| 0 <= j < i ==> #[trigger] names[j] != name,
        i < names.len() ==> names[i] == name,
    ensures
        column_of(names, name, from) == (if i < names.len() {
            Some(i)
        } else {
            None
        }),
    decreases i - from,
{
    if from < i {
        assert(names[from] != name);
        lemma_column_of(names, name, from + 1, i);
    }
}

/// A column that a number names, perhaps with letters and perhaps with an end in the
/// same column: it is ordered as the letters say, and as the options outside keys say
/// where it has none.
pub proof fn columns_read_as_written(
    field: Seq<char>,
    ch: Option<Seq<char>>,
    opts: Seq<char>,
    end: Option<(Seq<char>, Option<Seq<char>>, Seq<char>)>,
    names: Option<Seq<Seq<u8>>>,
    global: ColKey,
)
    requires
        is_position(field, ch, opts),
        end matches Some(e) ==> is_position(e.0, e.1, e.2),
    ensures
        ({
            let text = spec_text(
                position_text(field, ch, opts),
                match end {
                    Some(e) => Some(position_text(e.0, e.1, e.2)),
                    None => None,
                },
            );
            let end_opts = match end {
                Some(e) => e.2,
                None => Seq::empty(),
            };
            let one_column = end matches Some(e) ==> letters_value(e.0) == letters_value(field);
            let whole_column = char_value(ch) == 0 && (end matches Some(e) ==> char_value(e.1)
                == 0);
            let own = opts.len() + end_opts.len() > 0;
            match column_key(text, names, global) {
                Ok(key) => {
                    &&& one_column && whole_column
                    &&& key.col is Some
                    &&& key.col->0 == letters_value(field) - 1
                    &&& !own ==> key.kind == global.kind && key.fold == global.fold && key.reverse
                        == global.reverse
                    &&& own ==> {
                        &&& key.kind == kind_of_letters(opts + end_opts)
                        &&& key.fold <==> (opts + end_opts).contains('f')
                        &&& key.reverse <==> (opts + end_opts).contains('r')
                    }
                },
                Err(e) => {
                    ||| !one_column && e == "multi-column key ranges are not supported for CSV/TSV: '"@
                        + text + "'"@
                    ||| one_column && !whole_column && e
                        == "character positions are not supported for CSV/TSV columns: '"@ + text
                        + "'"@
                },
            }
        }),
{
    let end_text = match end {
        Some(e) => Some(position_text(e.0, e.1, e.2)),
        None => None,
    };
    let start = position_text(field, ch, opts);
    let text = spec_text(start, end_text);
    lemma_split_at_comma(field, ch, opts, end_text);
    positions_read_as_written(field, ch, opts);
    if let Some(e) = end {
        positions_read_as_written(e.0, e.1, e.2);
    }
    assert(text[0] == field[0] && is_digit_letter(field[0]));
    lemma_number_spec(text, names, global);
}

/// A bad number makes a bad key.
pub proof fn bad_columns_are_refused(spec: Seq<char>, names: Option<Seq<Seq<u8>>>, global: ColKey)
    requires
        is_number_spec(spec),
        forall|i: int| 0 <= i < spec.len() ==> #[trigger] spec[i] != ',',
        key_position(spec) is Err,
    ensures
        column_key(spec, names, global) == Err::<ColKey, Seq<char>>(key_position(spec)->Err_0),
{
    lemma_number_spec(spec, names, global);
    let none = Seq::<char>::empty();
    assert(spec + none =~= spec);
    lemma_run_in_front(spec, none, char_other_than(','));
}

/// A column is the same key by its name as by its number, and that key has all the
/// options given outside keys.
pub proof fn names_and_numbers_agree(
    name: Seq<char>,
    digits: Seq<char>,
    names: Seq<Seq<u8>>,
    i: int,
    global: ColKey,
)
    requires
        !is_number_spec(name),
        0 <= i < names.len(),
        i < usize::MAX,
        names[i] == encode_utf8(name),
        forall|j: int| 0 <= j < i ==> #[trigger] names[j] != encode_utf8(name),
        are_digit_letters(digits),
        digits.len() > 0,
        letters_value(digits) == i + 1,
    ensures
        column_key(name, Some(names), global) == column_key(digits, Some(names), global),
        column_key(name, Some(names), global) is Ok,
        ({
            let key = column_key(name, Some(names), global)->Ok_0;
            &&& key.col is Some
            &&& key.col->0 == i
            &&& key.kind == global.kind
            &&& key.fold == global.fold
            &&& key.reverse == global.reverse
        }),
{
    let none = Seq::<char>::empty();
    lemma_column_of(names, encode_utf8(name), 0, i);
    if name.len() > 0 {
        assert(!(digit_char())(name[0]));
    }
    assert(spec_text(position_text(digits, None, none), None) =~= digits);
    columns_read_as_written(digits, None, none, None, Some(names), global);
}

/// A name that no column has is refused, and so is any name without a header.
pub proof fn unknown_names_are_refused(name: Seq<char>, names: Option<Seq<Seq<u8>>>, global: ColKey)
    requires
        !is_number_spec(name),
        names matches Some(n) ==> forall|j: int| 0 <= j < n.len() ==> #[trigger] n[j] != encode_utf8(
            name,
        ),
    ensures
        column_key(name, names, global) is Err,
{
    if name.len() > 0 {
        assert(!(digit_char())(name[0]));
    }
    if let Some(n) = names {
        lemma_column_of(n, encode_utf8(name), 0, n.len() as int);
    }
}

/// The keys of a job are those of its specifications, in their order, and there are
/// none if one of them is bad.
pub proof fn columns_stand_in_order(specs: Seq<Seq<char>>, names: Option<Seq<Seq<u8>>>, global: ColKey)
    ensures
        match column_keys(specs, names, global) {
            Ok(keys) => keys.len() == specs.len() && forall|i: int|
                0 <= i < specs.len() ==> column_key(#[trigger] specs[i], names, global) == Ok::<
                    ColKey,
                    Seq<char>,
                >(keys[i]),
            Err(e) => exists|i: int|
                0 <= i < specs.len() && column_key(#[trigger] specs[i], names, global) == Err::<
                    ColKey,
                    Seq<char>,
                >(e),
        },
    decreases specs.len(),
{
    if specs.len() > 0 {
        let front = specs.drop_last();
        columns_stand_in_order(front, names, global);
        match column_keys(specs, names, global) {
            Ok(keys) => {
                assert forall|i: int| 0 <= i < specs.len() implies column_key(
                    #[trigger] specs[i],
                    names,
                    global,
                ) == Ok::<ColKey, Seq<char>>(keys[i]) by {
                    if i < front.len() {
                        assert(front[i] == specs[i]);
                        assert(keys[i] == column_keys(front, names, global)->Ok_0[i]);
                    }
                }
            },
            Err(e) => {
                if column_keys(front, names, global) is Err {
                    let i = choose|i: int|
                        0 <= i < front.len() && column_key(#[trigger] front[i], names, global)
                            == Err::<ColKey, Seq<char>>(e);
                    assert(specs[i] == front[i]);
                } else {
                    assert(specs[specs.len() - 1] == specs.last());
                }
            },
        }
    }
}

/// A job without keys sorts by the whole record, with its own options; one with keys
/// by these, each with the job's options unless it has its own.
pub proof fn jobs_sort_by_their_columns(cfg: Config, names: Option<Seq<Seq<u8>>>)
    ensures
        cfg.keys@.len() == 0 ==> job_columns(cfg, names) is Ok && job_columns(cfg, names)->Ok_0
            == seq![ColKey {
            col: None,
            kind: cfg.kind(),
            fold: cfg.fold_case,
            reverse: cfg.reverse,
        }],
        cfg.keys@.len() > 0 && job_columns(cfg, names) is Ok ==> job_columns(cfg, names)->Ok_0.len()
            == cfg.keys@.len() && forall|i: int|
            0 <= i < cfg.keys@.len() ==> column_key(
                (#[trigger] cfg.keys@[i])@,
                names,
                ColKey {
                    col: None,
                    kind: cfg.kind(),
                    fold: cfg.fold_case,
                    reverse: cfg.reverse,
                },
            ) == Ok::<ColKey, Seq<char>>(job_columns(cfg, names)->Ok_0[i]),
{
    let specs = texts(cfg.keys@);
    columns_stand_in_order(specs, names, global_key(cfg));
    if cfg.keys@.len() > 0 && job_columns(cfg, names) is Ok {
        assert forall|i: int| 0 <= i < cfg.keys@.len() implies column_key(
            (#[trigger] cfg.keys@[i])@,
            names,
            global_key(cfg),
        ) == Ok::<ColKey, Seq<char>>(job_columns(cfg, names)->Ok_0[i]) by {
            assert(specs[i] == cfg.keys@[i]@);
        }
    }
}

/// A column holds the field with its number, or nothing where there is no such field;
/// a whole record holds its fields one behind the other.
pub proof fn columns_hold_fields(rec: Seq<Seq<u8>>, i: usize)
    ensures
        i < rec.len() ==> column_bytes(rec, Some(i)) == rec[ix(i)],
        i >= rec.len() ==> column_bytes(rec, Some(i)).len() == 0,
        rec.len() == 0 ==> column_bytes(rec, None).len() == 0,
        forall|f: Seq<u8>|
            #![trigger rec.push(f)]
            column_bytes(rec.push(f), None) == column_bytes(rec, None) + f,
{
    assert forall|f: Seq<u8>|
        #![trigger rec.push(f)]
        column_bytes(rec.push(f), None) == column_bytes(rec, None) + f by {
        assert(rec.push(f).drop_last() =~= rec);
    }
}

/// One column orders records as its discipline orders what the column holds, and
/// `reverse` turns that round.
pub proof fn one_column_orders(key: ColKey, a: Seq<Seq<u8>>, b: Seq<Seq<u8>>)
    ensures
        ({
            let o = kind_order(
                key.kind,
                key.fold,
                column_bytes(a, key.col),
                column_bytes(b, key.col),
            );
            one_column_order(key, a, b) == (if key.reverse {
                opposite(o)
            } else {
                o
            })
        }),
{
}

/// The first column that tells records apart decides, whatever the later ones say, and
/// only records that no column tells apart tie.
pub proof fn first_differing_column_decides(keys: Seq<ColKey>, a: Seq<Seq<u8>>, b: Seq<Seq<u8>>, i: int)
    requires
        0 <= i <= keys.len(),
        forall|j: int|
            0 <= j < i ==> one_column_order(#[trigger] keys[j], a, b) == Ordering::Equal,
        i < keys.len() ==> one_column_order(keys[i], a, b) != Ordering::Equal,
    ensures
        columns_order(keys, a, b) == (if i < keys.len() {
            one_column_order(keys[i], a, b)
        } else {
            Ordering::Equal
        }),
    decreases i,
{
    if i > 0 {
        let rest = keys.drop_first();
        assert(one_column_order(keys[0], a, b) == Ordering::Equal);
        assert forall|j: int| 0 <= j < i - 1 implies one_column_order(#[trigger] rest[j], a, b)
            == Ordering::Equal by {
            assert(rest[j] == keys[j + 1]);
        }
        first_differing_column_decides(rest, a, b, i - 1);
    }
}

/// The lengths of fields order records from the first field on.
pub proof fn layouts_go_by_first_difference(a: Seq<Seq<u8>>, b: Seq<Seq<u8>>)
    ensures
        goes_by_first_difference(layout_order(a, b), a, b, |f: Seq<u8>| nat_int(f.len())),
{
    lemma_image_goes_by_first_difference(
        a,
        b,
        |f: Seq<u8>| nat_int(f.len()),
        field_lengths(a),
        field_lengths(b),
    );
}

/// Records that the columns tell apart are ordered by these. Of those that tie, `-s`
/// leaves the order alone; otherwise all their bytes decide, in ascending order
/// whatever `-r` says, and then the lengths of their fields. Under `-u` the bytes do
/// not matter.
pub proof fn columns_come_before_bytes(keys: Seq<ColKey>, stable: bool, a: Seq<Seq<u8>>, b: Seq<Seq<u8>>)
    ensures
        ({
            let o = columns_order(keys, a, b);
            let bytes = bytes_order(column_bytes(a, None), column_bytes(b, None));
            let sorted = job_order(keys, stable, false)(a, b);
            let unique = job_order(keys, stable, true)(a, b);
            &&& o != Ordering::Equal ==> sorted == o && unique == o
            &&& o == Ordering::Equal && stable ==> sorted == Ordering::Equal
            &&& o == Ordering::Equal && !stable && bytes != Ordering::Equal ==> sorted == bytes
            &&& o == Ordering::Equal && !stable && bytes == Ordering::Equal ==> sorted
                == layout_order(a, b)
            &&& o == Ordering::Equal && (exists|i: int|
                0 <= i < keys.len() && (#[trigger] keys[i]).col is None && keys[i].kind
                    == Kind::Bytes) ==> unique == layout_order(a, b)
            &&& o == Ordering::Equal && !(exists|i: int|
                0 <= i < keys.len() && (#[trigger] keys[i]).col is None && keys[i].kind
                    == Kind::Bytes) ==> unique == Ordering::Equal
        }),
{
    if exists|i: int|
        0 <= i < keys.len() && (#[trigger] keys[i]).col is None && keys[i].kind == Kind::Bytes {
        let i = choose|i: int|
            0 <= i < keys.len() && (#[trigger] keys[i]).col is None && keys[i].kind == Kind::Bytes;
        assert(is_whole_text(keys[i]));
    }
}

/// `-r` turns the order of records round: for a column that is named, records that it
/// tells apart are ordered one way without `-r` and the other way with it.
pub proof fn reverse_turns_columns_round(
    forward: Config,
    backward: Config,
    name: Seq<char>,
    names: Seq<Seq<u8>>,
    i: int,
    a: Seq<Seq<u8>>,
    b: Seq<Seq<u8>>,
)
    requires
        !forward.reverse,
        backward.reverse,
        forward.kind() == backward.kind(),
        forward.fold_case == backward.fold_case,
        forward.stable == backward.stable,
        forward.unique == backward.unique,
        forward.keys@.len() == 1,
        forward.keys@[0]@ == name,
        backward.keys@.len() == 1,
        backward.keys@[0]@ == name,
        !is_number_spec(name),
        0 <= i < names.len(),
        i < usize::MAX,
        names[i] == encode_utf8(name),
        forall|j: int| 0 <= j < i ==> #[trigger] names[j] != encode_utf8(name),
    ensures
        job_columns(forward, Some(names)) is Ok,
        job_columns(backward, Some(names)) is Ok,
        ({
            let up = job_columns(forward, Some(names))->Ok_0;
            let down = job_columns(backward, Some(names))->Ok_0;
            let o = kind_order(
                forward.kind(),
                forward.fold_case,
                if i < a.len() {
                    a[i]
                } else {
                    Seq::empty()
                },
                if i < b.len() {
                    b[i]
                } else {
                    Seq::empty()
                },
            );
            o != Ordering::Equal ==> {
                &&& job_order(up, forward.stable, forward.unique)(a, b) == o
                &&& job_order(down, backward.stable, backward.unique)(a, b) == opposite(o)
            }
        }),
{
    lemma_column_of(names, encode_utf8(name), 0, i);
    if name.len() > 0 {
        assert(!(digit_char())(name[0]));
    }
    let specs = texts(forward.keys@);
    assert(texts(backward.keys@) =~= specs);
    assert(specs.last() == name);
    assert(specs.drop_last().len() == 0);
    let up_key = column_key(name, Some(names), global_key(forward))->Ok_0;
    let down_key = column_key(name, Some(names), global_key(backward))->Ok_0;
    assert(column_keys(specs, Some(names), global_key(forward)) == Ok::<Seq<ColKey>, Seq<char>>(
        Seq::empty().push(up_key),
    )) by {
        reveal_with_fuel(column_keys, 2);
    }
    assert(column_keys(specs, Some(names), global_key(backward)) == Ok::<Seq<ColKey>, Seq<char>>(
        Seq::empty().push(down_key),
    )) by {
        reveal_with_fuel(column_keys, 2);
    }
    let up = job_columns(forward, Some(names))->Ok_0;
    let down = job_columns(backward, Some(names))->Ok_0;
    assert(up.drop_first().len() == 0 && down.drop_first().len() == 0);
    reveal_with_fuel(columns_order, 2);
    assert(up[0] == up_key && down[0] == down_key);
}

/// The separator is that of `-t`; without one it is a tab for TSV and otherwise a
/// comma. With a header the names come from the data, and the header is the first row
/// that is written.
pub proof fn csv_layout(cfg: Config, data: Seq<u8>, keys: Seq<ColKey>)
    ensures
        cfg.tab matches Some(t) ==> delimiter_of(cfg) == t,
        cfg.tab is None && cfg.format == Format::Tsv ==> delimiter_of(cfg) == 0x09,
        cfg.tab is None && cfg.format != Format::Tsv ==> delimiter_of(cfg) == 0x2c,
        !cfg.header ==> header_of(cfg, data) is None,
        cfg.header ==> header_of(cfg, data) == csv_header(data, delimiter_of(cfg)),
        header_of(cfg, data) matches Some(h) ==> output_rows(cfg, data, keys).len() > 0
            && output_rows(cfg, data, keys)[0] == h && output_rows(cfg, data, keys).skip(1)
            == arranged_rows(
            csv_rows(data, delimiter_of(cfg), true)->Some_0,
            cfg,
            keys,
        ),
        !cfg.header ==> output_rows(cfg, data, keys) == arranged_rows(
            csv_rows(data, delimiter_of(cfg), false)->Some_0,
            cfg,
            keys,
        ),
{
    if let Some(h) = header_of(cfg, data) {
        assert(output_rows(cfg, data, keys).skip(1) =~= arranged_rows(
            csv_rows(data, delimiter_of(cfg), true)->Some_0,
            cfg,
            keys,
        ));
    }
}

/// The names of the columns are listed with a comma and a space between them.
pub proof fn names_are_listed(names: Seq<Seq<u8>>, name: Seq<u8>)
    ensures
        name_list(seq![name]) == lossy_text(name),
        names.len() > 0 ==> name_list(names.push(name)) == name_list(names) + seq![',', ' ']
            + lossy_text(name),
        name_list(Seq::empty()).len() == 0,
{
    reveal_strlit(", ");
    assert(", "@ =~= seq![',', ' ']);
    assert(names.push(name).drop_last() =~= names);
}

/// A message about a column quotes the specification; where no column has its name it
/// lists those that there are.
pub proof fn column_messages_quote(name: Seq<char>, names: Option<Seq<Seq<u8>>>, global: ColKey)
    requires
        !is_number_spec(name),
        column_key(name, names, global) is Err,
    ensures
        column_key(name, names, global)->Err_0 == (match names {
            None => "column name '"@ + name + "' requires --header for CSV/TSV"@,
            Some(n) => "no column named '"@ + name + "'; available: "@ + name_list(n),
        }),
{
    if name.len() > 0 {
        assert(!(digit_char())(name[0]));
    }
}

} // verus!
