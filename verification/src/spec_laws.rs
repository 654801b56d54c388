//! What key specifications mean, as they are written on the command line.

use crate::key::{
    key_of_spec, key_position, kind_of_letters, option_letter, GlobalOrder, KeyDef, Kind,
};
use crate::text::{lead, lemma_lead, lemma_run_in_front};
use crate::words::{char_other_than, codes, digit_char, number};
use vstd::prelude::*;

verus! {

/// `0` to `9`.
pub open spec fn is_digit_letter(c: char) -> bool {
    '0' <= c && c <= '9'
}

/// Only the digits `0` to `9`.
pub open spec fn are_digit_letters(s: Seq<char>) -> bool {
    forall|i: int| 0 <= i < s.len() ==> is_digit_letter(#[trigger] s[i])
}

/// The number that digits stand for.
pub open spec fn letters_value(d: Seq<char>) -> nat
    decreases d.len(),
{
    if d.len() == 0 {
        0
    } else {
        10 * letters_value(d.drop_last()) + (d.last() as u8 - 0x30) as nat
    }
}

/// A letter of `bfghMnrV`.
pub open spec fn is_order_letter(c: char) -> bool {
    seq!['b', 'f', 'g', 'h', 'M', 'n', 'r', 'V'].contains(c)
}

/// A position as it is written, `FIELD[.CHAR][OPTS]`.
pub open spec fn position_text(field: Seq<char>, ch: Option<Seq<char>>, opts: Seq<char>) -> Seq<char> {
    field + (match ch {
        Some(d) => seq!['.'] + d,
        None => Seq::empty(),
    }) + opts
}

/// The parts of a position are in order: there is a field, counted from 1; a point is
/// followed by a number; and the letters are known.
pub open spec fn is_position(field: Seq<char>, ch: Option<Seq<char>>, opts: Seq<char>) -> bool {
    &&& are_digit_letters(field)
    &&& field.len() > 0
    &&& 1 <= letters_value(field) <= usize::MAX
    &&& ch matches Some(d) ==> are_digit_letters(d) && d.len() > 0 && letters_value(d)
        <= usize::MAX
    &&& forall|i: int| 0 <= i < opts.len() ==> is_order_letter(#[trigger] opts[i])
}

/// The character that a position names; 0 where it names none.
pub open spec fn char_value(ch: Option<Seq<char>>) -> nat {
    match ch {
        Some(d) => letters_value(d),
        None => 0,
    }
}

/// Digits count by their places.
pub proof fn digit_letters_count(d: Seq<char>)
    requires
        are_digit_letters(d),
    ensures
        number(d) == letters_value(d),
    decreases d.len(),
{
    if d.len() > 0 {
        assert(is_digit_letter(d[d.len() - 1]));
        assert(codes(d).drop_last() =~= codes(d.drop_last()));
        assert forall|i: int| 0 <= i < d.drop_last().len() implies is_digit_letter(
            #[trigger] d.drop_last()[i],
        ) by {
            assert(d.drop_last()[i] == d[i]);
        }
        digit_letters_count(d.drop_last());
        assert(codes(d).last() == d.last() as u8);
    }
}

proof fn lemma_order_letter(c: char)
    ensures
        (option_letter())(c) == is_order_letter(c),
        is_order_letter(c) ==> c != '.' && c != ',' && !is_digit_letter(c),
{
    let known = seq!['b', 'f', 'g', 'h', 'M', 'n', 'r', 'V'];
    if (option_letter())(c) {
        assert(known[0] == 'b' && known[1] == 'f' && known[2] == 'g' && known[3] == 'h' && known[4]
            == 'M' && known[5] == 'n' && known[6] == 'r' && known[7] == 'V');
    }
}

/// Digits in front of something else.
proof fn lemma_digits_in_front(d: Seq<char>, rest: Seq<char>)
    requires
        are_digit_letters(d),
        rest.len() > 0 ==> !is_digit_letter(rest[0]),
    ensures
        lead(d + rest, digit_char()) == d.len(),
        (d + rest).take(d.len() as int) == d,
        (d + rest).skip(d.len() as int) == rest,
{
    assert forall|k: int| 0 <= k < d.len() implies (digit_char())(#[trigger] d[k]) by {
        assert(is_digit_letter(d[k]));
    }
    lemma_run_in_front(d, rest, digit_char());
}

/// A position is read as it is written.
pub proof fn positions_read_as_written(field: Seq<char>, ch: Option<Seq<char>>, opts: Seq<char>)
    requires
        is_position(field, ch, opts),
    ensures
        key_position(position_text(field, ch, opts)) == Ok::<(nat, nat, Seq<char>), Seq<char>>(
            (letters_value(field), char_value(ch), opts),
        ),
{
    let s = position_text(field, ch, opts);
    if opts.len() > 0 {
        assert(is_order_letter(opts[0]));
        lemma_order_letter(opts[0]);
    }
    assert forall|k: int| 0 <= k < opts.len() implies (option_letter())(#[trigger] opts[k]) by {
        assert(is_order_letter(opts[k]));
        lemma_order_letter(opts[k]);
    }
    let none = Seq::<char>::empty();
    lemma_run_in_front(opts, none, option_letter());
    assert(opts + none =~= opts);
    digit_letters_count(field);
    match ch {
        Some(d) => {
            let tail = seq!['.'] + d + opts;
            assert(s =~= field + tail);
            lemma_digits_in_front(field, tail);
            assert(tail.skip(1) =~= d + opts);
            lemma_digits_in_front(d, opts);
            digit_letters_count(d);
        },
        None => {
            assert(s =~= field + opts);
            lemma_digits_in_front(field, opts);
            assert(opts.take(0) =~= none);
            assert(opts.skip(0) =~= opts);
            assert(codes(none) =~= Seq::<u8>::empty());
        },
    }
}

/// Nothing else is a position: what is accepted has the parts of one.
pub proof fn only_positions_are_read(s: Seq<char>) -> (parts: (Seq<char>, Option<Seq<char>>, Seq<char>))
    requires
        key_position(s) is Ok,
    ensures
        is_position(parts.0, parts.1, parts.2),
        s == position_text(parts.0, parts.1, parts.2),
{
    let n = lead(s, digit_char());
    lemma_lead(s, digit_char());
    let field = s.take(n);
    let t = s.skip(n);
    let dotted = t.len() > 0 && t[0] == '.';
    let u = if dotted {
        t.skip(1)
    } else {
        t
    };
    lemma_lead(u, digit_char());
    let m = if dotted {
        lead(u, digit_char())
    } else {
        0
    };
    let opts = u.skip(m);
    lemma_lead(opts, option_letter());
    let ch = if dotted {
        Some(u.take(m))
    } else {
        None
    };
    assert(are_digit_letters(field));
    digit_letters_count(field);
    if dotted {
        assert(are_digit_letters(u.take(m)));
        digit_letters_count(u.take(m));
    }
    assert forall|i: int| 0 <= i < opts.len() implies is_order_letter(#[trigger] opts[i]) by {
        lemma_order_letter(opts[i]);
    }
    assert(position_text(field, ch, opts) =~= s);
    (field, ch, opts)
}

/// A specification that is refused is quoted in the message.
pub proof fn refused_positions_are_quoted(s: Seq<char>)
    requires
        key_position(s) is Err,
    ensures
        ({
            let e = key_position(s)->Err_0;
            let n = e.len() - s.len() - 2;
            n >= 0 && e.skip(n) == seq!['\''] + s + seq!['\'']
        }),
{
    reveal_strlit("invalid field specification '");
    reveal_strlit("invalid field number in '");
    reveal_strlit("field number is zero in '");
    reveal_strlit("missing character position after '.' in '");
    reveal_strlit("invalid character position in '");
    reveal_strlit("invalid ordering option '");
    reveal_strlit("' in '");
    reveal_strlit("'");
    let e = key_position(s)->Err_0;
    let n = e.len() - s.len() - 2;
    assert(e.skip(n) =~= seq!['\''] + s + seq!['\'']);
}

/// What is wrong with a position is said: it has no field, its field is too large or
/// 0, or there is no number behind its point.
pub proof fn bad_fields_are_explained(field: Seq<char>, tail: Seq<char>)
    requires
        are_digit_letters(field),
        tail.len() > 0 ==> !is_digit_letter(tail[0]),
    ensures
        ({
            let s = field + tail;
            let e = key_position(s)->Err_0;
            &&& field.len() == 0 ==> key_position(s) is Err && e
                == "invalid field specification '"@ + s + "'"@
            &&& letters_value(field) > usize::MAX ==> key_position(s) is Err && e
                == "invalid field number in '"@ + s + "'"@
            &&& field.len() > 0 && letters_value(field) == 0 ==> key_position(s) is Err && e
                == "field number is zero in '"@ + s + "'"@
            &&& 1 <= letters_value(field) <= usize::MAX && tail.len() > 0 && tail[0] == '.' && (
            tail.len() == 1 || !is_digit_letter(tail[1])) ==> key_position(s) is Err && e
                == "missing character position after '.' in '"@ + s + "'"@
        }),
{
    lemma_digits_in_front(field, tail);
    digit_letters_count(field);
    if tail.len() > 0 && tail[0] == '.' && (tail.len() == 1 || !is_digit_letter(tail[1])) {
        let none = Seq::<char>::empty();
        let u = tail.skip(1);
        if u.len() > 0 {
            assert(u[0] == tail[1]);
        }
        lemma_digits_in_front(none, u);
        assert(none + u =~= u);
    }
}

/// A letter that is no option is named, and it is the first such letter.
pub proof fn bad_letters_are_explained(
    field: Seq<char>,
    ch: Option<Seq<char>>,
    opts: Seq<char>,
    bad: char,
    rest: Seq<char>,
)
    requires
        is_position(field, ch, opts),
        !is_order_letter(bad),
        opts.len() == 0 ==> !is_digit_letter(bad) && (ch is Some || bad != '.'),
    ensures
        ({
            let s = position_text(field, ch, opts) + seq![bad] + rest;
            key_position(s) == Err::<(nat, nat, Seq<char>), Seq<char>>(
                "invalid ordering option '"@ + seq![bad] + "' in '"@ + s + "'"@,
            )
        }),
{
    let s = position_text(field, ch, opts) + seq![bad] + rest;
    let tail = seq![bad] + rest;
    let letters = opts + tail;
    if opts.len() > 0 {
        assert(is_order_letter(opts[0]));
        lemma_order_letter(opts[0]);
        assert(letters[0] == opts[0]);
    } else {
        assert(letters[0] == bad);
    }
    assert forall|k: int| 0 <= k < opts.len() implies (option_letter())(#[trigger] opts[k]) by {
        assert(is_order_letter(opts[k]));
        lemma_order_letter(opts[k]);
    }
    lemma_order_letter(bad);
    lemma_run_in_front(opts, tail, option_letter());
    assert(letters[opts.len() as int] == bad);
    digit_letters_count(field);
    match ch {
        Some(d) => {
            let behind = seq!['.'] + d + letters;
            assert(s =~= field + behind);
            lemma_digits_in_front(field, behind);
            assert(behind.skip(1) =~= d + letters);
            lemma_digits_in_front(d, letters);
            digit_letters_count(d);
        },
        None => {
            assert(s =~= field + letters);
            lemma_digits_in_front(field, letters);
            let none = Seq::<char>::empty();
            assert(letters.take(0) =~= none);
            assert(letters.skip(0) =~= letters);
            assert(codes(none) =~= Seq::<u8>::empty());
        },
    }
}

/// The discipline that letters ask for: `n`, `g`, `h`, `V` and `M` in turn, and raw
/// bytes without any of them.
pub proof fn letters_choose_the_kind(opts: Seq<char>)
    ensures
        ({
            let k = kind_of_letters(opts);
            &&& opts.contains('n') <==> k == Kind::Numeric
            &&& opts.contains('g') && !opts.contains('n') <==> k == Kind::General
            &&& opts.contains('h') && !opts.contains('n') && !opts.contains('g') <==> k
                == Kind::Human
            &&& opts.contains('V') && !opts.contains('n') && !opts.contains('g') && !opts.contains(
                'h',
            ) <==> k == Kind::Version
            &&& opts.contains('M') && !opts.contains('n') && !opts.contains('g') && !opts.contains(
                'h',
            ) && !opts.contains('V') <==> k == Kind::Month
        }),
{
}

/// A start position and perhaps an end position, as they are written.
pub open spec fn spec_text(start: Seq<char>, end: Option<Seq<char>>) -> Seq<char> {
    start + (match end {
        Some(e) => seq![','] + e,
        None => Seq::empty(),
    })
}

/// A position holds no comma.
pub proof fn lemma_split_at_comma(field: Seq<char>, ch: Option<Seq<char>>, opts: Seq<char>, end: Option<Seq<char>>)
    requires
        is_position(field, ch, opts),
    ensures
        ({
            let start = position_text(field, ch, opts);
            let s = spec_text(start, end);
            let n = lead(s, char_other_than(','));
            &&& n == start.len()
            &&& s.take(n) == start
            &&& n < s.len() <==> end is Some
            &&& end matches Some(e) ==> s.skip(n + 1) == e
        }),
{
    let start = position_text(field, ch, opts);
    let s = spec_text(start, end);
    assert forall|k: int| 0 <= k < start.len() implies (char_other_than(','))(
        #[trigger] start[k],
    ) by {
        let before = field.len() + (match ch {
            Some(d) => 1 + d.len(),
            None => 0,
        });
        if k < field.len() {
            assert(start[k] == field[k]);
            assert(is_digit_letter(field[k]));
        } else if k < before {
            let d = ch->0;
            if k > field.len() {
                assert(start[k] == d[k - field.len() - 1]);
                assert(is_digit_letter(d[k - field.len() - 1]));
            } else {
                assert(start[k] == '.');
            }
        } else {
            assert(start[k] == opts[k - before]);
            assert(is_order_letter(opts[k - before]));
            lemma_order_letter(opts[k - before]);
        }
    }
    match end {
        Some(e) => {
            let tail = seq![','] + e;
            assert(s =~= start + tail);
            lemma_run_in_front(start, tail, char_other_than(','));
            assert(s.skip(start.len() as int + 1) =~= e);
        },
        None => {
            let none = Seq::<char>::empty();
            assert(s =~= start + none);
            lemma_run_in_front(start, none, char_other_than(','));
        },
    }
}

/// A key is what its specification says: it starts and ends at the positions that are
/// written, and it is ordered as its own letters say, `b` on the side where it
/// stands. Where it has no letters, all the options given outside keys hold for it.
pub proof fn keys_read_as_written(
    field: Seq<char>,
    ch: Option<Seq<char>>,
    opts: Seq<char>,
    end: Option<(Seq<char>, Option<Seq<char>>, Seq<char>)>,
    global: GlobalOrder,
)
    requires
        is_position(field, ch, opts),
        end matches Some(e) ==> is_position(e.0, e.1, e.2),
    ensures
        ({
            let text = spec_text(
                position_text(field, ch, opts),
                match end {
                    Some(e) => Some(position_text(e.0, e.1, e.2)),
                    None => None,
                },
            );
            let end_opts = match end {
                Some(e) => e.2,
                None => Seq::empty(),
            };
            let own = opts.len() + end_opts.len() > 0;
            match key_of_spec(text, global) {
                Ok(key) => {
                    &&& key.start_field == letters_value(field)
                    &&& char_value(ch) > 0 ==> key.start_char == char_value(ch)
                    &&& char_value(ch) == 0 ==> key.start_char == 1
                    &&& end is None ==> key.end_field is None && key.end_char == 0
                    &&& end matches Some(e) ==> key.end_field is Some && key.end_field->0
                        == letters_value(e.0) && key.end_char == char_value(e.1)
                    &&& !own ==> key.kind == global.kind && key.fold == global.fold
                        && key.skip_sblanks == global.ignore_blanks && key.skip_eblanks
                        == global.ignore_blanks && key.reverse == global.reverse
                    &&& own ==> {
                        &&& key.kind == kind_of_letters(opts + end_opts)
                        &&& key.fold <==> opts.contains('f') || end_opts.contains('f')
                        &&& key.reverse <==> opts.contains('r') || end_opts.contains('r')
                        &&& key.skip_sblanks <==> opts.contains('b')
                        &&& key.skip_eblanks <==> end_opts.contains('b')
                    }
                },
                Err(_) => false,
            }
        }),
{
    let end_text = match end {
        Some(e) => Some(position_text(e.0, e.1, e.2)),
        None => None,
    };
    lemma_split_at_comma(field, ch, opts, end_text);
    positions_read_as_written(field, ch, opts);
    if let Some(e) = end {
        positions_read_as_written(e.0, e.1, e.2);
    }
    let end_opts = match end {
        Some(e) => e.2,
        None => Seq::empty(),
    };
    lemma_either_holds(opts, end_opts, 'f');
    lemma_either_holds(opts, end_opts, 'r');
}

/// A letter of two texts is one of either.
proof fn lemma_either_holds(a: Seq<char>, b: Seq<char>, c: char)
    ensures
        (a + b).contains(c) <==> a.contains(c) || b.contains(c),
{
    let s = a + b;
    if a.contains(c) {
        let i = choose|i: int| 0 <= i < a.len() && a[i] == c;
        assert(s[i] == c);
    }
    if b.contains(c) {
        let i = choose|i: int| 0 <= i < b.len() && b[i] == c;
        assert(s[a.len() + i] == c);
    }
}

/// A bad position makes a bad specification.
pub proof fn bad_positions_make_bad_keys(start: Seq<char>, end: Option<Seq<char>>, global: GlobalOrder)
    requires
        forall|i: int| 0 <= i < start.len() ==> #[trigger] start[i] != ',',
    ensures
        key_position(start) is Err ==> key_of_spec(spec_text(start, end), global) == Err::<
            KeyDef,
            Seq<char>,
        >(key_position(start)->Err_0),
        key_position(start) is Ok && end is Some && key_position(end->0) is Err ==> key_of_spec(
            spec_text(start, end),
            global,
        ) == Err::<KeyDef, Seq<char>>(key_position(end->0)->Err_0),
{
    let s = spec_text(start, end);
    match end {
        Some(e) => {
            let tail = seq![','] + e;
            assert(s =~= start + tail);
            lemma_run_in_front(start, tail, char_other_than(','));
            assert(s.skip(start.len() as int + 1) =~= e);
        },
        None => {
            let none = Seq::<char>::empty();
            assert(s =~= start + none);
            lemma_run_in_front(start, none, char_other_than(','));
        },
    }
}

} // verus!
