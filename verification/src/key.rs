//! Sort keys: field specifications (`-k`, `-t`) and the comparison of lines by
//! several keys.

use crate::compare::{
    bytes_order_is_total, compare_kind, key_part, kind_order, kind_order_is_total,
    KeyOpts,
};
use crate::index::ix;
use crate::lex::{bytes_order, bytes_order_ties_only_equal, compare_bytes};
use crate::order::{
    directed, flip, is_total_order, lemma_directed_is_total, lemma_pullback_is_total,
    lemma_tie_broken_is_total, tie_broken,
};
use crate::text::{
    blank, blanks_end, lead, lemma_lead, lemma_lead_is, lemma_run_end_bounds, next_byte,
    other_than, outside, past, run_end, word_end,
};
use crate::words::{
    char_other_than, char_position, chars_of, codes, digit_char, digit_chars_end, has_char, joined,
    number, number_within,
};
use std::cmp::Ordering;
use vstd::prelude::*;
use vstd::string::{StrSliceExecFns, StringExecFns};

verus! {

/// The discipline that orders the bytes of a key.
#[derive(Clone, Copy, Debug, PartialEq, Eq, Structural)]
pub enum Kind {
    /// Raw bytes.
    Bytes,
    /// `-n`: the number at the start.
    Numeric,
    /// `-g`: the number at the start with its exponent, in double precision.
    General,
    /// `-h`: a size with a suffix.
    Human,
    /// `-V`: version numbers.
    Version,
    /// `-M`: month names.
    Month,
}

impl Default for Kind {
    /// Raw bytes.
    fn default() -> (kind: Kind)
        ensures
            kind == Kind::Bytes,
    {
        Kind::Bytes
    }
}

/// A sort key. Fields and characters are counted from 1.
#[derive(Clone, Debug, PartialEq, Eq, Structural)]
pub struct KeyDef {
    /// The field that the key starts in.
    pub start_field: usize,
    /// The character of that field that the key starts at.
    pub start_char: usize,
    /// The field that the key ends in; `None` for the end of the line.
    pub end_field: Option<usize>,
    /// The last character of the key in that field; 0 for the whole field.
    pub end_char: usize,
    /// How the key is ordered.
    pub kind: Kind,
    /// Fold case (`f`).
    pub fold: bool,
    /// Skip blanks at the start of the start field (`b`).
    pub skip_sblanks: bool,
    /// Skip blanks at the start of the end field (`b` behind the comma).
    pub skip_eblanks: bool,
    /// Reverse the order of this key (`r`).
    pub reverse: bool,
}

/// The key that covers the whole line.
pub open spec fn whole_line_key(opts: KeyOpts, kind: Kind, reverse: bool) -> KeyDef {
    KeyDef {
        start_field: 1,
        start_char: 1,
        end_field: None,
        end_char: 0,
        kind,
        fold: opts.fold,
        skip_sblanks: opts.ignore_blanks,
        skip_eblanks: opts.ignore_blanks,
        reverse,
    }
}

impl KeyDef {
    /// The key that covers the whole line, with the global options.
    pub fn whole_line(opts: &KeyOpts, kind: Kind, reverse: bool) -> (key: KeyDef)
        ensures
            key == whole_line_key(*opts, kind, reverse),
    {
        KeyDef {
            start_field: 1,
            start_char: 1,
            end_field: None,
            end_char: 0,
            kind,
            fold: opts.fold,
            skip_sblanks: opts.ignore_blanks,
            skip_eblanks: opts.ignore_blanks,
            reverse,
        }
    }

    /// The fields of the key exist: they are counted from 1. A key that ends with
    /// a whole field of a line split at blanks may also end in field 0, before
    /// the line.
    pub open spec fn is_valid(&self, tab: Option<u8>) -> bool {
        &&& self.start_field >= 1
        &&& match self.end_field {
            Some(n) => n >= 1 || self.end_char == 0 && tab.is_none(),
            None => true,
        }
    }
}

/// The ordering options given outside any key.
#[derive(Clone, Copy, Debug, PartialEq, Eq, Structural)]
pub struct GlobalOrder {
    /// The discipline of `-n`, `-g`, `-h`, `-V` or `-M`.
    pub kind: Kind,
    /// `-f`.
    pub fold: bool,
    /// `-b`.
    pub ignore_blanks: bool,
    /// `-r`.
    pub reverse: bool,
}

impl Default for GlobalOrder {
    /// Raw bytes, in ascending order.
    fn default() -> (order: GlobalOrder)
        ensures
            order == (GlobalOrder {
                kind: Kind::Bytes,
                fold: false,
                ignore_blanks: false,
                reverse: false,
            }),
    {
        GlobalOrder { kind: Kind::Bytes, fold: false, ignore_blanks: false, reverse: false }
    }
}

/// The discipline that option letters ask for: the first of `n`, `g`, `h`, `V`
/// and `M` that occurs.
pub open spec fn kind_of_letters(opts: Seq<char>) -> Kind {
    if opts.contains('n') {
        Kind::Numeric
    } else if opts.contains('g') {
        Kind::General
    } else if opts.contains('h') {
        Kind::Human
    } else if opts.contains('V') {
        Kind::Version
    } else if opts.contains('M') {
        Kind::Month
    } else {
        Kind::Bytes
    }
}

/// The discipline that the letters of a key option string ask for.
pub fn kind_from_opts(opts: &str) -> (kind: Kind)
    ensures
        kind == kind_of_letters(opts@),
{
    let letters = chars_of(opts);
    if has_char(&letters, 'n') {
        Kind::Numeric
    } else if has_char(&letters, 'g') {
        Kind::General
    } else if has_char(&letters, 'h') {
        Kind::Human
    } else if has_char(&letters, 'V') {
        Kind::Version
    } else if has_char(&letters, 'M') {
        Kind::Month
    } else {
        Kind::Bytes
    }
}

/// A letter that a key specification may hold.
pub open spec fn option_letter() -> spec_fn(char) -> bool {
    |c: char|
        c == 'b' || c == 'f' || c == 'g' || c == 'h' || c == 'M' || c == 'n' || c == 'r' || c == 'V'
}

fn is_option_letter(c: char) -> (r: bool)
    ensures
        r == (option_letter())(c),
{
    c == 'b' || c == 'f' || c == 'g' || c == 'h' || c == 'M' || c == 'n' || c == 'r' || c == 'V'
}

/// One position of a key specification, `FIELD[.CHAR][OPTS]`: the field, the
/// character (0 where it is left out) and the option letters; or what is wrong
/// with it.
pub open spec fn key_position(s: Seq<char>) -> Result<(nat, nat, Seq<char>), Seq<char>> {
    let n = lead(s, digit_char());
    let field = number(s.take(n));
    let t = s.skip(n);
    let dotted = t.len() > 0 && t[0] == '.';
    let u = if dotted {
        t.skip(1)
    } else {
        t
    };
    let m = if dotted {
        lead(u, digit_char())
    } else {
        0
    };
    let ch = number(u.take(m));
    let opts = u.skip(m);
    let good = lead(opts, option_letter());
    if n == 0 {
        Err("invalid field specification '"@ + s + "'"@)
    } else if field > usize::MAX {
        Err("invalid field number in '"@ + s + "'"@)
    } else if field == 0 {
        Err("field number is zero in '"@ + s + "'"@)
    } else if dotted && m == 0 {
        Err("missing character position after '.' in '"@ + s + "'"@)
    } else if ch > usize::MAX {
        Err("invalid character position in '"@ + s + "'"@)
    } else if good < opts.len() {
        Err("invalid ordering option '"@ + seq![opts[good]] + "' in '"@ + s + "'"@)
    } else {
        Ok((field, ch, opts))
    }
}

/// Parses one position of a key specification, `FIELD[.CHAR][OPTS]`, into the
/// field, the character (0 where it is left out) and the option letters.
pub fn parse_pos(s: &str) -> (r: Result<(usize, usize, String), String>)
    ensures
        match r {
            Ok(p) => key_position(s@) == Ok::<(nat, nat, Seq<char>), Seq<char>>(
                (p.0 as nat, p.1 as nat, p.2@),
            ),
            Err(e) => key_position(s@) == Err::<(nat, nat, Seq<char>), Seq<char>>(e@),
        },
{
    let c = chars_of(s);
    let n: usize = digit_chars_end(&c, 0);
    proof {
        assert(s@.skip(0) =~= s@);
        assert(s@.subrange(0, n as int) =~= s@.take(n as int));
    }
    if n == 0 {
        return Err(joined("invalid field specification '", s, "'"));
    }
    let field: usize = match number_within(&c, 0, n, usize::MAX as u128) {
        Some(v) => v as usize,
        None => {
            return Err(joined("invalid field number in '", s, "'"));
        },
    };
    if field == 0 {
        return Err(joined("field number is zero in '", s, "'"));
    }
    let ghost t = s@.skip(n as int);
    let mut i: usize = n;
    let mut ch: usize = 0;
    assert(number(t.take(0)) == 0) by {
        assert(codes(t.take(0)) =~= Seq::<u8>::empty());
    }
    assert(t.skip(0) =~= t);
    if n < c.len() && c[n] == '.' {
        let start: usize = n + 1;
        i = digit_chars_end(&c, start);
        proof {
            assert(s@.skip(start as int) =~= t.skip(1));
            assert(s@.subrange(start as int, i as int) =~= t.skip(1).take(i - start));
        }
        if i == start {
            return Err(joined("missing character position after '.' in '", s, "'"));
        }
        ch = match number_within(&c, start, i, usize::MAX as u128) {
            Some(v) => v as usize,
            None => {
                return Err(joined("invalid character position in '", s, "'"));
            },
        };
        assert(s@.skip(i as int) =~= t.skip(1).skip(i - start));
    }
    let ghost opts = s@.skip(i as int);
    let mut k: usize = i;
    while k < c.len() && is_option_letter(c[k])
        invariant
            c@ == s@,
            opts == s@.skip(i as int),
            i <= k <= c@.len(),
            forall|j: int| i <= j < k ==> (option_letter())(#[trigger] s@[j]),
        decreases c@.len() - k,
    {
        k += 1;
    }
    proof {
        assert forall|j: int| 0 <= j < k - i implies (option_letter())(#[trigger] opts[j]) by {
            assert(opts[j] == s@[i + j]);
        }
        lemma_lead_is(opts, option_letter(), k - i);
    }
    if k < c.len() {
        let bad = s.substring_char(k, k + 1);
        assert(bad@ =~= seq![opts[k - i]]);
        let mut e = joined("invalid ordering option '", bad, "' in '");
        e.append(s);
        e.append("'");
        return Err(e);
    }
    let letters = s.substring_char(i, c.len());
    assert(letters@ =~= opts);
    Ok((field, ch, letters.to_owned()))
}

/// The key that a specification `POS[,POS]` describes. A key without option
/// letters takes all its options from `global`.
pub open spec fn key_of_spec(spec: Seq<char>, global: GlobalOrder) -> Result<KeyDef, Seq<char>> {
    let n = lead(spec, char_other_than(','));
    let start = key_position(spec.take(n));
    let end = key_position(spec.skip(n + 1));
    if start is Err {
        Err(start->Err_0)
    } else if n < spec.len() && end is Err {
        Err(end->Err_0)
    } else {
        let (field, ch, letters) = start->Ok_0;
        let (end_field, end_char, end_letters) = if n < spec.len() {
            let (f, c, o) = end->Ok_0;
            (Some(f as usize), c as usize, o)
        } else {
            (None, 0usize, Seq::empty())
        };
        let inherits = letters.len() == 0 && end_letters.len() == 0;
        let all = letters + end_letters;
        Ok(
            KeyDef {
                start_field: field as usize,
                start_char: if ch == 0 {
                    1usize
                } else {
                    ch as usize
                },
                end_field,
                end_char,
                kind: if inherits {
                    global.kind
                } else {
                    kind_of_letters(all)
                },
                fold: if inherits {
                    global.fold
                } else {
                    all.contains('f')
                },
                skip_sblanks: if inherits {
                    global.ignore_blanks
                } else {
                    letters.contains('b')
                },
                skip_eblanks: if inherits {
                    global.ignore_blanks
                } else {
                    end_letters.contains('b')
                },
                reverse: if inherits {
                    global.reverse
                } else {
                    all.contains('r')
                },
            },
        )
    }
}

/// Parses a key specification, `POS[,POS]`. A key without option letters takes
/// all its options from `global`.
pub fn parse_key_spec(spec: &str, global: &GlobalOrder) -> (r: Result<KeyDef, String>)
    ensures
        match r {
            Ok(key) => key_of_spec(spec@, *global) == Ok::<KeyDef, Seq<char>>(key),
            Err(e) => key_of_spec(spec@, *global) == Err::<KeyDef, Seq<char>>(e@),
        },
        r is Ok ==> forall|tab: Option<u8>| #[trigger] r->Ok_0.is_valid(tab),
{
    let c = chars_of(spec);
    let n: usize = char_position(&c, 0, ',');
    proof {
        assert(spec@.skip(0) =~= spec@);
        assert(spec@.subrange(0, n as int) =~= spec@.take(n as int));
    }
    let (field, ch, letters) = match parse_pos(spec.substring_char(0, n)) {
        Ok(p) => p,
        Err(e) => {
            return Err(e);
        },
    };
    let (end_field, end_char, end_letters) = if n < c.len() {
        let rest = spec.substring_char(n + 1, c.len());
        assert(rest@ =~= spec@.skip(n + 1));
        match parse_pos(rest) {
            Ok(p) => (Some(p.0), p.1, p.2),
            Err(e) => {
                return Err(e);
            },
        }
    } else {
        (None, 0, String::new())
    };
    let start_char: usize = if ch == 0 {
        1
    } else {
        ch
    };
    if letters.as_str().is_empty() && end_letters.as_str().is_empty() {
        Ok(
            KeyDef {
                start_field: field,
                start_char,
                end_field,
                end_char,
                kind: global.kind,
                fold: global.fold,
                skip_sblanks: global.ignore_blanks,
                skip_eblanks: global.ignore_blanks,
                reverse: global.reverse,
            },
        )
    } else {
        let first = chars_of(letters.as_str());
        let last = chars_of(end_letters.as_str());
        let all = letters.concat(end_letters.as_str());
        let every = chars_of(all.as_str());
        Ok(
            KeyDef {
                start_field: field,
                start_char,
                end_field,
                end_char,
                kind: kind_from_opts(all.as_str()),
                fold: has_char(&every, 'f'),
                skip_sblanks: has_char(&first, 'b'),
                skip_eblanks: has_char(&last, 'b'),
                reverse: has_char(&every, 'r'),
            },
        )
    }
}

/// The position behind the field that starts at `p`: with a separator, behind the
/// next one; without, behind blanks and the bytes up to the next blank.
pub open spec fn after_field(line: Seq<u8>, p: int, tab: Option<u8>) -> int {
    match tab {
        Some(t) => {
            let q = run_end(line, p, other_than(t));
            if q < line.len() {
                q + 1
            } else {
                q
            }
        },
        None => run_end(line, run_end(line, p, blank()), outside(blank())),
    }
}

/// The position behind the first `n` fields.
pub open spec fn after_fields(line: Seq<u8>, n: nat, tab: Option<u8>) -> int
    decreases n,
{
    if n == 0 {
        0
    } else {
        after_field(line, after_fields(line, (n - 1) as nat, tab), tab)
    }
}

/// The position where field `n` ends: at the separator behind it, or at the blank
/// behind it.
pub open spec fn end_of_field(line: Seq<u8>, n: nat, tab: Option<u8>) -> int {
    match tab {
        Some(t) => run_end(line, after_fields(line, (n - 1) as nat, tab), other_than(t)),
        None => after_fields(line, n, tab),
    }
}

/// `a` or `b`, whichever is smaller.
pub open spec fn smaller(a: int, b: int) -> int {
    if a <= b {
        a
    } else {
        b
    }
}

/// `p`, or behind the blanks there.
pub open spec fn behind_blanks(line: Seq<u8>, p: int, skip: bool) -> int {
    if skip {
        run_end(line, p, blank())
    } else {
        p
    }
}

/// Where `key` starts in `line`.
pub open spec fn key_start(line: Seq<u8>, key: KeyDef, tab: Option<u8>) -> int {
    let p = behind_blanks(
        line,
        after_fields(line, (key.start_field - 1) as nat, tab),
        key.skip_sblanks,
    );
    let into: int = if key.start_char == 0 {
        0
    } else {
        key.start_char - 1
    };
    smaller(p + into, line.len() as int)
}

/// Where `key` ends in `line` by its end position alone.
pub open spec fn key_limit(line: Seq<u8>, key: KeyDef, tab: Option<u8>) -> int {
    match key.end_field {
        None => line.len() as int,
        Some(n) => if key.end_char == 0 {
            end_of_field(line, n as nat, tab)
        } else {
            let p = behind_blanks(
                line,
                after_fields(line, (n - 1) as nat, tab),
                key.skip_eblanks,
            );
            smaller(p + key.end_char, line.len() as int)
        },
    }
}

/// Where `key` ends in `line`: never before it starts.
pub open spec fn key_end(line: Seq<u8>, key: KeyDef, tab: Option<u8>) -> int {
    if key_limit(line, key, tab) < key_start(line, key, tab) {
        key_start(line, key, tab)
    } else {
        key_limit(line, key, tab)
    }
}

/// The bytes of `line` that `key` selects.
pub open spec fn key_bytes(line: Seq<u8>, key: KeyDef, tab: Option<u8>) -> Seq<u8> {
    line.subrange(key_start(line, key, tab), key_end(line, key, tab))
}

proof fn lemma_after_field(line: Seq<u8>, p: int, tab: Option<u8>)
    requires
        0 <= p <= line.len(),
    ensures
        p <= after_field(line, p, tab) <= line.len(),
{
    match tab {
        Some(t) => lemma_run_end_bounds(line, p, other_than(t)),
        None => {
            lemma_run_end_bounds(line, p, blank());
            lemma_run_end_bounds(line, run_end(line, p, blank()), outside(blank()));
        },
    }
}

proof fn lemma_after_fields(line: Seq<u8>, n: nat, tab: Option<u8>)
    ensures
        0 <= after_fields(line, n, tab) <= line.len(),
    decreases n,
{
    if n > 0 {
        lemma_after_fields(line, (n - 1) as nat, tab);
        lemma_after_field(line, after_fields(line, (n - 1) as nat, tab), tab);
    }
}

/// Behind the end of the line there are no more fields.
proof fn lemma_no_more_fields(line: Seq<u8>, i: nat, n: nat, tab: Option<u8>)
    requires
        i <= n,
        after_fields(line, i, tab) == line.len(),
    ensures
        after_fields(line, n, tab) == line.len(),
    decreases n,
{
    if i < n {
        lemma_no_more_fields(line, i, (n - 1) as nat, tab);
        lemma_after_field(line, line.len() as int, tab);
    }
}

/// The position behind the first `groups` fields of `line`.
pub fn pos_after_fields(line: &[u8], groups: usize, tab: Option<u8>) -> (p: usize)
    ensures
        p == after_fields(line@, groups as nat, tab),
        p <= line@.len(),
{
    let mut p: usize = 0;
    let mut i: usize = 0;
    while i < groups && p < line.len()
        invariant
            i <= groups,
            p <= line@.len(),
            p == after_fields(line@, i as nat, tab),
        decreases groups - i,
    {
        match tab {
            Some(t) => {
                p = next_byte(line, p, t);
                if p < line.len() {
                    p += 1;
                }
            },
            None => {
                p = word_end(line, blanks_end(line, p));
            },
        }
        i += 1;
    }
    proof {
        if i < groups {
            lemma_no_more_fields(line@, i as nat, groups as nat, tab);
        }
    }
    p
}

/// The position where field `n`, counted from 1, ends.
pub fn field_end(line: &[u8], n: usize, tab: Option<u8>) -> (p: usize)
    requires
        n >= 1 || tab.is_none(),
    ensures
        p == end_of_field(line@, n as nat, tab),
        p <= line@.len(),
{
    match tab {
        Some(t) => next_byte(line, pos_after_fields(line, n - 1, tab), t),
        None => pos_after_fields(line, n, tab),
    }
}

/// `p + n`, or `limit` where that is less.
fn advance(p: usize, n: usize, limit: usize) -> (r: usize)
    requires
        p <= limit,
    ensures
        r == smaller(p + n, limit as int),
{
    if n >= limit - p {
        limit
    } else {
        p + n
    }
}

/// The range of bytes, start and end, that `key` selects from `line`.
pub fn extract_range(line: &[u8], key: &KeyDef, tab: Option<u8>) -> (r: (usize, usize))
    requires
        key.is_valid(tab),
    ensures
        r.0 == key_start(line@, *key, tab),
        r.1 == key_end(line@, *key, tab),
        r.0 <= r.1 <= line@.len(),
{
    let limit: usize = line.len();
    let mut start: usize = pos_after_fields(line, key.start_field - 1, tab);
    if key.skip_sblanks {
        start = blanks_end(line, start);
    }
    let into: usize = if key.start_char == 0 {
        0
    } else {
        key.start_char - 1
    };
    let start: usize = advance(start, into, limit);
    let end: usize = match key.end_field {
        None => limit,
        Some(n) => if key.end_char == 0 {
            field_end(line, n, tab)
        } else {
            let mut p: usize = pos_after_fields(line, n - 1, tab);
            if key.skip_eblanks {
                p = blanks_end(line, p);
            }
            advance(p, key.end_char, limit)
        },
    };
    if end < start {
        (start, start)
    } else {
        (start, end)
    }
}

/// The bytes that `key` selects from `line`.
pub fn extract<'a>(line: &'a [u8], key: &KeyDef, tab: Option<u8>) -> (r: &'a [u8])
    requires
        key.is_valid(tab),
    ensures
        r@ == key_bytes(line@, *key, tab),
{
    let (start, end) = extract_range(line, key, tab);
    &line[start..end]
}

/// The order of two lines by one key.
pub open spec fn one_key_order(key: KeyDef, tab: Option<u8>, a: Seq<u8>, b: Seq<u8>) -> Ordering {
    directed(
        kind_order(key.kind, key.fold, key_bytes(a, key, tab), key_bytes(b, key, tab)),
        key.reverse,
    )
}

/// The order of two lines by several keys: the first key that tells them apart
/// decides.
pub open spec fn keys_order(keys: Seq<KeyDef>, tab: Option<u8>, a: Seq<u8>, b: Seq<u8>) -> Ordering
    decreases keys.len(),
{
    if keys.len() == 0 {
        Ordering::Equal
    } else {
        tie_broken(
            one_key_order(keys[0], tab, a, b),
            keys_order(keys.drop_first(), tab, a, b),
        )
    }
}

/// The first key that tells `a` and `b` apart.
pub open spec fn deciding_key(keys: Seq<KeyDef>, tab: Option<u8>, a: Seq<u8>, b: Seq<u8>) -> Option<KeyDef>
    decreases keys.len(),
{
    if keys.len() == 0 {
        None
    } else if one_key_order(keys[0], tab, a, b) != Ordering::Equal {
        Some(keys[0])
    } else {
        deciding_key(keys.drop_first(), tab, a, b)
    }
}

/// How lines are compared: by the keys in turn, and then perhaps as a whole.
#[derive(Clone, Debug)]
pub struct Sorter {
    /// The keys; a single one for the whole line where none was given.
    pub keys: Vec<KeyDef>,
    /// The field separator (`-t`); `None` splits fields at blanks.
    pub tab: Option<u8>,
    /// `-r`, as it applies to the comparison of whole lines.
    pub global_reverse: bool,
    /// Leave ties of the keys as they are (`-s`, `-u`).
    pub suppress_last_resort: bool,
}

impl Sorter {
    /// All keys select fields that exist.
    pub open spec fn is_valid(&self) -> bool {
        forall|i: int| 0 <= i < self.keys@.len() ==> (#[trigger] self.keys@[i]).is_valid(self.tab)
    }

    /// The order of two lines by the keys alone.
    pub open spec fn key_order(&self, a: Seq<u8>, b: Seq<u8>) -> Ordering {
        keys_order(self.keys@, self.tab, a, b)
    }

    /// `o`, a tie broken by the whole lines unless that is suppressed.
    pub open spec fn finished(&self, o: Ordering, a: Seq<u8>, b: Seq<u8>) -> Ordering {
        if self.suppress_last_resort {
            o
        } else {
            tie_broken(o, directed(bytes_order(a, b), self.global_reverse))
        }
    }

    /// The order of two lines.
    pub open spec fn order(&self, a: Seq<u8>, b: Seq<u8>) -> Ordering {
        self.finished(self.key_order(a, b), a, b)
    }

    /// Compares two lines.
    pub fn compare(&self, a: &[u8], b: &[u8]) -> (o: Ordering)
        requires
            self.is_valid(),
        ensures
            o == self.order(a@, b@),
    {
        let o = self.check_compare(a, b);
        self.finish(o, a, b)
    }

    /// Breaks a tie of the keys by the whole lines, unless that is suppressed.
    pub fn finish(&self, key_ord: Ordering, a: &[u8], b: &[u8]) -> (o: Ordering)
        ensures
            o == self.finished(key_ord, a@, b@),
    {
        match key_ord {
            Ordering::Equal => {
                if self.suppress_last_resort {
                    return Ordering::Equal;
                }
                let o = compare_bytes(a, b);
                if self.global_reverse {
                    flip(o)
                } else {
                    o
                }
            },
            _ => key_ord,
        }
    }

    /// Whether the keys do not tell two lines apart.
    pub fn key_equal(&self, a: &[u8], b: &[u8]) -> (r: bool)
        requires
            self.is_valid(),
        ensures
            r == (self.key_order(a@, b@) == Ordering::Equal),
    {
        let mut i: usize = 0;
        assert(self.keys@.skip(0) =~= self.keys@);
        while i < self.keys.len()
            invariant
                self.is_valid(),
                i <= self.keys@.len(),
                self.key_order(a@, b@) == keys_order(self.keys@.skip(ix(i)), self.tab, a@, b@),
            decreases self.keys@.len() - i,
        {
            let key = &self.keys[i];
            assert(self.keys@.skip(ix(i)).drop_first() =~= self.keys@.skip(i + 1));
            match compare_kind(
                extract(a, key, self.tab),
                extract(b, key, self.tab),
                key.kind,
                key.fold,
            ) {
                Ordering::Equal => {},
                _ => {
                    return false;
                },
            }
            i += 1;
        }
        true
    }

    /// The range of the first key within `line`.
    pub fn first_key_range(&self, line: &[u8]) -> (r: (usize, usize))
        requires
            self.is_valid(),
        ensures
            self.keys@.len() > 0 ==> r.0 == key_start(line@, self.keys@[0], self.tab) && r.1
                == key_end(line@, self.keys@[0], self.tab),
            self.keys@.len() == 0 ==> r.0 == 0 && r.1 == line@.len(),
            r.0 <= r.1 <= line@.len(),
    {
        if self.keys.len() > 0 {
            extract_range(line, &self.keys[0], self.tab)
        } else {
            (0, line.len())
        }
    }

    /// The range within `b` of the first key that tells `b` from `a`; the whole
    /// line where none does.
    pub fn breaking_key_range(&self, a: &[u8], b: &[u8]) -> (r: (usize, usize))
        requires
            self.is_valid(),
        ensures
            match deciding_key(self.keys@, self.tab, a@, b@) {
                Some(key) => r.0 == key_start(b@, key, self.tab) && r.1 == key_end(
                    b@,
                    key,
                    self.tab,
                ),
                None => r.0 == 0 && r.1 == b@.len(),
            },
            r.0 <= r.1 <= b@.len(),
    {
        let mut i: usize = 0;
        assert(self.keys@.skip(0) =~= self.keys@);
        while i < self.keys.len()
            invariant
                self.is_valid(),
                i <= self.keys@.len(),
                deciding_key(self.keys@, self.tab, a@, b@) == deciding_key(
                    self.keys@.skip(ix(i)),
                    self.tab,
                    a@,
                    b@,
                ),
            decreases self.keys@.len() - i,
        {
            let key = &self.keys[i];
            assert(self.keys@.skip(ix(i)).drop_first() =~= self.keys@.skip(i + 1));
            match compare_kind(
                extract(a, key, self.tab),
                extract(b, key, self.tab),
                key.kind,
                key.fold,
            ) {
                Ordering::Equal => {},
                _ => {
                    return extract_range(b, key, self.tab);
                },
            }
            i += 1;
        }
        (0, b.len())
    }

    /// Compares two lines by the keys alone.
    pub fn check_compare(&self, a: &[u8], b: &[u8]) -> (o: Ordering)
        requires
            self.is_valid(),
        ensures
            o == self.key_order(a@, b@),
    {
        let mut i: usize = 0;
        assert(self.keys@.skip(0) =~= self.keys@);
        while i < self.keys.len()
            invariant
                self.is_valid(),
                i <= self.keys@.len(),
                self.key_order(a@, b@) == keys_order(self.keys@.skip(ix(i)), self.tab, a@, b@),
            decreases self.keys@.len() - i,
        {
            let key = &self.keys[i];
            assert(self.keys@.skip(ix(i)).drop_first() =~= self.keys@.skip(i + 1));
            let o = compare_kind(
                extract(a, key, self.tab),
                extract(b, key, self.tab),
                key.kind,
                key.fold,
            );
            match o {
                Ordering::Equal => {},
                _ => {
                    return if key.reverse {
                        flip(o)
                    } else {
                        o
                    };
                },
            }
            i += 1;
        }
        Ordering::Equal
    }
}

/// The order by one key is total.
pub proof fn one_key_order_is_total(key: KeyDef, tab: Option<u8>)
    ensures
        is_total_order(|a: Seq<u8>, b: Seq<u8>| one_key_order(key, tab, a, b)),
{
    let c = |a: Seq<u8>, b: Seq<u8>| kind_order(key.kind, key.fold, a, b);
    let d = |a: Seq<u8>, b: Seq<u8>|
        kind_order(key.kind, key.fold, key_bytes(a, key, tab), key_bytes(b, key, tab));
    kind_order_is_total(key.kind, key.fold);
    lemma_pullback_is_total(d, c, |a: Seq<u8>| key_bytes(a, key, tab));
    lemma_directed_is_total(
        |a: Seq<u8>, b: Seq<u8>| one_key_order(key, tab, a, b),
        d,
        key.reverse,
    );
}

/// The order by several keys is total.
pub proof fn keys_order_is_total(keys: Seq<KeyDef>, tab: Option<u8>)
    ensures
        is_total_order(|a: Seq<u8>, b: Seq<u8>| keys_order(keys, tab, a, b)),
    decreases keys.len(),
{
    if keys.len() > 0 {
        let rest = keys.drop_first();
        one_key_order_is_total(keys[0], tab);
        keys_order_is_total(rest, tab);
        lemma_tie_broken_is_total(
            |a: Seq<u8>, b: Seq<u8>| keys_order(keys, tab, a, b),
            |a: Seq<u8>, b: Seq<u8>| one_key_order(keys[0], tab, a, b),
            |a: Seq<u8>, b: Seq<u8>| keys_order(rest, tab, a, b),
        );
    }
}

/// The order of lines is total, and unless the comparison of whole lines is
/// suppressed only identical lines tie.
pub proof fn sorter_order_is_total(sorter: Sorter)
    ensures
        is_total_order(|a: Seq<u8>, b: Seq<u8>| sorter.order(a, b)),
        !sorter.suppress_last_resort ==> forall|a: Seq<u8>, b: Seq<u8>| #[trigger]
            sorter.order(a, b) == Ordering::Equal ==> a == b,
{
    let keys = |a: Seq<u8>, b: Seq<u8>| sorter.key_order(a, b);
    let by_keys = |a: Seq<u8>, b: Seq<u8>| keys_order(sorter.keys@, sorter.tab, a, b);
    let bytes = |a: Seq<u8>, b: Seq<u8>| bytes_order(a, b);
    let last = |a: Seq<u8>, b: Seq<u8>| directed(bytes_order(a, b), sorter.global_reverse);
    let all = |a: Seq<u8>, b: Seq<u8>| sorter.order(a, b);
    keys_order_is_total(sorter.keys@, sorter.tab);
    lemma_pullback_is_total(keys, by_keys, |a: Seq<u8>| a);
    bytes_order_is_total();
    lemma_directed_is_total(last, bytes, sorter.global_reverse);
    if sorter.suppress_last_resort {
        lemma_pullback_is_total(all, by_keys, |a: Seq<u8>| a);
    } else {
        lemma_tie_broken_is_total(all, keys, last);
        assert forall|a: Seq<u8>, b: Seq<u8>| #[trigger]
            sorter.order(a, b) == Ordering::Equal implies a == b by {
            bytes_order_ties_only_equal(a, b);
        }
    }
}

/// A key decides where the keys tell lines apart, and decides as it orders them.
pub proof fn deciding_key_decides(keys: Seq<KeyDef>, tab: Option<u8>, a: Seq<u8>, b: Seq<u8>)
    ensures
        match deciding_key(keys, tab, a, b) {
            Some(key) => keys_order(keys, tab, a, b) == one_key_order(key, tab, a, b) && keys_order(
                keys,
                tab,
                a,
                b,
            ) != Ordering::Equal,
            None => keys_order(keys, tab, a, b) == Ordering::Equal,
        },
    decreases keys.len(),
{
    if keys.len() > 0 {
        deciding_key_decides(keys.drop_first(), tab, a, b);
    }
}

/// Comparing lines refines comparing keys: lines that the keys tell apart are
/// ordered by the keys.
pub proof fn compare_refines_check(sorter: Sorter, a: Seq<u8>, b: Seq<u8>)
    ensures
        sorter.key_order(a, b) != Ordering::Equal ==> sorter.order(a, b) == sorter.key_order(a, b),
        sorter.order(a, b) == Ordering::Equal ==> sorter.key_order(a, b) == Ordering::Equal,
{
}

/// A key that starts with the line and has no end covers the whole line; with
/// `-b`, all of it behind its blanks.
pub proof fn whole_line_key_covers_line(line: Seq<u8>, opts: KeyOpts, kind: Kind, reverse: bool, tab: Option<u8>)
    ensures
        key_bytes(line, whole_line_key(opts, kind, reverse), tab) == key_part(line, opts),
{
    lemma_lead(line, blank());
    assert(line.skip(0) =~= line);
    assert(line.subrange(lead(line, blank()), line.len() as int) =~= past(
        line,
        blank(),
    ));
    assert(line.subrange(0, line.len() as int) =~= line);
}

} // verus!
