//! Which bytes of a line a key selects, told on lines that are put together from
//! their fields.

use crate::key::{after_field, after_fields, end_of_field, key_bytes, key_limit, key_start, KeyDef};
use crate::plain::{are_spaces, is_space, starts_without_space};
use crate::text::{blank, lead, lemma_lead, lemma_run_in_front, other_than, outside, run_end};
use vstd::prelude::*;

verus! {

/// Fields with a separator between them.
pub open spec fn joined_fields(fields: Seq<Seq<u8>>, t: u8) -> Seq<u8>
    decreases fields.len(),
{
    if fields.len() == 0 {
        Seq::empty()
    } else if fields.len() == 1 {
        fields[0]
    } else {
        fields[0] + seq![t] + joined_fields(fields.drop_first(), t)
    }
}

/// No field holds the separator.
pub open spec fn lack_separator(fields: Seq<Seq<u8>>, t: u8) -> bool {
    forall|i: int, j: int|
        0 <= i < fields.len() && 0 <= j < fields[i].len() ==> #[trigger] fields[i][j] != t
}

proof fn lemma_field_in_front(field: Seq<u8>, rest: Seq<u8>, t: u8)
    requires
        forall|j: int| 0 <= j < field.len() ==> #[trigger] field[j] != t,
        rest.len() > 0 ==> rest[0] == t,
    ensures
        lead(field + rest, other_than(t)) == field.len(),
{
    lemma_run_in_front(field, rest, other_than(t));
}

proof fn lemma_separated_start(fields: Seq<Seq<u8>>, t: u8, n: nat)
    requires
        lack_separator(fields, t),
        n < fields.len(),
    ensures
        ({
            let line = joined_fields(fields, t);
            let p = after_fields(line, n, Some(t));
            &&& 0 <= p <= line.len()
            &&& line.skip(p) == joined_fields(fields.skip(n as int), t)
            &&& run_end(line, p, other_than(t)) == p + fields[n as int].len()
        }),
    decreases n,
{
    let line = joined_fields(fields, t);
    let p = after_fields(line, n, Some(t));
    if n == 0 {
        assert(fields.skip(0) =~= fields);
        assert(line.skip(0) =~= line);
    } else {
        let m = (n - 1) as nat;
        lemma_separated_start(fields, t, m);
        let from = fields.skip(m as int);
        assert(from[0] == fields[m as int]);
        assert(from.drop_first() =~= fields.skip(n as int));
        let q = after_fields(line, m, Some(t));
        let rest = line.skip(q);
        assert(rest == fields[m as int] + seq![t] + joined_fields(fields.skip(n as int), t));
        assert(p == q + fields[m as int].len() + 1);
        assert(line.skip(p) =~= rest.skip(fields[m as int].len() + 1 as int));
        assert(line.skip(p) =~= joined_fields(fields.skip(n as int), t));
    }
    let from = fields.skip(n as int);
    let field = fields[n as int];
    assert(from[0] == field);
    assert forall|j: int| 0 <= j < field.len() implies #[trigger] field[j] != t by {
        assert(fields[n as int][j] != t);
    }
    if from.len() == 1 {
        lemma_field_in_front(field, Seq::empty(), t);
        assert(field + Seq::<u8>::empty() =~= field);
    } else {
        let tail = seq![t] + joined_fields(from.drop_first(), t);
        lemma_field_in_front(field, tail, t);
        assert(line.skip(p) =~= field + tail);
    }
}

/// With a separator, what is behind the first `n` fields of a line starts with the
/// field after them; behind the last field there is nothing.
pub proof fn separated_fields_are_counted(fields: Seq<Seq<u8>>, t: u8, n: nat)
    requires
        lack_separator(fields, t),
        fields.len() > 0,
    ensures
        ({
            let line = joined_fields(fields, t);
            let p = after_fields(line, n, Some(t));
            &&& 0 <= p <= line.len()
            &&& n < fields.len() ==> line.skip(p) == joined_fields(fields.skip(n as int), t)
            &&& n >= fields.len() ==> p == line.len()
        }),
    decreases n,
{
    let line = joined_fields(fields, t);
    if n < fields.len() {
        lemma_separated_start(fields, t, n);
    } else {
        let m = (n - 1) as nat;
        separated_fields_are_counted(fields, t, m);
        if m < fields.len() {
            lemma_separated_start(fields, t, m);
            let from = fields.skip(m as int);
            assert(from.len() == 1 && from[0] == fields[m as int]);
            let q = after_fields(line, m, Some(t));
            assert(line.skip(q).len() == line.len() - q);
        } else {
            assert(line.skip(line.len() as int) =~= Seq::<u8>::empty());
        }
    }
}

proof fn lemma_joined_split(fields: Seq<Seq<u8>>, t: u8, n: int)
    requires
        0 < n < fields.len(),
    ensures
        joined_fields(fields, t) == joined_fields(fields.take(n), t) + seq![t] + joined_fields(
            fields.skip(n),
            t,
        ),
    decreases n,
{
    let rest = fields.drop_first();
    let front = fields.take(n);
    assert(front[0] == fields[0]);
    if n == 1 {
        assert(fields.skip(1) =~= rest);
    } else {
        lemma_joined_split(rest, t, n - 1);
        assert(front.drop_first() =~= rest.take(n - 1));
        assert(fields.skip(n) =~= rest.skip(n - 1));
        let (a, b, c) = (
            fields[0],
            joined_fields(rest.take(n - 1), t),
            joined_fields(rest.skip(n - 1), t),
        );
        assert(a + seq![t] + (b + seq![t] + c) =~= (a + seq![t] + b) + seq![t] + c);
    }
}

/// With a separator, a field ends before the separator behind it.
pub proof fn separated_fields_end(fields: Seq<Seq<u8>>, t: u8, n: nat)
    requires
        lack_separator(fields, t),
        fields.len() > 0,
        n >= 1,
    ensures
        ({
            let line = joined_fields(fields, t);
            let p = end_of_field(line, n, Some(t));
            &&& 0 <= p <= line.len()
            &&& n <= fields.len() ==> line.take(p) == joined_fields(fields.take(n as int), t)
            &&& n > fields.len() ==> p == line.len()
        }),
{
    let line = joined_fields(fields, t);
    let m = (n - 1) as nat;
    separated_fields_are_counted(fields, t, m);
    if n <= fields.len() {
        lemma_separated_start(fields, t, m);
        let p = after_fields(line, m, Some(t));
        let field = fields[m as int];
        let from = fields.skip(m as int);
        assert(from[0] == field);
        if n < fields.len() {
            lemma_joined_split(fields, t, n as int);
            assert(from.drop_first() =~= fields.skip(n as int));
            assert(line.skip(p) =~= field + seq![t] + joined_fields(fields.skip(n as int), t));
            assert(line.skip(p).len() == line.len() - p);
            assert(line.take(p + field.len()) =~= joined_fields(fields.take(n as int), t));
        } else {
            assert(fields.take(n as int) =~= fields);
            assert(line.skip(p).len() == line.len() - p);
            assert(line.take(line.len() as int) =~= line);
        }
    } else {
        assert(line.skip(line.len() as int) =~= Seq::<u8>::empty());
    }
}

/// A word of a line with the blanks before it.
pub struct Word {
    /// The blanks.
    pub blanks: Seq<u8>,
    /// The bytes behind them.
    pub word: Seq<u8>,
}

/// Words with their blanks, and blanks behind them.
pub open spec fn joined_words(words: Seq<Word>, end: Seq<u8>) -> Seq<u8>
    decreases words.len(),
{
    if words.len() == 0 {
        end
    } else {
        words[0].blanks + words[0].word + joined_words(words.drop_first(), end)
    }
}

/// There are blanks before each word but perhaps the first, and none inside words.
pub open spec fn are_words(words: Seq<Word>) -> bool {
    &&& forall|i: int| 0 <= i < words.len() ==> are_spaces((#[trigger] words[i]).blanks)
    &&& forall|i: int| 0 < i < words.len() ==> (#[trigger] words[i]).blanks.len() > 0
    &&& forall|i: int| 0 <= i < words.len() ==> (#[trigger] words[i]).word.len() > 0
    &&& forall|i: int, j: int|
        0 <= i < words.len() && 0 <= j < words[i].word.len() ==> !is_space(
            #[trigger] words[i].word[j],
        )
}

proof fn lemma_word_in_front(line: Seq<u8>, p: int, w: Word, rest: Seq<u8>)
    requires
        0 <= p <= line.len(),
        line.skip(p) == w.blanks + w.word + rest,
        are_spaces(w.blanks),
        w.word.len() > 0,
        forall|j: int| 0 <= j < w.word.len() ==> !is_space(#[trigger] w.word[j]),
        rest.len() > 0 ==> is_space(rest[0]),
    ensures
        after_field(line, p, None) == p + w.blanks.len() + w.word.len(),
        line.skip(p + w.blanks.len() + w.word.len()) == rest,
{
    let s = line.skip(p);
    assert(s =~= w.blanks + (w.word + rest));
    assert forall|k: int| 0 <= k < w.blanks.len() implies (blank())(#[trigger] w.blanks[k]) by {
        assert(is_space(w.blanks[k]));
    }
    assert(!is_space(w.word[0]));
    lemma_run_in_front(w.blanks, w.word + rest, blank());
    let q = p + w.blanks.len();
    assert(line.skip(q) =~= s.skip(w.blanks.len() as int));
    assert(line.skip(q) =~= w.word + rest);
    assert forall|k: int| 0 <= k < w.word.len() implies (outside(blank()))(#[trigger] w.word[k]) by {
        assert(!is_space(w.word[k]));
    }
    lemma_run_in_front(w.word, rest, outside(blank()));
    assert(line.skip(q + w.word.len()) =~= (w.word + rest).skip(w.word.len() as int));
    assert((w.word + rest).skip(w.word.len() as int) =~= rest);
}

proof fn lemma_joined_words_split(words: Seq<Word>, end: Seq<u8>, n: int)
    requires
        0 <= n <= words.len(),
    ensures
        joined_words(words, end) == joined_words(words.take(n), Seq::empty()) + joined_words(
            words.skip(n),
            end,
        ),
    decreases n,
{
    let front = words.take(n);
    let none = Seq::<u8>::empty();
    if n == 0 {
        assert(words.skip(0) =~= words);
        assert(joined_words(front, none) + joined_words(words, end) =~= joined_words(words, end));
    } else {
        let rest = words.drop_first();
        lemma_joined_words_split(rest, end, n - 1);
        assert(front[0] == words[0]);
        assert(front.drop_first() =~= rest.take(n - 1));
        assert(words.skip(n) =~= rest.skip(n - 1));
        let (a, b, c) = (
            words[0].blanks + words[0].word,
            joined_words(rest.take(n - 1), none),
            joined_words(rest.skip(n - 1), end),
        );
        assert(a + (b + c) =~= (a + b) + c);
    }
}

/// Without a separator a field is a word with the blanks before it: what is behind the
/// first `n` fields starts with the blanks before the next word, and a field ends with
/// its word. Behind the last word there are only the blanks at the end of the line,
/// and then nothing.
pub proof fn words_are_counted(words: Seq<Word>, end: Seq<u8>, n: nat)
    requires
        are_words(words),
        are_spaces(end),
    ensures
        ({
            let line = joined_words(words, end);
            let p = after_fields(line, n, None);
            &&& end_of_field(line, n, None) == p
            &&& 0 <= p <= line.len()
            &&& n <= words.len() ==> line.take(p) == joined_words(
                words.take(n as int),
                Seq::empty(),
            ) && line.skip(p) == joined_words(words.skip(n as int), end)
            &&& n > words.len() ==> p == line.len()
        }),
    decreases n,
{
    let line = joined_words(words, end);
    let p = after_fields(line, n, None);
    if n == 0 {
        assert(words.skip(0) =~= words);
        assert(line.skip(0) =~= line);
        assert(line.take(0) =~= Seq::<u8>::empty());
    } else {
        let m = (n - 1) as nat;
        words_are_counted(words, end, m);
        let q = after_fields(line, m, None);
        if n <= words.len() {
            let w = words[m as int];
            let from = words.skip(m as int);
            let rest = words.skip(n as int);
            assert(from[0] == w);
            assert(from.drop_first() =~= rest);
            let tail = joined_words(rest, end);
            if tail.len() > 0 {
                if rest.len() > 0 {
                    assert(rest[0] == words[n as int]);
                    assert(words[n as int].blanks.len() > 0);
                    assert(tail[0] == words[n as int].blanks[0]);
                    assert(are_spaces(words[n as int].blanks));
                    assert(is_space(words[n as int].blanks[0]));
                } else {
                    assert(is_space(end[0]));
                }
            }
            assert(are_spaces(words[m as int].blanks));
            assert forall|j: int| 0 <= j < w.word.len() implies !is_space(#[trigger] w.word[j]) by {
                assert(!is_space(words[m as int].word[j]));
            }
            lemma_word_in_front(line, q, w, tail);
            lemma_joined_words_split(words, end, n as int);
            assert(line.skip(p).len() == line.len() - p);
            assert(line.take(p) =~= joined_words(words.take(n as int), Seq::empty()));
        } else {
            let s = line.skip(q);
            if m == words.len() {
                assert(words.skip(m as int).len() == 0);
                assert(s == end);
            } else {
                assert(s =~= Seq::<u8>::empty());
            }
            let none = Seq::<u8>::empty();
            assert forall|k: int| 0 <= k < s.len() implies (blank())(#[trigger] s[k]) by {
                assert(is_space(end[k]));
            }
            lemma_run_in_front(s, none, blank());
            assert(s + none =~= s);
            assert(line.skip(line.len() as int) =~= none);
            lemma_lead(none, outside(blank()));
        }
    }
}

/// The lesser of two positions.
pub open spec fn no_further(p: int, end: int) -> int {
    if p < end {
        p
    } else {
        end
    }
}

/// A key starts at its character of its start field, counted from the first byte that
/// is no blank where it skips blanks, and never behind the end of the line.
pub proof fn keys_start_in_fields(line: Seq<u8>, key: KeyDef, tab: Option<u8>, blanks: Seq<u8>, body: Seq<u8>)
    requires
        key.start_field >= 1,
        key.start_char >= 1,
        0 <= after_fields(line, (key.start_field - 1) as nat, tab) <= line.len(),
        line.skip(after_fields(line, (key.start_field - 1) as nat, tab)) == blanks + body,
        are_spaces(blanks),
        starts_without_space(body),
    ensures
        key_start(line, key, tab) == no_further(
            line.len() - body.len() - (if key.skip_sblanks {
                0
            } else {
                blanks.len() as int
            }) + key.start_char - 1,
            line.len() as int,
        ),
{
    let p = after_fields(line, (key.start_field - 1) as nat, tab);
    assert forall|k: int| 0 <= k < blanks.len() implies (blank())(#[trigger] blanks[k]) by {
        assert(is_space(blanks[k]));
    }
    lemma_run_in_front(blanks, body, blank());
    assert(line.skip(p).len() == line.len() - p);
}

/// A key ends behind its last character of its end field, counted from the first byte
/// that is no blank where it skips blanks there, and never behind the end of the line.
pub proof fn keys_end_in_fields(line: Seq<u8>, key: KeyDef, tab: Option<u8>, blanks: Seq<u8>, body: Seq<u8>)
    requires
        key.end_field matches Some(n) && n >= 1,
        key.end_char >= 1,
        0 <= after_fields(line, (key.end_field->0 - 1) as nat, tab) <= line.len(),
        line.skip(after_fields(line, (key.end_field->0 - 1) as nat, tab)) == blanks + body,
        are_spaces(blanks),
        starts_without_space(body),
    ensures
        key_limit(line, key, tab) == no_further(
            line.len() - body.len() - (if key.skip_eblanks {
                0
            } else {
                blanks.len() as int
            }) + key.end_char,
            line.len() as int,
        ),
{
    let p = after_fields(line, (key.end_field->0 - 1) as nat, tab);
    assert forall|k: int| 0 <= k < blanks.len() implies (blank())(#[trigger] blanks[k]) by {
        assert(is_space(blanks[k]));
    }
    lemma_run_in_front(blanks, body, blank());
    assert(line.skip(p).len() == line.len() - p);
}

/// Without a character a key ends with its end field, and without an end with the
/// line. It selects the bytes from its start to its end, and none where it would end
/// before it starts.
pub proof fn keys_select_ranges(line: Seq<u8>, key: KeyDef, tab: Option<u8>)
    ensures
        key.end_field is None ==> key_limit(line, key, tab) == line.len(),
        key.end_char == 0 ==> (key.end_field matches Some(n) ==> key_limit(line, key, tab)
            == end_of_field(line, n as nat, tab)),
        key_start(line, key, tab) <= key_limit(line, key, tab) ==> key_bytes(line, key, tab)
            == line.subrange(key_start(line, key, tab), key_limit(line, key, tab)),
        key_start(line, key, tab) > key_limit(line, key, tab) ==> key_bytes(line, key, tab)
            == line.subrange(key_start(line, key, tab), key_start(line, key, tab)),
{
}

/// The key covers whole fields: `-k A,B` or `-k A`.
pub open spec fn covers_whole_fields(key: KeyDef, a: nat, b: Option<nat>) -> bool {
    &&& key.start_field == a
    &&& key.start_char == 1
    &&& !key.skip_sblanks
    &&& key.end_char == 0
    &&& match b {
        Some(n) => key.end_field is Some && key.end_field->0 == n,
        None => key.end_field is None,
    }
}

/// With a separator, `-k A,B` selects the fields from `A` to `B` with the separators
/// between them, and `-k A` all from `A` on.
pub proof fn keys_select_separated_fields(fields: Seq<Seq<u8>>, t: u8, key: KeyDef, a: nat, b: Option<nat>)
    requires
        lack_separator(fields, t),
        1 <= a <= fields.len(),
        b matches Some(n) ==> a <= n,
        covers_whole_fields(key, a, b),
    ensures
        key_bytes(joined_fields(fields, t), key, Some(t)) == (match b {
            Some(n) => joined_fields(fields.subrange(a - 1, no_further(n as int, fields.len() as int)), t),
            None => joined_fields(fields.skip(a - 1), t),
        }),
{
    let line = joined_fields(fields, t);
    let m = (a - 1) as nat;
    separated_fields_are_counted(fields, t, m);
    let p = after_fields(line, m, Some(t));
    assert(line.skip(p).len() == line.len() - p);
    assert(line.subrange(p, line.len() as int) =~= line.skip(p));
    if let Some(n) = b {
        separated_fields_end(fields, t, n);
        let q = end_of_field(line, n, Some(t));
        if n < fields.len() {
            let front = fields.take(n as int);
            let mid = fields.subrange(a - 1, n as int);
            assert(mid =~= front.skip(m as int));
            assert(lack_separator(front, t)) by {
                assert forall|i: int, j: int|
                    0 <= i < front.len() && 0 <= j < front[i].len() implies #[trigger] front[i][j]
                    != t by {
                    assert(fields[i][j] != t);
                }
            }
            if m > 0 {
                lemma_joined_split(fields, t, m as int);
                lemma_joined_split(front, t, m as int);
                assert(front.take(m as int) =~= fields.take(m as int));
            } else {
                assert(fields.skip(0) =~= fields);
                assert(front.skip(0) =~= front);
            }
            assert(line.subrange(p, q) =~= line.take(q).skip(p));
            assert(p <= q) by {
                assert(line.take(q).len() == q);
            }
            if m > 0 {
                assert(line.take(q).skip(p) =~= joined_fields(mid, t));
            } else {
                assert(line.take(q).skip(0) =~= line.take(q));
            }
        } else {
            assert(fields.subrange(a - 1, fields.len() as int) =~= fields.skip(a - 1));
            if n == fields.len() {
                assert(fields.take(n as int) =~= fields);
                assert(line.take(q).len() == q);
            }
        }
    }
}

/// Without a separator, `-k A,B` selects the words from `A` to `B` with the blanks
/// before them, and `-k A` all from the blanks before word `A` on.
pub proof fn keys_select_words(words: Seq<Word>, end: Seq<u8>, key: KeyDef, a: nat, b: Option<nat>)
    requires
        are_words(words),
        are_spaces(end),
        1 <= a <= words.len(),
        b matches Some(n) ==> a <= n <= words.len(),
        covers_whole_fields(key, a, b),
    ensures
        key_bytes(joined_words(words, end), key, None) == (match b {
            Some(n) => joined_words(words.subrange(a - 1, n as int), Seq::empty()),
            None => joined_words(words.skip(a - 1), end),
        }),
{
    let line = joined_words(words, end);
    let m = (a - 1) as nat;
    words_are_counted(words, end, m);
    let p = after_fields(line, m, None);
    assert(line.skip(p).len() == line.len() - p);
    assert(line.subrange(p, line.len() as int) =~= line.skip(p));
    if let Some(n) = b {
        words_are_counted(words, end, n);
        let q = end_of_field(line, n, None);
        let front = words.take(n as int);
        let mid = words.subrange(a - 1, n as int);
        lemma_joined_words_split(front, Seq::empty(), m as int);
        assert(front.take(m as int) =~= words.take(m as int));
        assert(front.skip(m as int) =~= mid);
        assert(line.take(q).len() == q && line.take(p).len() == p);
        assert(line.subrange(p, q) =~= line.take(q).skip(p));
        assert(line.take(q).skip(p) =~= joined_words(mid, Seq::empty()));
    }
}

/// A key that starts behind the last field of a line selects nothing.
pub proof fn keys_behind_the_line_are_empty(fields: Seq<Seq<u8>>, t: u8, key: KeyDef)
    requires
        lack_separator(fields, t),
        fields.len() > 0,
        key.start_field > fields.len(),
        key.start_char >= 1,
        key.end_field is None || key.end_char == 0 && key.end_field->0 >= 1,
    ensures
        key_bytes(joined_fields(fields, t), key, Some(t)).len() == 0,
{
    let line = joined_fields(fields, t);
    separated_fields_are_counted(fields, t, (key.start_field - 1) as nat);
    assert(line.skip(line.len() as int) =~= Seq::<u8>::empty());
    lemma_lead(line.skip(line.len() as int), blank());
    if let Some(n) = key.end_field {
        separated_fields_end(fields, t, n as nat);
    }
}

} // verus!
