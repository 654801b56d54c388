//! Characters of option arguments: numbers, letters and messages.

use crate::decimal::decimal;
use crate::text::{digit, lead, lemma_lead_is};
use vstd::prelude::*;
use vstd::string::{StrSliceExecFns, StringExecFns};

verus! {

/// A decimal digit.
pub open spec fn digit_char() -> spec_fn(char) -> bool {
    |c: char| '0' <= c <= '9'
}

/// Any character but `t`.
pub open spec fn char_other_than(t: char) -> spec_fn(char) -> bool {
    |c: char| c != t
}

/// The codes of ASCII characters.
pub open spec fn codes(s: Seq<char>) -> Seq<u8> {
    s.map_values(|c: char| c as u8)
}

/// The number that digits stand for.
pub open spec fn number(s: Seq<char>) -> nat {
    decimal(codes(s))
}

/// All characters of `s` are digits.
pub open spec fn all_digit_chars(s: Seq<char>) -> bool {
    forall|i: int| 0 <= i < s.len() ==> (digit_char())(#[trigger] s[i])
}

/// The characters of `s`.
pub fn chars_of(s: &str) -> (v: Vec<char>)
    ensures
        v@ == s@,
{
    let mut v: Vec<char> = Vec::new();
    let n: usize = s.unicode_len();
    let mut i: usize = 0;
    while i < n
        invariant
            n == s@.len(),
            i <= n,
            v@ == s@.take(i as int),
        decreases n - i,
    {
        v.push(s.get_char(i));
        assert(v@ =~= s@.take(i + 1));
        i += 1;
    }
    assert(s@.take(n as int) =~= s@);
    v
}

/// Whether `c` is a decimal digit.
pub fn is_digit_char(c: char) -> (r: bool)
    ensures
        r == (digit_char())(c),
{
    '0' <= c && c <= '9'
}

/// How many digits `s` has from `from` on, before another character.
pub fn digit_chars_end(s: &Vec<char>, from: usize) -> (end: usize)
    requires
        from <= s@.len(),
    ensures
        from <= end <= s@.len(),
        end == from + lead(s@.skip(from as int), digit_char()),
        all_digit_chars(s@.subrange(from as int, end as int)),
{
    let mut i: usize = from;
    while i < s.len() && is_digit_char(s[i])
        invariant
            from <= i <= s@.len(),
            forall|k: int| from <= k < i ==> (digit_char())(#[trigger] s@[k]),
        decreases s@.len() - i,
    {
        i += 1;
    }
    proof {
        let t = s@.skip(from as int);
        assert forall|k: int| 0 <= k < i - from implies (digit_char())(#[trigger] t[k]) by {
            assert(t[k] == s@[from + k]);
        }
        lemma_lead_is(t, digit_char(), i - from);
    }
    i
}

/// The position of the next `t` at or behind `from`, or the end.
pub fn char_position(s: &Vec<char>, from: usize, t: char) -> (end: usize)
    requires
        from <= s@.len(),
    ensures
        from <= end <= s@.len(),
        end == from + lead(s@.skip(from as int), char_other_than(t)),
{
    let mut i: usize = from;
    while i < s.len() && s[i] != t
        invariant
            from <= i <= s@.len(),
            forall|k: int| from <= k < i ==> (char_other_than(t))(#[trigger] s@[k]),
        decreases s@.len() - i,
    {
        i += 1;
    }
    proof {
        let u = s@.skip(from as int);
        assert forall|k: int| 0 <= k < i - from implies (char_other_than(t))(#[trigger] u[k]) by {
            assert(u[k] == s@[from + k]);
        }
        lemma_lead_is(u, char_other_than(t), i - from);
    }
    i
}

/// Whether `c` occurs in `s`.
pub fn has_char(s: &Vec<char>, c: char) -> (r: bool)
    ensures
        r == s@.contains(c),
{
    let mut i: usize = 0;
    while i < s.len()
        invariant
            i <= s@.len(),
            forall|k: int| 0 <= k < i ==> s@[k] != c,
        decreases s@.len() - i,
    {
        if s[i] == c {
            assert(s@[i as int] == c);
            return true;
        }
        i += 1;
    }
    false
}

proof fn lemma_number_step(d: Seq<char>, i: int)
    requires
        0 <= i < d.len(),
        (digit_char())(d[i]),
    ensures
        number(d.take(i + 1)) == number(d.take(i)) * 10 + (d[i] as int - '0' as int),
{
    assert(codes(d.take(i + 1)).drop_last() =~= codes(d.take(i)));
    assert((digit())(codes(d.take(i + 1)).last()));
}

proof fn lemma_number_grows(d: Seq<char>, i: int, j: int)
    requires
        0 <= i <= j <= d.len(),
        all_digit_chars(d),
    ensures
        number(d.take(i)) <= number(d.take(j)),
    decreases j,
{
    if i < j {
        assert((digit_char())(d[j - 1]));
        lemma_number_step(d, j - 1);
        lemma_number_grows(d, i, j - 1);
    }
}

/// The number that the characters from `from` to `to` stand for, unless it is
/// larger than `limit`.
pub fn number_within(s: &Vec<char>, from: usize, to: usize, limit: u128) -> (r: Option<u128>)
    requires
        from <= to <= s@.len(),
        all_digit_chars(s@.subrange(from as int, to as int)),
        limit <= u64::MAX,
    ensures
        match r {
            Some(v) => v == number(s@.subrange(from as int, to as int)) && v <= limit,
            None => number(s@.subrange(from as int, to as int)) > limit,
        },
{
    let ghost d = s@.subrange(from as int, to as int);
    let mut v: u128 = 0;
    let mut i: usize = from;
    assert(codes(d.take(0)) =~= Seq::<u8>::empty());
    while i < to
        invariant
            from <= i <= to <= s@.len(),
            d == s@.subrange(from as int, to as int),
            all_digit_chars(d),
            limit <= u64::MAX,
            v == number(d.take(i - from)),
            v <= limit,
        decreases to - i,
    {
        let c: char = s[i];
        assert(d[i - from] == c);
        assert((digit_char())(d[i - from]));
        proof {
            lemma_number_step(d, i - from);
        }
        v = v * 10 + (c as u32 - '0' as u32) as u128;
        i += 1;
        if v > limit {
            proof {
                lemma_number_grows(d, i - from, d.len() as int);
                assert(d.take(d.len() as int) =~= d);
            }
            return None;
        }
    }
    assert(d.take(i - from) =~= d);
    Some(v)
}

/// `before`, `s` and `after` in one string.
pub fn joined(before: &str, s: &str, after: &str) -> (r: String)
    ensures
        r@ == before@ + s@ + after@,
{
    let mut r = before.to_owned();
    r.append(s);
    r.append(after);
    r
}

} // verus!
