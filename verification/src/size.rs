//! Buffer sizes (`-S`).

use crate::text::{lemma_lead_is, past};
use crate::words::{all_digit_chars, chars_of, digit_char, joined, number, number_within};
use vstd::prelude::*;
use vstd::string::StrSliceExecFns;

verus! {

/// A white space character, as Unicode has them.
pub open spec fn whitespace() -> spec_fn(char) -> bool {
    |c: char|
        {
            ||| '\u{9}' <= c <= '\u{d}'
            ||| c == ' ' || c == '\u{85}' || c == '\u{a0}' || c == '\u{1680}'
            ||| '\u{2000}' <= c <= '\u{200a}'
            ||| c == '\u{2028}' || c == '\u{2029}' || c == '\u{202f}' || c == '\u{205f}'
            ||| c == '\u{3000}'
        }
}

/// `s` without the white space at its end.
pub open spec fn trimmed_end(s: Seq<char>) -> Seq<char>
    decreases s.len(),
{
    if s.len() > 0 && (whitespace())(s.last()) {
        trimmed_end(s.drop_last())
    } else {
        s
    }
}

/// `s` without the white space at both ends.
pub open spec fn trimmed(s: Seq<char>) -> Seq<char> {
    trimmed_end(past(s, whitespace()))
}

/// The number of bytes that a size suffix stands for; `None` where `c` is no suffix.
pub open spec fn unit(c: char) -> Option<nat> {
    if c == 'b' || c == 'B' {
        Some(1)
    } else if c == 'k' || c == 'K' {
        Some(0x400)
    } else if c == 'm' || c == 'M' {
        Some(0x10_0000)
    } else if c == 'g' || c == 'G' {
        Some(0x4000_0000)
    } else if c == 't' || c == 'T' {
        Some(0x100_0000_0000)
    } else if c == 'p' || c == 'P' {
        Some(0x4_0000_0000_0000)
    } else {
        None
    }
}

/// The number that `s` is: digits, perhaps behind a plus sign, within 64 bits.
pub open spec fn whole_number(s: Seq<char>) -> Option<nat> {
    let d = if s.len() > 0 && s[0] == '+' {
        s.skip(1)
    } else {
        s
    };
    if d.len() > 0 && all_digit_chars(d) && number(d) <= u64::MAX {
        Some(number(d))
    } else {
        None
    }
}

/// `n` units, as far as 64 bits reach, and at least one byte.
pub open spec fn bytes_of_units(n: nat, unit: nat) -> u64 {
    if n * unit > u64::MAX {
        u64::MAX
    } else if n * unit == 0 {
        1
    } else {
        (n * unit) as u64
    }
}

/// The size that `s` stands for: a number and perhaps a suffix, with white space
/// around each; or what is wrong with it.
pub open spec fn size_of_text(s: Seq<char>) -> Result<u64, Seq<char>> {
    let t = trimmed(s);
    if t.len() == 0 {
        Err("empty buffer size"@)
    } else {
        let (digits, scale) = match unit(t.last()) {
            Some(u) => (t.drop_last(), u),
            None => (t, 1),
        };
        match whole_number(trimmed(digits)) {
            Some(n) => Ok(bytes_of_units(n, scale)),
            None => Err("invalid buffer size '"@ + t + "'"@),
        }
    }
}

fn is_whitespace(c: char) -> (r: bool)
    ensures
        r == (whitespace())(c),
{
    ('\u{9}' <= c && c <= '\u{d}') || c == ' ' || c == '\u{85}' || c == '\u{a0}' || c == '\u{1680}'
        || ('\u{2000}' <= c && c <= '\u{200a}') || c == '\u{2028}' || c == '\u{2029}' || c
        == '\u{202f}' || c == '\u{205f}' || c == '\u{3000}'
}

/// The range of the characters from `from` to `to` without white space at both ends.
fn trim_range(c: &Vec<char>, from: usize, to: usize) -> (r: (usize, usize))
    requires
        from <= to <= c@.len(),
    ensures
        from <= r.0 <= r.1 <= to,
        c@.subrange(r.0 as int, r.1 as int) == trimmed(c@.subrange(from as int, to as int)),
{
    let ghost s = c@.subrange(from as int, to as int);
    let mut a: usize = from;
    while a < to && is_whitespace(c[a])
        invariant
            from <= a <= to <= c@.len(),
            s == c@.subrange(from as int, to as int),
            forall|k: int| 0 <= k < a - from ==> (whitespace())(#[trigger] s[k]),
        decreases to - a,
    {
        assert(s[a - from] == c@[a as int]);
        a += 1;
    }
    proof {
        if a < to {
            assert(s[a - from] == c@[a as int]);
        }
        lemma_lead_is(s, whitespace(), a - from);
        assert(past(s, whitespace()) =~= c@.subrange(a as int, to as int));
    }
    let mut b: usize = to;
    while b > a && is_whitespace(c[b - 1])
        invariant
            from <= a <= b <= to <= c@.len(),
            trimmed_end(c@.subrange(a as int, to as int)) == trimmed_end(
                c@.subrange(a as int, b as int),
            ),
        decreases b,
    {
        proof {
            let t = c@.subrange(a as int, b as int);
            assert(t.last() == c@[b - 1]);
            assert(t.drop_last() =~= c@.subrange(a as int, b - 1));
        }
        b -= 1;
    }
    proof {
        let t = c@.subrange(a as int, b as int);
        if b > a {
            assert(t.last() == c@[b - 1]);
        }
    }
    (a, b)
}

/// The number that the characters from `from` to `to` are.
fn whole_number_of(c: &Vec<char>, from: usize, to: usize) -> (r: Option<u64>)
    requires
        from <= to <= c@.len(),
    ensures
        match r {
            Some(n) => whole_number(c@.subrange(from as int, to as int)) == Some(n as nat),
            None => whole_number(c@.subrange(from as int, to as int)) is None,
        },
{
    let ghost s = c@.subrange(from as int, to as int);
    let start: usize = if from < to && c[from] == '+' {
        from + 1
    } else {
        from
    };
    let ghost d = c@.subrange(start as int, to as int);
    proof {
        if from < to {
            assert(s[0] == c@[from as int]);
        }
        assert(d =~= (if s.len() > 0 && s[0] == '+' {
            s.skip(1)
        } else {
            s
        }));
    }
    let mut end: usize = start;
    while end < to && '0' <= c[end] && c[end] <= '9'
        invariant
            start <= end <= to <= c@.len(),
            d == c@.subrange(start as int, to as int),
            forall|k: int| 0 <= k < end - start ==> (digit_char())(#[trigger] d[k]),
        decreases to - end,
    {
        assert(d[end - start] == c@[end as int]);
        end += 1;
    }
    if start == to {
        return None;
    }
    if end < to {
        assert(d[end - start] == c@[end as int]);
        assert(!(digit_char())(d[end - start]));
        return None;
    }
    match number_within(c, start, to, u64::MAX as u128) {
        Some(n) => Some(n as u64),
        None => None,
    }
}

/// The number of bytes of a size suffix.
fn unit_of(c: char) -> (r: Option<u64>)
    ensures
        match r {
            Some(u) => unit(c) == Some(u as nat) && u >= 1,
            None => unit(c) is None,
        },
{
    match c {
        'b' | 'B' => Some(1),
        'k' | 'K' => Some(0x400),
        'm' | 'M' => Some(0x10_0000),
        'g' | 'G' => Some(0x4000_0000),
        't' | 'T' => Some(0x100_0000_0000),
        'p' | 'P' => Some(0x4_0000_0000_0000),
        _ => None,
    }
}

/// Parses a buffer size: a number of bytes, perhaps with one of the suffixes b, K,
/// M, G, T and P, in powers of 1024 and in either case. Sizes beyond 64 bits are cut
/// off, and a size of 0 counts as 1.
pub fn parse_size(s: &str) -> (r: Result<usize, String>)
    ensures
        match r {
            Ok(n) => size_of_text(s@) is Ok && n == size_of_text(s@)->Ok_0 as usize,
            Err(e) => size_of_text(s@) == Err::<u64, Seq<char>>(e@),
        },
{
    let c: Vec<char> = chars_of(s);
    let (from, to) = trim_range(&c, 0, c.len());
    let ghost t = trimmed(s@);
    assert(c@.subrange(0, c@.len() as int) =~= s@);
    if from == to {
        return Err("empty buffer size".to_owned());
    }
    assert(t.last() == c@[to - 1]);
    let (end, scale) = match unit_of(c[to - 1]) {
        Some(u) => (to - 1, u),
        None => (to, 1),
    };
    let (a, b) = trim_range(&c, from, end);
    proof {
        assert(c@.subrange(from as int, to - 1) =~= t.drop_last());
    }
    match whole_number_of(&c, a, b) {
        Some(n) => {
            let size: u64 = if n > u64::MAX / scale {
                proof {
                    let q = u64::MAX / scale;
                    assert(n * scale > u64::MAX) by (nonlinear_arith)
                        requires
                            n >= q + 1,
                            scale >= 1,
                            q == u64::MAX / scale,
                    ;
                }
                u64::MAX
            } else {
                proof {
                    let q = u64::MAX / scale;
                    assert(n * scale <= u64::MAX) by (nonlinear_arith)
                        requires
                            n <= q,
                            scale >= 1,
                            q == u64::MAX / scale,
                    ;
                }
                if n * scale == 0 {
                    1
                } else {
                    n * scale
                }
            };
            Ok(size as usize)
        },
        None => Err(joined("invalid buffer size '", s.substring_char(from, to), "'")),
    }
}

} // verus!
