//! Scanning bytes: blanks, digits and runs of them.

use vstd::prelude::*;

verus! {

pub const SPACE: u8 = 0x20;

pub const TAB: u8 = 0x09;

pub const NEWLINE: u8 = 0x0a;

pub const PLUS: u8 = 0x2b;

pub const MINUS: u8 = 0x2d;

pub const DOT: u8 = 0x2e;

pub const ZERO: u8 = 0x30;

pub const NINE: u8 = 0x39;

/// A space or a tab.
pub open spec fn blank() -> spec_fn(u8) -> bool {
    |b: u8| b == SPACE || b == TAB
}

/// An ASCII decimal digit.
pub open spec fn digit() -> spec_fn(u8) -> bool {
    |b: u8| ZERO <= b <= NINE
}

/// The bytes that `p` does not hold of.
pub open spec fn outside(p: spec_fn(u8) -> bool) -> spec_fn(u8) -> bool {
    |b: u8| !p(b)
}

/// Any byte but `t`.
pub open spec fn other_than(t: u8) -> spec_fn(u8) -> bool {
    |b: u8| b != t
}

/// How many elements at the start of `s` satisfy `p`.
pub open spec fn lead<A>(s: Seq<A>, p: spec_fn(A) -> bool) -> int
    decreases s.len(),
{
    if s.len() == 0 || !p(s[0]) {
        0
    } else {
        1 + lead(s.drop_first(), p)
    }
}

/// `s` behind the elements at its start that satisfy `p`.
pub open spec fn past<A>(s: Seq<A>, p: spec_fn(A) -> bool) -> Seq<A> {
    s.skip(lead(s, p))
}

pub proof fn lemma_lead<A>(s: Seq<A>, p: spec_fn(A) -> bool)
    ensures
        0 <= lead(s, p) <= s.len(),
        forall|k: int| 0 <= k < lead(s, p) ==> p(#[trigger] s[k]),
        lead(s, p) < s.len() ==> !p(s[lead(s, p)]),
    decreases s.len(),
{
    if s.len() > 0 && p(s[0]) {
        let t = s.drop_first();
        lemma_lead(t, p);
        assert forall|k: int| 0 <= k < lead(s, p) implies p(#[trigger] s[k]) by {
            if k > 0 {
                assert(t[k - 1] == s[k]);
            }
        }
    }
}

/// A run that ends where `p` fails, or with `s`, is the leading run.
pub proof fn lemma_lead_is<A>(s: Seq<A>, p: spec_fn(A) -> bool, n: int)
    requires
        0 <= n <= s.len(),
        forall|k: int| 0 <= k < n ==> p(#[trigger] s[k]),
        n < s.len() ==> !p(s[n]),
    ensures
        lead(s, p) == n,
{
    lemma_lead(s, p);
    let m = lead(s, p);
    if m < n {
        assert(p(s[m]));
    }
    if n < m {
        assert(p(s[n]));
    }
}

/// A run in front of something that does not go on with it.
pub proof fn lemma_run_in_front<A>(run: Seq<A>, rest: Seq<A>, p: spec_fn(A) -> bool)
    requires
        forall|k: int| 0 <= k < run.len() ==> p(#[trigger] run[k]),
        rest.len() > 0 ==> !p(rest[0]),
    ensures
        lead(run + rest, p) == run.len(),
        (run + rest).take(run.len() as int) == run,
        past(run + rest, p) == rest,
{
    let s = run + rest;
    assert forall|k: int| 0 <= k < run.len() implies p(#[trigger] s[k]) by {
        assert(s[k] == run[k]);
    }
    lemma_lead_is(s, p, run.len() as int);
    assert(s.take(run.len() as int) =~= run);
    assert(s.skip(run.len() as int) =~= rest);
}

/// The position behind the run of elements satisfying `p` that starts at `from`.
pub open spec fn run_end<A>(s: Seq<A>, from: int, p: spec_fn(A) -> bool) -> int {
    from + lead(s.skip(from), p)
}

pub proof fn lemma_run_end<A>(s: Seq<A>, from: int, end: int, p: spec_fn(A) -> bool)
    requires
        0 <= from <= end <= s.len(),
        forall|k: int| from <= k < end ==> p(#[trigger] s[k]),
        end < s.len() ==> !p(s[end]),
    ensures
        run_end(s, from, p) == end,
{
    let t = s.skip(from);
    assert forall|k: int| 0 <= k < end - from implies p(#[trigger] t[k]) by {
        assert(t[k] == s[from + k]);
    }
    lemma_lead_is(t, p, end - from);
}

pub proof fn lemma_run_end_bounds<A>(s: Seq<A>, from: int, p: spec_fn(A) -> bool)
    requires
        0 <= from <= s.len(),
    ensures
        from <= run_end(s, from, p) <= s.len(),
        forall|k: int| from <= k < run_end(s, from, p) ==> p(#[trigger] s[k]),
        run_end(s, from, p) < s.len() ==> !p(s[run_end(s, from, p)]),
{
    let t = s.skip(from);
    lemma_lead(t, p);
    assert forall|k: int| from <= k < run_end(s, from, p) implies p(#[trigger] s[k]) by {
        assert(t[k - from] == s[k]);
    }
}

/// Whether `b` is a space or a tab.
pub fn is_blank(b: u8) -> (r: bool)
    ensures
        r == (blank())(b),
{
    b == SPACE || b == TAB
}

/// Whether `b` is an ASCII digit.
pub fn is_digit(b: u8) -> (r: bool)
    ensures
        r == (digit())(b),
{
    b >= ZERO && b <= NINE
}

/// The position behind the blanks at `from`.
pub fn blanks_end(s: &[u8], from: usize) -> (end: usize)
    requires
        from <= s@.len(),
    ensures
        end == run_end(s@, from as int, blank()),
        from <= end <= s@.len(),
{
    let mut i: usize = from;
    while i < s.len() && is_blank(s[i])
        invariant
            from <= i <= s@.len(),
            forall|k: int| from <= k < i ==> (blank())(#[trigger] s@[k]),
        decreases s@.len() - i,
    {
        i += 1;
    }
    proof {
        lemma_run_end(s@, from as int, i as int, blank());
    }
    i
}

/// The position behind the bytes at `from` that are not blanks.
pub fn word_end(s: &[u8], from: usize) -> (end: usize)
    requires
        from <= s@.len(),
    ensures
        end == run_end(s@, from as int, outside(blank())),
        from <= end <= s@.len(),
{
    let mut i: usize = from;
    while i < s.len() && !is_blank(s[i])
        invariant
            from <= i <= s@.len(),
            forall|k: int| from <= k < i ==> (outside(blank()))(#[trigger] s@[k]),
        decreases s@.len() - i,
    {
        i += 1;
    }
    proof {
        lemma_run_end(s@, from as int, i as int, outside(blank()));
    }
    i
}

/// The position of the next `t` at or behind `from`, or the end.
pub fn next_byte(s: &[u8], from: usize, t: u8) -> (end: usize)
    requires
        from <= s@.len(),
    ensures
        end == run_end(s@, from as int, other_than(t)),
        from <= end <= s@.len(),
{
    let mut i: usize = from;
    while i < s.len() && s[i] != t
        invariant
            from <= i <= s@.len(),
            forall|k: int| from <= k < i ==> (other_than(t))(#[trigger] s@[k]),
        decreases s@.len() - i,
    {
        i += 1;
    }
    proof {
        lemma_run_end(s@, from as int, i as int, other_than(t));
    }
    i
}

/// The position behind the digits at `from`.
pub fn digits_end(s: &[u8], from: usize) -> (end: usize)
    requires
        from <= s@.len(),
    ensures
        end == run_end(s@, from as int, digit()),
        from <= end <= s@.len(),
{
    let mut i: usize = from;
    while i < s.len() && is_digit(s[i])
        invariant
            from <= i <= s@.len(),
            forall|k: int| from <= k < i ==> (digit())(#[trigger] s@[k]),
        decreases s@.len() - i,
    {
        i += 1;
    }
    proof {
        lemma_run_end(s@, from as int, i as int, digit());
    }
    i
}

/// `s` without the blanks at its start.
pub fn skip_blanks(s: &[u8]) -> (r: &[u8])
    ensures
        r@ == past(s@, blank()),
{
    let i: usize = blanks_end(s, 0);
    assert(s@.skip(0) =~= s@);
    assert(s@.subrange(i as int, s@.len() as int) =~= s@.skip(i as int));
    &s[i..s.len()]
}

} // verus!
