//! Numbers written as text.

use crate::text::{SPACE, ZERO};
use vstd::prelude::*;

verus! {

/// `n` in decimal digits.
pub open spec fn numeral(n: nat) -> Seq<u8>
    decreases n,
{
    if n < 10 {
        seq![(ZERO + n) as u8]
    } else {
        numeral(n / 10).push((ZERO + n % 10) as u8)
    }
}

/// `s` with spaces in front that bring it to `width` bytes.
pub open spec fn right_aligned(s: Seq<u8>, width: nat) -> Seq<u8> {
    if s.len() < width {
        repeated(SPACE, (width - s.len()) as nat) + s
    } else {
        s
    }
}

/// `n` times the byte `b`.
pub open spec fn repeated(b: u8, n: nat) -> Seq<u8> {
    Seq::new(n, |i: int| b)
}

/// The decimal digits of `n`.
pub fn digits_of(n: u64) -> (d: Vec<u8>)
    ensures
        d@ == numeral(n as nat),
{
    let mut reversed: Vec<u8> = Vec::new();
    let mut rest: u64 = n;
    let ghost mut tail: Seq<u8> = Seq::empty();
    proof {
        assert(numeral(n as nat) + tail =~= numeral(n as nat));
    }
    while rest >= 10
        invariant
            numeral(n as nat) == numeral(rest as nat) + tail,
            tail.len() == reversed@.len(),
            forall|i: int|
                0 <= i < tail.len() ==> #[trigger] tail[i] == reversed@[tail.len() - 1 - i],
        decreases rest,
    {
        let digit: u8 = ZERO + (rest % 10) as u8;
        proof {
            assert(numeral(rest as nat) == numeral(rest as nat / 10).push(digit));
            let longer = seq![digit] + tail;
            assert(numeral(rest as nat) + tail =~= numeral(rest as nat / 10) + longer);
            tail = longer;
        }
        reversed.push(digit);
        rest = rest / 10;
    }
    let first: u8 = ZERO + rest as u8;
    reversed.push(first);
    let ghost all = seq![first] + tail;
    assert(numeral(n as nat) =~= all);
    let mut d: Vec<u8> = Vec::new();
    let mut i: usize = reversed.len();
    while i > 0
        invariant
            i <= reversed@.len(),
            d@.len() == reversed@.len() - i,
            forall|k: int| 0 <= k < d@.len() ==> #[trigger] d@[k] == reversed@[reversed@.len() - 1 - k],
        decreases i,
    {
        i -= 1;
        d.push(reversed[i]);
    }
    assert(d@ =~= all);
    d
}

/// `s` with spaces in front that bring it to `width` bytes.
pub fn align_right(s: Vec<u8>, width: usize) -> (r: Vec<u8>)
    ensures
        r@ == right_aligned(s@, width as nat),
{
    if s.len() >= width {
        return s;
    }
    let mut r: Vec<u8> = repeat(SPACE, width - s.len());
    let mut s = s;
    r.append(&mut s);
    r
}

/// `n` times the byte `b`.
pub fn repeat(b: u8, n: usize) -> (r: Vec<u8>)
    ensures
        r@ == repeated(b, n as nat),
{
    let mut r: Vec<u8> = Vec::new();
    let mut i: usize = 0;
    while i < n
        invariant
            i <= n,
            r@.len() == i,
            forall|k: int| 0 <= k < i ==> #[trigger] r@[k] == b,
        decreases n - i,
    {
        r.push(b);
        i += 1;
    }
    assert(r@ =~= repeated(b, n as nat));
    r
}

} // verus!
