//! Machine integers in specifications.

use vstd::prelude::*;

verus! {

/// A machine index as a position in a sequence.
pub open spec fn ix(i: usize) -> int {
    i as int
}

/// A number as an integer.
pub open spec fn nat_int(n: nat) -> int {
    n as int
}

/// A machine index as a natural number.
pub open spec fn index_nat(i: usize) -> nat {
    i as nat
}

/// A machine word as a natural number.
pub open spec fn word_nat(n: u64) -> nat {
    n as nat
}

/// Bytes as integers.
pub open spec fn ints(s: Seq<u8>) -> Seq<int> {
    Seq::new(s.len(), |i: int| s[i] as int)
}

} // verus!
