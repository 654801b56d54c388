//! Words for what text looks like, spelled out byte by byte. The laws about parsers
//! and comparisons are stated with them.

use vstd::prelude::*;

verus! {

/// A space or a tab.
pub open spec fn is_space(b: u8) -> bool {
    b == 0x20 || b == 0x09
}

/// Only spaces and tabs.
pub open spec fn are_spaces(s: Seq<u8>) -> bool {
    forall|i: int| 0 <= i < s.len() ==> is_space(#[trigger] s[i])
}

/// `0` to `9`.
pub open spec fn is_figure(b: u8) -> bool {
    0x30 <= b <= 0x39
}

/// Only the digits `0` to `9`.
pub open spec fn are_figures(s: Seq<u8>) -> bool {
    forall|i: int| 0 <= i < s.len() ==> is_figure(#[trigger] s[i])
}

/// The number that digits stand for: each digit counts ten times as much as the one
/// behind it.
pub open spec fn figures_value(d: Seq<u8>) -> nat
    decreases d.len(),
{
    if d.len() == 0 {
        0
    } else {
        10 * figures_value(d.drop_last()) + (d.last() - 0x30) as nat
    }
}

/// `s` does not start with `b`.
pub open spec fn starts_otherwise(s: Seq<u8>, b: u8) -> bool {
    s.len() == 0 || s[0] != b
}

/// `s` does not start with a digit.
pub open spec fn starts_without_figure(s: Seq<u8>) -> bool {
    s.len() == 0 || !is_figure(s[0])
}

/// `s` does not start with a space or a tab.
pub open spec fn starts_without_space(s: Seq<u8>) -> bool {
    s.len() == 0 || !is_space(s[0])
}

/// `b` in upper case, if it is a lower case ASCII letter.
pub open spec fn capital(b: u8) -> u8 {
    if 0x61 <= b <= 0x7a {
        (b - 32) as u8
    } else {
        b
    }
}

/// A number as it is written: perhaps a minus sign, digits, and perhaps a point and
/// more digits.
pub open spec fn number_text(neg: bool, whole: Seq<u8>, frac: Option<Seq<u8>>) -> Seq<u8> {
    (if neg {
        seq![0x2du8]
    } else {
        Seq::empty()
    }) + unsigned_text(whole, frac)
}

/// Digits, and perhaps a point and more digits.
pub open spec fn unsigned_text(whole: Seq<u8>, frac: Option<Seq<u8>>) -> Seq<u8> {
    whole + (match frac {
        Some(d) => seq![0x2eu8] + d,
        None => Seq::empty(),
    })
}

/// The digits behind the point.
pub open spec fn frac_digits(frac: Option<Seq<u8>>) -> Seq<u8> {
    match frac {
        Some(d) => d,
        None => Seq::empty(),
    }
}

/// `rest` does not go on with the number before it.
pub open spec fn ends_number(frac: Option<Seq<u8>>, rest: Seq<u8>) -> bool {
    starts_without_figure(rest) && (frac is Some || starts_otherwise(rest, 0x2e))
}

} // verus!
