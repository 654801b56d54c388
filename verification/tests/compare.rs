use std::cmp::Ordering;
use std::cmp::Ordering::{Equal, Greater, Less};
use xort::compare::{
    compare_key, compare_kind, full_compare, general_cmp, human_cmp, month_cmp, numeric_cmp,
    version_cmp, KeyOpts, NumericKey,
};
use xort::key::Kind;

fn n(a: &str, b: &str) -> Ordering {
    numeric_cmp(a.as_bytes(), b.as_bytes())
}

#[test]
fn numeric_basic() {
    assert_eq!(n("2", "10"), Less);
    assert_eq!(n("10", "2"), Greater);
    assert_eq!(n("10", "10"), Equal);
    assert_eq!(n("-5", "3"), Less);
    assert_eq!(n("-5", "-3"), Less);
    assert_eq!(n("0", "0"), Equal);
    assert_eq!(n("-0", "0"), Equal);
}

#[test]
fn numeric_fractions() {
    assert_eq!(n("1.5", "1.45"), Greater);
    assert_eq!(n("1.5", "1.50"), Equal);
    assert_eq!(n("1.5", "1.51"), Less);
    assert_eq!(n("0.5", "1"), Less);
    assert_eq!(n("1.5", "1"), Greater);
}

#[test]
fn numeric_nonnumeric_is_zero() {
    assert_eq!(n("abc", "0"), Equal);
    assert_eq!(n("abc", "5"), Less);
    assert_eq!(n("abc", "-5"), Greater);
    assert_eq!(n("  42", "42"), Equal);
}

#[test]
fn fold_case() {
    let o = KeyOpts {
        fold: true,
        ..Default::default()
    };
    assert_eq!(compare_key(b"apple", b"APPLE", &o), Equal);
    assert_eq!(compare_key(b"Apple", b"banana", &o), Less);
}

#[test]
fn last_resort_breaks_fold_ties() {
    let o = KeyOpts {
        fold: true,
        ..Default::default()
    };
    assert_eq!(full_compare(b"Apple", b"apple", &o, false, false), Less);
    assert_eq!(full_compare(b"Apple", b"apple", &o, false, true), Equal);
}

#[test]
fn general_floats() {
    assert_eq!(general_cmp(b"1e3", b"50"), Greater);
    assert_eq!(general_cmp(b"2.5e1", b"25"), Equal);
    assert_eq!(general_cmp(b"-1.5", b"-1.4"), Less);
    assert_eq!(general_cmp(b"x", b"0"), Less);
    assert_eq!(general_cmp(b"x", b"y"), Equal);
}

#[test]
fn human_sizes() {
    assert_eq!(human_cmp(b"1K", b"500"), Greater);
    assert_eq!(human_cmp(b"1M", b"1024K"), Equal);
    assert_eq!(human_cmp(b"2G", b"1T"), Less);
    assert_eq!(human_cmp(b"1.5K", b"1500"), Greater);
    assert_eq!(human_cmp(b"junk", b"0"), Equal);
}

#[test]
fn versions() {
    assert_eq!(version_cmp(b"v2", b"v10"), Less);
    assert_eq!(version_cmp(b"1.9", b"1.10"), Less);
    assert_eq!(version_cmp(b"1.0", b"1.0"), Equal);
    assert_eq!(version_cmp(b"a1", b"a1b"), Less);
    assert_eq!(version_cmp(b"file01", b"file1"), Equal);
}

#[test]
fn months() {
    assert_eq!(month_cmp(b"JAN", b"FEB"), Less);
    assert_eq!(month_cmp(b"dec", b"jan"), Greater);
    assert_eq!(month_cmp(b"Mar 1", b"March"), Equal);
    assert_eq!(month_cmp(b"???", b"JAN"), Less);
}

#[test]
fn compare_kind_dispatch() {
    assert_eq!(compare_kind(b"2", b"10", Kind::Numeric, false), Less);
    assert_eq!(compare_kind(b"v2", b"v10", Kind::Version, false), Less);
    assert_eq!(compare_kind(b"1K", b"2K", Kind::Human, false), Less);
    assert_eq!(compare_kind(b"JAN", b"FEB", Kind::Month, false), Less);
    assert_eq!(compare_kind(b"abc", b"ABC", Kind::Bytes, true), Equal);
    assert_eq!(compare_kind(b"abc", b"abd", Kind::Bytes, false), Less);
}

/// The order of two literals in double precision.
fn in_double_precision(a: &str, b: &str) -> Ordering {
    let x: f64 = a.parse().unwrap();
    let y: f64 = b.parse().unwrap();
    x.partial_cmp(&y).unwrap()
}

#[test]
fn general_order_is_that_of_doubles() {
    let literals = [
        "0", "-0", "0.0", "1", "-1", "1.0", "0.1", "0.10000000000000001", "0.1000000000000000055",
        "9007199254740992", "9007199254740993", "9007199254740994", "9007199254740995",
        "1e23", "99999999999999991611392", "1.7976931348623157e308", "1.7976931348623158e308",
        "1.7976931348623159e308", "1e309", "-1e309", "1e-400", "-1e-400", "4.9e-324", "2.4703282292062327e-324",
        "2.4703282292062328e-324", "2.2250738585072014e-308", "2.2250738585072011e-308", "5e-324", "1e400",
        "123456789012345678901234567890", "1.5e300", "00012.500e-1", "1.25", "1e22", "3.14159265358979323846",
        "3.141592653589793", "1E+5", "100000", "1e99999999999999999999999999", "1e-99999999999999999999999999",
        "0e99999999999999999999999999", "8.5", ".5", "5.", "7205759403792793.5", "7205759403792794.5",
        "0.000000000000000000000000000000000000000000000000001e51", "340282366920938463463374607431768211456",
    ];
    for a in literals {
        for b in literals {
            assert_eq!(
                general_cmp(a.as_bytes(), b.as_bytes()),
                in_double_precision(a, b),
                "{} against {}",
                a,
                b
            );
        }
    }
}

#[test]
fn general_reads_the_longest_number() {
    assert_eq!(general_cmp(b"  1e", b"1"), Equal);
    assert_eq!(general_cmp(b"1e+", b"1"), Equal);
    assert_eq!(general_cmp(b"1e2x", b"100"), Equal);
    assert_eq!(general_cmp(b"1.2.3", b"1.2"), Equal);
    assert_eq!(general_cmp(b".", b"-1e400"), Less);
    assert_eq!(general_cmp(b"inf", b"-1"), Less);
}

#[test]
fn human_suffixes_scale_by_1024() {
    let sizes: [&[u8]; 9] = [b"1", b"1K", b"1M", b"1G", b"1T", b"1P", b"1E", b"1Z", b"1Y"];
    for i in 1..sizes.len() {
        assert_eq!(human_cmp(sizes[i - 1], sizes[i]), Less);
    }
    assert_eq!(human_cmp(b"1k", b"1024"), Equal);
    assert_eq!(human_cmp(b"-1K", b"-1"), Less);
    assert_eq!(human_cmp(b"1024Z", b"1Y"), Equal);
    assert_eq!(human_cmp(b"1m", b"1"), Equal);
    assert_eq!(human_cmp(b"0.5K", b"512"), Equal);
    // An exponent stands where the suffix would, so `E` counts as both.
    assert_eq!(human_cmp(b"1E1", b"11529215046068469760"), Equal);
    assert_eq!(human_cmp(b"4.9e-324", b"5e-324"), Equal);
    // Beyond the range of doubles everything is infinite.
    assert_eq!(human_cmp(b"179769313486231570000000000000000000000000000000000000000000000000000000000000000000000000000000000000000000000000000000000000000000000000000000000000000000000000000000000000000000000000000000000000000000000000000000000000000000000000000000000000000000000000000000000000000000000000000000000000000000000000000K", b"1e400"), Equal);
}

#[test]
fn numeric_key_parses_once() {
    let a = NumericKey::parse(b"  -007.50x");
    let b = NumericKey::parse(b"-7.5");
    let c = NumericKey::parse(b"+7.5");
    assert_eq!(a.cmp(&b), Equal);
    assert!(a == b && b != c);
    assert!(b < c && b.partial_cmp(&c) == Some(Less));
    assert_eq!(b.cmp(&c), Less);
    // A plus sign starts no number.
    assert_eq!(c.cmp(&NumericKey::parse(b"0")), Equal);
    assert_eq!(n("123456789012345678901234567890", "123456789012345678901234567891"), Less);
}

#[test]
fn reverse_flips_every_comparison() {
    let o = KeyOpts::default();
    for stable in [false, true] {
        for (a, b) in [("a", "b"), ("b", "a"), ("a", "a"), ("A", "a")] {
            assert_eq!(
                full_compare(a.as_bytes(), b.as_bytes(), &o, true, stable),
                full_compare(b.as_bytes(), a.as_bytes(), &o, false, stable)
            );
        }
    }
}

#[test]
fn blanks_are_ignored_on_request() {
    let o = KeyOpts {
        ignore_blanks: true,
        ..Default::default()
    };
    assert_eq!(compare_key(b" \tb", b"b", &o), Equal);
    assert_eq!(compare_key(b"  b", b"a", &o), Greater);
    assert_eq!(compare_key(b"  b", b"a", &KeyOpts::default()), Less);
    let numeric = KeyOpts {
        numeric: true,
        fold: true,
        ..Default::default()
    };
    assert_eq!(compare_key(b"9", b"10", &numeric), Less);
}

#[test]
fn version_order_is_transitive_on_samples() {
    let sorted: [&[u8]; 7] = [b"", b"a", b"a-", b"a0", b"a2b", b"a10", b"b"];
    for i in 0..sorted.len() {
        for j in 0..sorted.len() {
            assert_eq!(version_cmp(sorted[i], sorted[j]), i.cmp(&j));
        }
    }
}
