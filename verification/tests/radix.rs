//! Sorting lines that start with integers.

use xort::config::{ColorChoice, Config, Format};
use xort::inmemory::numeric_order;
use xort::radix::{order_key, parse_int_key, radix_sort, try_numeric_radix};

#[test]
fn parse_keys() {
    assert_eq!(parse_int_key(b"5"), Some(5));
    assert_eq!(parse_int_key(b"-3"), Some(-3));
    assert_eq!(parse_int_key(b"+7"), Some(0)); // a plus sign starts no number
    assert_eq!(parse_int_key(b"  42"), Some(42));
    assert_eq!(parse_int_key(b"007"), Some(7));
    assert_eq!(parse_int_key(b"5abc"), Some(5)); // what follows is ignored
    assert_eq!(parse_int_key(b"abc"), Some(0)); // a missing number is 0
    assert_eq!(parse_int_key(b""), Some(0));
    assert_eq!(parse_int_key(b"-"), Some(0));
    assert_eq!(parse_int_key(b"0"), Some(0));
    assert_eq!(parse_int_key(b"-0"), Some(0));
    // Fractions and overflow.
    assert_eq!(parse_int_key(b"5.5"), None);
    assert_eq!(parse_int_key(b".5"), None);
    assert_eq!(parse_int_key(b"99999999999999999999"), None);
    // The whole range.
    assert_eq!(parse_int_key(b"-9223372036854775808"), Some(i64::MIN));
    assert_eq!(parse_int_key(b"9223372036854775807"), Some(i64::MAX));
}

fn cfg() -> Config {
    Config {
        files: Vec::new(),
        output: None,
        reverse: false,
        numeric: true,
        general: false,
        human: false,
        version: false,
        month: false,
        unique: false,
        stable: false,
        fold_case: false,
        ignore_leading_blanks: false,
        zero_terminated: false,
        check: false,
        merge: false,
        keys: Vec::new(),
        tab: None,
        buffer_size: None,
        temp_dirs: Vec::new(),
        top: None,
        count: false,
        header: false,
        parallel: None,
        stats: false,
        progress: false,
        format: Format::Text,
        color: ColorChoice::Never,
    }
}

fn lines(s: &[&'static str]) -> Vec<&'static [u8]> {
    s.iter().map(|x| x.as_bytes()).collect()
}

#[test]
fn sorts_ints_with_byte_tiebreak() {
    let ls = lines(&["10", "2", "1", "10"]);
    let (out, dups) = try_numeric_radix(&ls, &cfg()).unwrap();
    assert_eq!(out, lines(&["1", "2", "10", "10"]));
    assert_eq!(dups, 0);
}

#[test]
fn tiebreak_matches_whole_line() {
    // Equal value 5; "0000005" < "5" by bytes.
    let ls = lines(&["5", "0000005"]);
    let (out, _) = try_numeric_radix(&ls, &cfg()).unwrap();
    assert_eq!(out, lines(&["0000005", "5"]));
}

#[test]
fn falls_back_on_float() {
    let ls = lines(&["1", "2.5", "3"]);
    assert!(try_numeric_radix(&ls, &cfg()).is_none());
}

#[test]
fn negatives_order_below_positives() {
    let ls = lines(&["-1", "2", "-3", "0"]);
    let (out, _) = try_numeric_radix(&ls, &cfg()).unwrap();
    assert_eq!(out, lines(&["-3", "-1", "0", "2"]));
}

#[test]
fn keys_keep_the_order_of_integers() {
    assert_eq!(order_key(i64::MIN), 0);
    assert_eq!(order_key(-1), 0x7fff_ffff_ffff_ffff);
    assert_eq!(order_key(0), 0x8000_0000_0000_0000);
    assert_eq!(order_key(i64::MAX), u64::MAX);
}

#[test]
fn records_sort_by_all_eight_bytes() {
    let mut recs: Vec<(u64, &[u8])> = vec![
        (0x0200_0000_0000_0001, b"a"),
        (0x0100_0000_0000_0002, b"b"),
        (0x0100_0000_0000_0001, b"c"),
        (0x0100_0000_0000_0001, b"d"),
    ];
    radix_sort(&mut recs);
    let names: Vec<&[u8]> = recs.iter().map(|r| r.1).collect();
    assert_eq!(names, vec![&b"c"[..], b"d", b"b", b"a"]);
}

#[test]
fn flags_change_the_integer_sort_as_any_other() {
    let ls = lines(&["2", "02", "1", "2"]);
    let reverse = Config { reverse: true, ..cfg() };
    assert_eq!(try_numeric_radix(&ls, &reverse).unwrap().0, lines(&["2", "2", "02", "1"]));
    let stable = Config { stable: true, ..cfg() };
    assert_eq!(try_numeric_radix(&ls, &stable).unwrap().0, lines(&["1", "2", "02", "2"]));
    let backwards = Config { stable: true, reverse: true, ..cfg() };
    assert_eq!(try_numeric_radix(&ls, &backwards).unwrap().0, lines(&["2", "02", "2", "1"]));
    let unique = Config { unique: true, ..cfg() };
    let (kept, removed) = try_numeric_radix(&ls, &unique).unwrap();
    assert_eq!((kept, removed), (lines(&["1", "2"]), 2));
    let top = Config { top: Some(1), ..cfg() };
    assert_eq!(try_numeric_radix(&ls, &top).unwrap().0, lines(&["1"]));
}

#[test]
fn integers_sort_as_numbers_do() {
    // A line with a fraction of 0 changes the path and not the order of the rest.
    let ints = ["7", "-7", "+7", "007", "x", " 3", "-0", "12345678901"];
    let mut with_fraction: Vec<&'static str> = ints.to_vec();
    with_fraction.push("99999999999.0");
    for (reverse, stable) in [(false, false), (true, false), (false, true), (true, true)] {
        let c = Config { reverse, stable, ..cfg() };
        let (fast, _) = numeric_order(lines(&ints), &c);
        let (slow, _) = numeric_order(lines(&with_fraction), &c);
        let slow: Vec<&[u8]> = slow.into_iter().filter(|l| *l != b"99999999999.0").collect();
        assert_eq!(fast, slow);
    }
}
