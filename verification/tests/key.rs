use std::cmp::Ordering::{Equal, Greater, Less};
use xort::key::{
    extract, extract_range, kind_from_opts, parse_key_spec, parse_pos, GlobalOrder, KeyDef, Kind,
    Sorter,
};

fn key(sf: usize, sc: usize, ef: Option<usize>, ec: usize) -> KeyDef {
    KeyDef {
        start_field: sf,
        start_char: sc,
        end_field: ef,
        end_char: ec,
        kind: Kind::Bytes,
        fold: false,
        skip_sblanks: false,
        skip_eblanks: false,
        reverse: false,
    }
}

#[test]
fn extract_field_tab() {
    let line = b"a:b:c";
    assert_eq!(extract(line, &key(2, 1, Some(2), 0), Some(b':')), b"b");
}

#[test]
fn extract_field_range_tab() {
    let line = b"a:b:c";
    assert_eq!(extract(line, &key(1, 1, Some(2), 0), Some(b':')), b"a:b");
}

#[test]
fn extract_field_to_eol() {
    let line = b"a:b:c";
    assert_eq!(extract(line, &key(2, 1, None, 0), Some(b':')), b"b:c");
}

#[test]
fn extract_whitespace_default() {
    let line = b"foo   bar baz";
    assert_eq!(extract(line, &key(2, 1, Some(2), 0), None), b"   bar");
}

#[test]
fn extract_start_char() {
    let line = b"hello";
    assert_eq!(extract(line, &key(1, 3, None, 0), None), b"llo");
}

#[test]
fn extract_char_range() {
    let line = b"abcde";
    assert_eq!(extract(line, &key(1, 2, Some(1), 3), None), b"bc");
}

#[test]
fn extract_outside_the_line() {
    assert_eq!(extract(b"ab", &key(9, 1, None, 0), None), b"");
    assert_eq!(extract(b"ab", &key(usize::MAX, 1, None, 0), Some(b',')), b"");
    assert_eq!(extract(b"ab", &key(1, 0, None, 0), None), b"ab");
    assert_eq!(extract(b"ab", &key(1, 9, None, 0), None), b"");
    // An end before the start gives an empty key.
    assert_eq!(extract_range(b"a b c", &key(3, 1, Some(1), 0), None), (3, 3));
    assert_eq!(extract_range(b"a b", &key(1, 1, Some(0), 0), None), (0, 0));
}

#[test]
fn extract_skips_blanks() {
    let mut k = key(2, 1, Some(2), 2);
    k.skip_sblanks = true;
    assert_eq!(extract(b"x   abc", &k, None), b"");
    k.skip_eblanks = true;
    assert_eq!(extract(b"x   abc", &k, None), b"ab");
}

#[test]
fn option_letters() {
    assert_eq!(kind_from_opts(""), Kind::Bytes);
    assert_eq!(kind_from_opts("bfr"), Kind::Bytes);
    assert_eq!(kind_from_opts("Mn"), Kind::Numeric);
    assert_eq!(kind_from_opts("Mg"), Kind::General);
    assert_eq!(kind_from_opts("hM"), Kind::Human);
    assert_eq!(kind_from_opts("VM"), Kind::Version);
    assert_eq!(kind_from_opts("M"), Kind::Month);
}

#[test]
fn positions() {
    assert_eq!(parse_pos("2"), Ok((2, 0, String::new())));
    assert_eq!(parse_pos("2.3nr"), Ok((2, 3, String::from("nr"))));
    assert_eq!(parse_pos("12b"), Ok((12, 0, String::from("b"))));
    let refused = [
        ("", "invalid field specification ''"),
        ("n", "invalid field specification 'n'"),
        ("0", "field number is zero in '0'"),
        ("99999999999999999999", "invalid field number in '99999999999999999999'"),
        ("1.", "missing character position after '.' in '1.'"),
        ("1.n", "missing character position after '.' in '1.n'"),
        (
            "1.99999999999999999999",
            "invalid character position in '1.99999999999999999999'",
        ),
        ("1nx", "invalid ordering option 'x' in '1nx'"),
        ("1é", "invalid ordering option 'é' in '1é'"),
    ];
    for (spec, message) in refused {
        assert_eq!(parse_pos(spec), Err(String::from(message)));
    }
}

#[test]
fn specifications_inherit_all_options_or_none() {
    let global = GlobalOrder {
        kind: Kind::Numeric,
        fold: true,
        ignore_blanks: true,
        reverse: true,
    };
    let inherited = parse_key_spec("2,3.4", &global).unwrap();
    assert_eq!(inherited.kind, Kind::Numeric);
    assert!(inherited.fold && inherited.reverse && inherited.skip_sblanks && inherited.skip_eblanks);
    assert_eq!(inherited.start_field, 2);
    assert_eq!(inherited.start_char, 1);
    assert_eq!(inherited.end_field, Some(3));
    assert_eq!(inherited.end_char, 4);
    let own = parse_key_spec("2b,3V", &global).unwrap();
    assert_eq!(own.kind, Kind::Version);
    assert!(!own.fold && !own.reverse && own.skip_sblanks && !own.skip_eblanks);
    assert_eq!(parse_key_spec("2.7", &global).unwrap().end_field, None);
    assert_eq!(
        parse_key_spec("1,0", &global),
        Err(String::from("field number is zero in '0'"))
    );
    assert_eq!(
        parse_key_spec("x,0", &global),
        Err(String::from("invalid field specification 'x'"))
    );
    assert_eq!(
        parse_key_spec("1,2,3", &global),
        Err(String::from("invalid ordering option ',' in '2,3'"))
    );
}

#[test]
fn keys_decide_in_turn() {
    let mut by_number = key(2, 1, Some(2), 0);
    by_number.kind = Kind::Numeric;
    by_number.reverse = true;
    let sorter = Sorter {
        keys: vec![key(1, 1, Some(1), 0), by_number],
        tab: Some(b' '),
        global_reverse: false,
        suppress_last_resort: false,
    };
    assert_eq!(sorter.compare(b"a 1", b"b 1"), Less);
    assert_eq!(sorter.compare(b"a 1", b"a 2"), Greater);
    assert_eq!(sorter.compare(b"a 1 y", b"a 1 x"), Greater);
    assert_eq!(sorter.check_compare(b"a 1 y", b"a 1 x"), Equal);
    assert!(sorter.key_equal(b"a 1 y", b"a 1 x"));
    assert!(!sorter.key_equal(b"a 1", b"a 2"));
    assert_eq!(sorter.first_key_range(b"abc 1"), (0, 3));
    assert_eq!(sorter.breaking_key_range(b"a 1", b"a 22"), (2, 4));
    assert_eq!(sorter.breaking_key_range(b"a 1", b"a 1 x"), (0, 5));
    assert_eq!(sorter.finish(Less, b"b", b"a"), Less);
    assert_eq!(sorter.finish(Equal, b"b", b"a"), Greater);
}
