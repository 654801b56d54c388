//! Reports, highlighting and counts.

use xort::cli::{Cli, ColorArg};
use xort::check::check_sorted;
use xort::config::{ColorChoice, Config, Format};
use xort::csv_format::{cmp_records, field, keys_equal, parse_csv_keys, ColKey, CsvRecord};
use xort::diag::{
    color_stderr, color_stdout, progress_enabled, report_disorder, write_highlighted, Terminal,
};
use xort::key::Kind;
use xort::numeral::{align_right, digits_of, repeat};
use xort::output::{grouped_counts, write_counts, write_lines};
use std::cmp::Ordering::{Equal, Greater, Less};
use std::path::PathBuf;

fn cfg() -> Config {
    let cli = Cli {
        files: Vec::new(),
        reverse: false,
        numeric: false,
        general: false,
        human: false,
        version_sort: false,
        month: false,
        unique: false,
        stable: false,
        fold_case: false,
        ignore_leading_blanks: false,
        zero_terminated: false,
        check: false,
        merge: false,
        keys: Vec::new(),
        field_separator: None,
        output: None,
        buffer_size: None,
        temp_dirs: Vec::new(),
        parallel: None,
        top: None,
        count: false,
        header: false,
        csv: false,
        tsv: false,
        json: false,
        jsonl: false,
        color: ColorArg::Auto,
        stats: false,
        progress: false,
    };
    cli.into_config().unwrap()
}

fn screen(no_color: bool) -> Terminal {
    Terminal { no_color, stdout: true, stderr: true }
}

#[test]
fn color_depends_on_choice_terminal_and_output() {
    let c = cfg();
    assert!(color_stdout(&c, &screen(false)));
    assert!(!color_stdout(&c, &screen(true)));
    assert!(!color_stdout(&c, &Terminal { no_color: false, stdout: false, stderr: true }));
    assert!(color_stderr(&c, &Terminal { no_color: false, stdout: false, stderr: true }));
    let always = Config { color: ColorChoice::Always, ..cfg() };
    assert!(color_stdout(&always, &screen(true)));
    let to_file = Config { output: Some(PathBuf::from("out")), ..always };
    assert!(!color_stdout(&to_file, &screen(false)));
    assert!(color_stderr(&to_file, &screen(true)));
    let never = Config { color: ColorChoice::Never, ..cfg() };
    assert!(!color_stderr(&never, &screen(false)));
    assert!(!progress_enabled(&c, &screen(false)));
    assert!(progress_enabled(&Config { progress: true, ..cfg() }, &screen(true)));
}

#[test]
fn highlighting_clamps_the_range() {
    let mut out = Vec::new();
    write_highlighted(&mut out, b"abcd", (1, 3), b'\n');
    assert_eq!(out, b"a\x1b[1;33mbc\x1b[0md\n");
    let mut past = Vec::new();
    write_highlighted(&mut past, b"ab", (5, 9), 0);
    assert_eq!(past, b"ab\x1b[1;33m\x1b[0m\0");
    let mut backwards = Vec::new();
    write_highlighted(&mut backwards, b"abc", (2, 1), b'\n');
    assert_eq!(backwards, b"ab\x1b[1;33m\x1b[0mc\n");
}

#[test]
fn reports_show_bytes_that_are_no_text() {
    let c = Config { color: ColorChoice::Never, ..cfg() };
    let out = report_disorder(&c, &screen(false), b"b\xff", b"a", 12, (0, 1));
    assert_eq!(
        String::from_utf8(out).unwrap(),
        "xort: check failed: line 12 is not in sorted order\n      11 | b\u{fffd}\n      12 | a\n           ^ key not in order here\n"
    );
    // An empty key still gets a caret.
    let empty = report_disorder(&c, &screen(false), b"b", b"", 2, (0, 0));
    assert!(String::from_utf8(empty).unwrap().ends_with("           ^ key not in order here\n"));
}

#[test]
fn a_check_reports_the_first_line_out_of_order() {
    let c = Config { numeric: true, color: ColorChoice::Never, ..cfg() };
    let sorter = c.build_sorter().unwrap();
    let pipe = Terminal { no_color: false, stdout: false, stderr: false };
    let fine: Vec<&[u8]> = vec![b"1", b"2", b"2.0", b"10"];
    assert_eq!(check_sorted(&fine, &c, &sorter, &pipe), (0, Vec::new()));
    let bad: Vec<&[u8]> = vec![b"1", b"3", b"2", b"0"];
    let (code, report) = check_sorted(&bad, &c, &sorter, &pipe);
    assert_eq!(code, 1);
    assert!(String::from_utf8(report).unwrap().starts_with("xort: check failed: line 3 is"));
    assert_eq!(check_sorted(&Vec::new(), &c, &sorter, &pipe).0, 0);
}

#[test]
fn groups_are_counted_and_written() {
    let c = Config { fold_case: true, ..cfg() };
    let sorter = c.build_sorter().unwrap();
    let lines: Vec<&[u8]> = vec![b"b", b"a", b"B", b"A", b"b"];
    let (groups, removed) = grouped_counts(lines, &sorter, &c);
    assert_eq!(removed, 3);
    assert_eq!(groups, vec![(2, &b"A"[..]), (3, &b"B"[..])]);
    assert_eq!(groups.iter().map(|g| g.0).sum::<u64>(), 5);
    assert_eq!(write_counts(&groups, Some(&b"h"[..]), b'\n'), b"h\n      2 A\n      3 B\n");
    let wide: Vec<(u64, &[u8])> = vec![(123456789, b"x")];
    assert_eq!(write_counts(&wide, None, 0), b"123456789 x\0");
}

#[test]
fn lines_are_written_with_header_and_color() {
    let c = Config { keys: vec!["2,2".to_string()], ..cfg() };
    let sorter = c.build_sorter().unwrap();
    let lines: Vec<&[u8]> = vec![b"a b c", b"d"];
    assert_eq!(write_lines(&lines, None, b'\n', None), b"a b c\nd\n");
    assert_eq!(
        write_lines(&lines, Some(&b"head"[..]), b'\n', Some(&sorter)),
        b"head\na\x1b[1;33m b\x1b[0m c\nd\x1b[1;33m\x1b[0m\n"
    );
}

#[test]
fn numerals_are_aligned() {
    assert_eq!(digits_of(0), b"0");
    assert_eq!(digits_of(u64::MAX), b"18446744073709551615");
    assert_eq!(align_right(b"42".to_vec(), 6), b"    42");
    assert_eq!(align_right(b"1234567".to_vec(), 6), b"1234567");
    assert_eq!(repeat(b'^', 3), b"^^^");
}

fn record(fields: &[&str]) -> CsvRecord {
    CsvRecord::new(fields.iter().map(|f| f.as_bytes().to_vec()).collect())
}

#[test]
fn columns_are_found_by_number_and_by_name() {
    let names: Vec<Vec<u8>> = vec![b"name".to_vec(), b"age".to_vec()];
    let c = Config { keys: vec!["age".to_string(), "1r".to_string()], numeric: true, ..cfg() };
    let keys = parse_csv_keys(&c, Some(&names)).unwrap();
    assert_eq!(
        keys,
        vec![
            ColKey { col: Some(1), kind: Kind::Numeric, fold: false, reverse: false },
            // A key with options of its own takes none of the global ones.
            ColKey { col: Some(0), kind: Kind::Bytes, fold: false, reverse: true },
        ]
    );
    let unknown = Config { keys: vec!["size".to_string()], ..cfg() };
    assert_eq!(
        parse_csv_keys(&unknown, Some(&names)).unwrap_err(),
        "no column named 'size'; available: name, age"
    );
    assert_eq!(
        parse_csv_keys(&unknown, None).unwrap_err(),
        "column name 'size' requires --header for CSV/TSV"
    );
    let complaint = |spec: &str| {
        parse_csv_keys(&Config { keys: vec![spec.to_string()], ..cfg() }, None).unwrap_err()
    };
    assert_eq!(
        complaint("1,2"),
        "multi-column key ranges are not supported for CSV/TSV: '1,2'"
    );
    assert_eq!(
        complaint("1.2"),
        "character positions are not supported for CSV/TSV columns: '1.2'"
    );
    // Without a key whole records are compared.
    assert_eq!(parse_csv_keys(&cfg(), None).unwrap()[0].col, None);
}

#[test]
fn records_compare_by_columns_and_then_as_a_whole() {
    let keys = vec![ColKey { col: Some(1), kind: Kind::Numeric, fold: false, reverse: false }];
    let (a, b, d) = (record(&["x", "2"]), record(&["y", "10"]), record(&["w", "2.0"]));
    assert_eq!(field(&a, Some(1)), b"2");
    assert_eq!(field(&a, Some(9)), b"");
    assert_eq!(field(&a, None), b"x2");
    assert_eq!(cmp_records(&a, &b, &keys, false), Less);
    assert_eq!(cmp_records(&a, &d, &keys, true), Equal);
    assert_eq!(cmp_records(&a, &d, &keys, false), Greater);
    // Under -u whole records are told apart by their fields.
    let whole = vec![ColKey { col: None, kind: Kind::Bytes, fold: false, reverse: false }];
    let (e, f) = (record(&["a", "bc"]), record(&["ab", "c"]));
    assert!(!keys_equal(&e, &f, &whole));
    assert_eq!(cmp_records(&e, &f, &whole, true), Equal);
    assert_eq!(cmp_records(&e, &f, &whole, false), Less);
    assert!(keys_equal(&e, &record(&["a", "bc"]), &whole));
    let folded = vec![ColKey { fold: true, ..whole[0] }];
    assert!(keys_equal(&e, &record(&["A", "Bc"]), &folded));
    // The same goes for records that the columns do not tell apart.
    let none = vec![ColKey { col: Some(7), kind: Kind::Bytes, fold: false, reverse: false }];
    assert_eq!(cmp_records(&e, &f, &none, false), Less);
    assert_eq!(cmp_records(&e, &f, &none, true), Equal);
    assert!(keys_equal(&a, &d, &keys));
    assert!(!keys_equal(&a, &b, &keys));
}

#[test]
fn formats_follow_their_flags() {
    assert_eq!(cfg().format, Format::Text);
    assert_eq!(cfg().terminator(), b'\n');
    assert_eq!(Config { zero_terminated: true, ..cfg() }.terminator(), 0);
    assert!(cfg().is_simple_global());
    assert!(!Config { month: true, ..cfg() }.is_simple_global());
    assert_eq!(Config { human: true, month: true, ..cfg() }.global_kind(), Kind::Human);
}
