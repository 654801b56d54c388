//! Whole jobs, from arguments and input to output and exit code.

use std::path::PathBuf;
use xort::cli::{Cli, ColorArg};
use xort::diag::Terminal;
use xort::engine::run as run_job;
use xort::input::Input;
use xort::{Run, RunError};

fn no_arguments() -> Cli {
    Cli {
        files: Vec::new(),
        reverse: false,
        numeric: false,
        general: false,
        human: false,
        version_sort: false,
        month: false,
        unique: false,
        stable: false,
        fold_case: false,
        ignore_leading_blanks: false,
        zero_terminated: false,
        check: false,
        merge: false,
        keys: Vec::new(),
        field_separator: None,
        output: None,
        buffer_size: None,
        temp_dirs: Vec::new(),
        parallel: None,
        top: None,
        count: false,
        header: false,
        csv: false,
        tsv: false,
        json: false,
        jsonl: false,
        color: ColorArg::Auto,
        stats: false,
        progress: false,
    }
}

fn set_flag(cli: &mut Cli, flag: char) -> bool {
    match flag {
        'r' => cli.reverse = true,
        'n' => cli.numeric = true,
        'g' => cli.general = true,
        'h' => cli.human = true,
        'V' => cli.version_sort = true,
        'M' => cli.month = true,
        'u' => cli.unique = true,
        's' => cli.stable = true,
        'f' => cli.fold_case = true,
        'b' => cli.ignore_leading_blanks = true,
        'z' => cli.zero_terminated = true,
        'c' => cli.check = true,
        'm' => cli.merge = true,
        _ => return false,
    }
    true
}

fn set_value(cli: &mut Cli, flag: char, value: &str) {
    match flag {
        'k' => cli.keys.push(value.to_string()),
        't' => cli.field_separator = Some(value.to_string()),
        'o' => cli.output = Some(PathBuf::from(value)),
        'S' => cli.buffer_size = Some(value.to_string()),
        'T' => cli.temp_dirs.push(PathBuf::from(value)),
        _ => panic!("no such flag: {flag}"),
    }
}

/// The arguments, with short flags that can stand together and long ones.
fn arguments(args: &[&str]) -> Cli {
    let mut cli = no_arguments();
    let mut i: usize = 0;
    while i < args.len() {
        let arg = args[i];
        i += 1;
        if let Some(long) = arg.strip_prefix("--") {
            match long {
                "csv" => cli.csv = true,
                "tsv" => cli.tsv = true,
                "json" => cli.json = true,
                "jsonl" => cli.jsonl = true,
                "header" => cli.header = true,
                "count" => cli.count = true,
                "stats" => cli.stats = true,
                "color=never" => cli.color = ColorArg::Never,
                "color=always" => cli.color = ColorArg::Always,
                "top" => {
                    cli.top = Some(args[i].parse().unwrap());
                    i += 1;
                }
                _ => panic!("no such argument: {arg}"),
            }
        } else if arg.len() > 1 && arg.starts_with('-') {
            let mut rest = &arg[1..];
            while let Some(flag) = rest.chars().next() {
                rest = &rest[1..];
                if !set_flag(&mut cli, flag) {
                    if rest.is_empty() {
                        set_value(&mut cli, flag, args[i]);
                        i += 1;
                    } else {
                        set_value(&mut cli, flag, rest);
                    }
                    break;
                }
            }
        } else {
            cli.files.push(PathBuf::from(arg));
        }
    }
    cli
}

fn pipe() -> Terminal {
    Terminal { no_color: false, stdout: false, stderr: false }
}

fn job(args: &[&str], input: &Input) -> Result<Run, RunError> {
    match arguments(args).into_config() {
        Ok(cfg) => run_job(&cfg, input, &pipe()),
        Err(e) => Err(RunError::Invalid(e)),
    }
}

fn result(r: Result<Run, RunError>) -> (Vec<u8>, i32) {
    match r {
        Ok(run) => (run.output.unwrap_or_default(), run.outcome.exit_code),
        Err(_) => (Vec::new(), 2),
    }
}

fn xort(args: &[&str], stdin: &[u8]) -> (Vec<u8>, i32) {
    result(job(args, &Input::Stdin(stdin.to_vec())))
}

fn run(args: &[&str], stdin: &str) -> String {
    let (out, code) = xort(args, stdin.as_bytes());
    assert_eq!(code, 0, "expected success for args {args:?}");
    String::from_utf8(out).unwrap()
}

fn run_files(args: &[&str], files: &[&[u8]]) -> String {
    let files: Vec<Vec<u8>> = files.iter().map(|f| f.to_vec()).collect();
    let (out, code) = result(job(args, &Input::Files(files)));
    assert_eq!(code, 0, "expected success for args {args:?}");
    String::from_utf8(out).unwrap()
}

#[test]
fn plain_sort() {
    assert_eq!(
        run(&[], "banana\napple\ncherry\n"),
        "apple\nbanana\ncherry\n"
    );
}

#[test]
fn reverse() {
    assert_eq!(run(&["-r"], "a\nc\nb\n"), "c\nb\na\n");
}

#[test]
fn numeric() {
    assert_eq!(run(&["-n"], "10\n2\n1\n"), "1\n2\n10\n");
}

#[test]
fn numeric_negatives_and_floats() {
    assert_eq!(run(&["-n"], "-1\n2.5\n-3\n2.05\n"), "-3\n-1\n2.05\n2.5\n");
}

#[test]
fn unique() {
    assert_eq!(run(&["-u"], "b\na\nb\na\n"), "a\nb\n");
}

#[test]
fn unique_fold_keeps_first_input_occurrence() {
    // Under -u lines that are equal but for case keep the first one of the input.
    assert_eq!(
        run(&["-f", "-u"], "banana\nBanana\napple\n"),
        "apple\nbanana\n"
    );
    assert_eq!(
        run(&["-f", "-u"], "Banana\nbanana\napple\n"),
        "apple\nBanana\n"
    );
}

#[test]
fn fold_case_last_resort_when_not_unique() {
    // The keys tie, so that the bytes decide: 'B' before 'b'.
    assert_eq!(run(&["-f"], "banana\nBanana\n"), "Banana\nbanana\n");
}

#[test]
fn stable_preserves_input_order() {
    // Equal numbers: -s keeps the input order.
    assert_eq!(run(&["-n", "-s"], "1.0\n1.00\n1\n"), "1.0\n1.00\n1\n");
}

#[test]
fn ignore_leading_blanks() {
    assert_eq!(run(&["-b"], "  b\na\n"), "a\n  b\n");
}

#[test]
fn top_n() {
    assert_eq!(run(&["-n", "--top", "3"], "5\n3\n9\n1\n7\n"), "1\n3\n5\n");
}

#[test]
fn top_n_unique_means_n_distinct() {
    assert_eq!(run(&["--top", "2", "-u"], "c\na\na\nb\nb\n"), "a\nb\n");
}

#[test]
fn zero_terminated() {
    let (out, code) = xort(&["-z"], b"b\0a\0c\0");
    assert_eq!(code, 0);
    assert_eq!(out, b"a\0b\0c\0");
}

#[test]
fn check_sorted_exit_codes() {
    let (_, ok) = xort(&["-c"], b"a\nb\nc\n");
    assert_eq!(ok, 0);
    let (_, bad) = xort(&["-c"], b"a\nc\nb\n");
    assert_eq!(bad, 1);
}

#[test]
fn multiple_files_merge() {
    // The first input lacks a newline at its end: no lines run together.
    let out = run_files(&[], &[b"banana\napple", b"cherry\n"]);
    assert_eq!(out, "apple\nbanana\ncherry\n");
}

#[test]
fn key_field_numeric() {
    assert_eq!(run(&["-k2,2n"], "c 1\na 3\nb 2\n"), "c 1\nb 2\na 3\n");
}

#[test]
fn key_field_tab() {
    assert_eq!(
        run(&["-t:", "-k2,2n"], "c:1\na:3\nb:2\n"),
        "c:1\nb:2\na:3\n"
    );
}

#[test]
fn multi_key() {
    assert_eq!(
        run(&["-k1,1", "-k2,2n"], "a 10\nb 1\na 2\n"),
        "a 2\na 10\nb 1\n"
    );
}

#[test]
fn general_numeric() {
    assert_eq!(run(&["-g"], "1e3\n50\n2.5e1\n"), "2.5e1\n50\n1e3\n");
}

#[test]
fn human_numeric() {
    assert_eq!(run(&["-h"], "2K\n1G\n500\n3M\n"), "500\n2K\n3M\n1G\n");
}

#[test]
fn version_sort() {
    assert_eq!(run(&["-V"], "v10\nv2\nv1\n"), "v1\nv2\nv10\n");
}

#[test]
fn month_sort() {
    assert_eq!(run(&["-M"], "Mar\nJan\nFeb\n"), "Jan\nFeb\nMar\n");
}

#[test]
fn header_pins_first_line() {
    assert_eq!(
        run(&["--header"], "name\nzed\nabe\nmary\n"),
        "name\nabe\nmary\nzed\n"
    );
}

#[test]
fn merge_presorted() {
    let out = run_files(&["-m"], &[b"a\nc\ne\n", b"b\nd\nf\n"]);
    assert_eq!(out, "a\nb\nc\nd\ne\nf\n");
}

#[test]
fn external_sort_matches_inmemory() {
    let mut data = String::new();
    let mut x: u64 = 88172645463325252;
    for _ in 0..20000 {
        x ^= x << 13;
        x ^= x >> 7;
        x ^= x << 17;
        data.push_str(&(x % 100000).to_string());
        data.push('\n');
    }
    let inmem = run_files(&["-n"], &[data.as_bytes()]);
    let external = run_files(&["-n", "-S", "8K"], &[data.as_bytes()]);
    assert_eq!(inmem, external, "external sort must match in-memory output");
}

#[test]
fn human_short_help_not_consumed() {
    let (out, code) = xort(&["-h"], b"2K\n500\n");
    assert_eq!(code, 0);
    assert_eq!(out, b"500\n2K\n");
}

#[test]
fn count_like_uniq_c() {
    assert_eq!(
        run(
            &["--count"],
            "banana\napple\nbanana\ncherry\napple\nbanana\n"
        ),
        "      2 apple\n      3 banana\n      1 cherry\n"
    );
}

#[test]
fn count_with_top_keeps_first_n_groups() {
    assert_eq!(
        run(&["--count", "--top", "2"], "c\na\na\nb\nb\nb\n"),
        "      2 a\n      3 b\n"
    );
}

#[test]
fn csv_sort_by_column_name_numeric() {
    let out = run(
        &["--csv", "--header", "-k", "age", "-n"],
        "name,age\nbob,40\nalice,25\ncarol,30\n",
    );
    assert_eq!(out, "name,age\nalice,25\ncarol,30\nbob,40\n");
}

#[test]
fn csv_quoted_field_not_mangled() {
    // The quoted comma does not split the row.
    let out = run(
        &["--csv", "--header", "-k2n"],
        "name,age\n\"Smith, John\",30\nAlice,25\n",
    );
    assert_eq!(out, "name,age\nAlice,25\n\"Smith, John\",30\n");
}

#[test]
fn tsv_sort_by_column() {
    assert_eq!(
        run(&["--tsv", "-k2n"], "a\t3\nb\t1\nc\t2\n"),
        "b\t1\nc\t2\na\t3\n"
    );
}

#[test]
fn jsonl_sort_by_field_preserves_key_order() {
    let out = run(
        &["--jsonl", "-k", ".age"],
        "{\"name\":\"bob\",\"age\":40}\n{\"name\":\"alice\",\"age\":25}\n",
    );
    assert_eq!(
        out,
        "{\"name\":\"alice\",\"age\":25}\n{\"name\":\"bob\",\"age\":40}\n"
    );
}

#[test]
fn json_array_sorted_by_field() {
    let out = run(
        &["--json", "-k", "age"],
        "[{\"age\":5},{\"age\":50},{\"age\":9}]",
    );
    // Numbers, not text: 5, 9, 50.
    let parsed: serde_json::Value = serde_json::from_str(&out).unwrap();
    let ages: Vec<i64> = parsed
        .as_array()
        .unwrap()
        .iter()
        .map(|v| v["age"].as_i64().unwrap())
        .collect();
    assert_eq!(ages, vec![5, 9, 50]);
    assert_eq!(
        out,
        "[\n  {\n    \"age\": 5\n  },\n  {\n    \"age\": 9\n  },\n  {\n    \"age\": 50\n  }\n]\n"
    );
}

#[test]
fn color_never_has_no_escapes() {
    let out = run(&["--color=never"], "b\na\n");
    assert_eq!(out, "a\nb\n");
    assert!(!out.contains('\x1b'));
}

#[test]
fn color_always_highlights() {
    let out = run(&["--color=always"], "b\na\n");
    assert!(out.contains('\x1b'), "forced color must emit ANSI");
    assert_eq!(out, "\x1b[1;33ma\x1b[0m\n\x1b[1;33mb\x1b[0m\n");
}

#[test]
fn rich_check_reports_and_exits_1() {
    let (out, code) = xort(&["-c", "-k2,2n"], b"a 1\nb 5\nc 3\n");
    assert_eq!(code, 1);
    // The report goes to standard error; the output stays empty.
    assert!(out.is_empty());
    let run = job(&["-c", "-k2,2n"], &Input::Stdin(b"a 1\nb 5\nc 3\n".to_vec())).unwrap();
    assert!(run.output.is_none());
    assert!(run.outcome.stats.is_none());
    assert_eq!(
        String::from_utf8(run.report).unwrap(),
        "xort: check failed: line 3 is not in sorted order\n       2 | b 5\n       3 | c 3\n            ^^ key not in order here\n"
    );
}

#[test]
fn csv_unique_and_whole_record() {
    // Without -k whole records are compared.
    assert_eq!(run(&["--csv", "-u"], "a,1\nb,2\na,1\n"), "a,1\nb,2\n");
}

#[test]
fn csv_unknown_column_name_errors() {
    let (_, code) = xort(&["--csv", "--header", "-k", "nope"], b"name,age\nx,1\n");
    assert_eq!(code, 2, "unknown column name should exit 2");
}

#[test]
fn csv_name_without_header_errors() {
    let (_, code) = xort(&["--csv", "-k", "age"], b"name,age\nx,1\n");
    assert_eq!(code, 2);
}

#[test]
fn json_reverse_and_unique() {
    let out = run(
        &["--jsonl", "-k", ".v", "-r"],
        "{\"v\":1}\n{\"v\":3}\n{\"v\":2}\n",
    );
    assert_eq!(out, "{\"v\":3}\n{\"v\":2}\n{\"v\":1}\n");
    let uniq = run(
        &["--jsonl", "-k", ".v", "-u"],
        "{\"v\":1}\n{\"v\":1}\n{\"v\":2}\n",
    );
    assert_eq!(uniq, "{\"v\":1}\n{\"v\":2}\n");
}

#[test]
fn invalid_json_errors() {
    let (_, code) = xort(&["--json", "-k", "x"], b"{not valid json");
    assert_eq!(code, 2);
}

#[test]
fn multichar_tab_errors() {
    let (_, code) = xort(&["-t", "ab"], b"x\n");
    assert_eq!(code, 2);
}

#[test]
fn zero_terminated_with_csv_errors() {
    let (_, code) = xort(&["--csv", "-z"], b"a,b\n");
    assert_eq!(code, 2);
}

#[test]
fn output_to_file_and_stats() {
    let run = job(
        &["-n", "--stats", "-o", "xort_out.txt"],
        &Input::Stdin(b"3\n1\n2\n".to_vec()),
    )
    .unwrap();
    assert_eq!(run.outcome.exit_code, 0);
    assert_eq!(run.output.unwrap(), b"1\n2\n3\n");
    let stats = run.outcome.stats.unwrap();
    assert_eq!((stats.lines_in, stats.lines_out, stats.duplicates_removed), (3, 3, 0));
    assert_eq!(stats.chunks, None);
}

#[test]
fn merge_unique() {
    let out = run_files(&["-m", "-u"], &[b"a\nb\n", b"b\nc\n"]);
    assert_eq!(out, "a\nb\nc\n");
}

#[test]
fn count_with_header() {
    assert_eq!(
        run(&["--count", "--header"], "label\nb\na\nb\n"),
        "label\n      1 a\n      2 b\n"
    );
}

#[test]
fn external_unique_with_tempdir() {
    let mut s = String::new();
    for i in 0..5000 {
        s.push_str(&((i % 500).to_string()));
        s.push('\n');
    }
    let out = run_files(&["-n", "-u", "-S", "4K", "-T", "spill"], &[s.as_bytes()]);
    let lines: Vec<&str> = out.lines().collect();
    assert_eq!(lines.len(), 500);
    assert_eq!(lines[0], "0");
    assert_eq!(lines[499], "499");
}

#[test]
fn reverse_general_human_month_via_keys() {
    assert_eq!(run(&["-hr"], "1K\n2K\n500\n"), "2K\n1K\n500\n");
    assert_eq!(run(&["-Mr"], "Jan\nMar\nFeb\n"), "Mar\nFeb\nJan\n");
}

#[test]
fn stdin_dash_reads_stdin() {
    // A dash among the files stands for standard input, read as one of them.
    assert_eq!(run_files(&["-"], &[b"b\na\nc\n"]), "a\nb\nc\n");
}

#[test]
fn merge_from_stdin_single_source() {
    // -m without files takes standard input for one sorted input.
    assert_eq!(run(&["-m"], "a\nb\nc\n"), "a\nb\nc\n");
}

#[test]
fn external_from_stdin() {
    assert_eq!(run(&["-n", "-S", "16"], "30\n10\n20\n"), "10\n20\n30\n");
}

/// The message of a job that must fail over an argument.
fn complaint(args: &[&str], stdin: &[u8]) -> String {
    match job(args, &Input::Stdin(stdin.to_vec())) {
        Err(RunError::Invalid(m)) => m,
        _ => panic!("expected a complaint for args {args:?}"),
    }
}

#[test]
fn wrong_arguments_say_what_is_wrong() {
    assert_eq!(complaint(&["-t", "ab"], b""), "multi-character tab 'ab'");
    assert_eq!(
        complaint(&["--csv", "-z"], b""),
        "-z cannot be combined with --csv/--tsv"
    );
    assert_eq!(complaint(&["-S", "lots"], b""), "invalid buffer size 'lots'");
    assert_eq!(complaint(&["-S", " "], b""), "empty buffer size");
    assert_eq!(
        complaint(&["--json"], b"{\"a\":1}"),
        "--json input must be a JSON array"
    );
    // A bad key is reported whatever the job does with it.
    for args in [&["-k", "0"][..], &["-c", "-k", "0"], &["-m", "-k", "0"], &["--count", "-k", "0"], &["-S", "9", "-k", "0"]] {
        assert!(!complaint(args, b"a\n").is_empty());
    }
    // The buffer size is looked at before the keys, and only where it is used.
    assert_eq!(complaint(&["-S", "x", "-k", "0"], b""), "invalid buffer size 'x'");
    assert_eq!(run(&["-S", "x", "--header"], "h\nb\na\n"), "h\na\nb\n");
    assert_eq!(run(&["-S", "x", "-m"], "a\nb\n"), "a\nb\n");
    // A tab can be written out.
    assert_eq!(run(&["-t", "\\t", "-k2"], "a\tz\nb\ty\n"), "b\ty\na\tz\n");
}

#[test]
fn structured_errors_keep_their_kind() {
    let bad = job(&["--jsonl"], &Input::Stdin(b"{}\n{oops\n".to_vec()));
    assert!(matches!(bad, Err(RunError::Json(_))));
    // Records of several lengths can be read but not written.
    let ragged = job(&["--csv"], &Input::Stdin(b"a,b\nc\n".to_vec()));
    assert!(matches!(ragged, Err(RunError::Csv(_))));
    let broken = job(&[], &Input::Files(vec![b"ok\n".to_vec(), vec![0x1f, 0x8b, 8, 1, 2, 3]]));
    match broken {
        Err(RunError::Input(e)) => assert_eq!(e.index, 1),
        _ => panic!("expected an input error"),
    }
    let merged = job(&["-m"], &Input::Stdin(vec![0x28, 0xb5, 0x2f, 0xfd, 9, 9, 9]));
    match merged {
        Err(RunError::Input(e)) => assert_eq!(e.index, 0),
        _ => panic!("expected an input error"),
    }
}

#[test]
fn stats_count_lines_and_duplicates() {
    let stats = |args: &[&str], text: &str| {
        job(args, &Input::Stdin(text.as_bytes().to_vec()))
            .unwrap()
            .outcome
            .stats
            .unwrap()
    };
    let sorted = stats(&["--stats", "-u", "--top", "1"], "b\na\nb\na\nc\n");
    assert_eq!((sorted.lines_in, sorted.lines_out, sorted.duplicates_removed), (5, 1, 2));
    let counted = stats(&["--stats", "--count"], "b\na\nb\n");
    assert_eq!((counted.lines_in, counted.lines_out, counted.duplicates_removed), (3, 2, 1));
    let merged = stats(&["--stats", "-m", "-u"], "a\na\nb\n");
    assert_eq!((merged.lines_in, merged.lines_out, merged.duplicates_removed), (3, 2, 1));
    let blocks = stats(&["--stats", "-u", "-S", "1K"], "a\na\nb\n");
    assert_eq!((blocks.lines_in, blocks.lines_out, blocks.duplicates_removed), (3, 2, 1));
    assert_eq!(blocks.chunks, Some(1));
    let headed = stats(&["--stats", "--header"], "h\nb\na\n");
    assert_eq!((headed.lines_in, headed.lines_out), (2, 2));
    let rows = stats(&["--stats", "--csv", "-u"], "a,1\na,1\nb,2\n");
    assert_eq!((rows.lines_in, rows.lines_out, rows.duplicates_removed), (3, 2, 1));
}

#[test]
fn blocks_spill_when_the_input_is_large() {
    let mut text = String::new();
    for i in 0..70000 {
        text.push_str(&format!("{}\n", (i * 7919) % 70001));
    }
    let spilled = job(
        &["--stats", "-S", "8K"],
        &Input::Stdin(text.as_bytes().to_vec()),
    )
    .unwrap();
    assert!(spilled.outcome.stats.unwrap().chunks.unwrap() > 1);
    assert_eq!(spilled.output.unwrap(), run(&[], &text).into_bytes());
    let empty = job(&["--stats", "-S", "8K"], &Input::Stdin(Vec::new())).unwrap();
    assert_eq!(empty.outcome.stats.unwrap().chunks, Some(0));
    assert_eq!(empty.output.unwrap(), b"");
}

#[test]
fn sorting_twice_is_sorting_once() {
    let text = "b 2\na 10\nc\nb 2\n 7\n-1\n+5\n1.0\n1\n";
    for args in [&[][..], &["-n"], &["-nu"], &["-r"], &["-k2n"], &["-f", "--top", "3"], &["-V"]] {
        let once = run(args, text);
        assert_eq!(run(args, &once), once, "{args:?}");
        // What was sorted passes the check.
        let mut check: Vec<&str> = args.to_vec();
        check.push("-c");
        assert_eq!(xort(&check, once.as_bytes()).1, 0, "{args:?}");
    }
}

#[test]
fn a_plus_sign_starts_no_number_on_either_path() {
    // Integers only, and with a fraction that rules the radix sort out.
    assert_eq!(run(&["-n"], "3\n+5\n-1\n"), "-1\n+5\n3\n");
    assert_eq!(run(&["-n"], "3.5\n+5\n-1\n"), "-1\n+5\n3.5\n");
}

#[test]
fn merging_sorted_files_is_sorting_them() {
    let files: [&[u8]; 3] = [b"1\n3\n3\n9", b"", b"2\n3\n"];
    assert_eq!(run_files(&["-m", "-n"], &files), run_files(&["-n"], &files));
    assert_eq!(run_files(&["-mnu"], &files), "1\n2\n3\n9\n");
    // Inputs that are not sorted are interleaved as they are.
    assert_eq!(run_files(&["-m"], &[b"b\na\n", b"c\n"]), "b\na\nc\n");
}

#[test]
fn a_check_looks_at_keys_only() {
    // Lines that the keys do not tell apart are in order, unless -u is set.
    assert_eq!(xort(&["-c", "-n"], b"1 b\n1 a\n").1, 0);
    assert_eq!(xort(&["-c", "-n", "-u"], b"1 b\n1 a\n").1, 1);
    // Behind a header lines are counted from the one after it.
    let run = job(&["-c", "--header", "--color=always"], &Input::Stdin(b"z\nb\na\n".to_vec())).unwrap();
    assert_eq!(
        String::from_utf8(run.report).unwrap(),
        "xort: check failed: line 3 is not in sorted order\n       2 | b\n       3 | \x1b[1;33ma\x1b[0m\n           ^ key not in order here\n"
    );
}

#[test]
fn compressed_input_is_sorted_as_plain() {
    let text = "pear\napple\n".repeat(50);
    let packed = xort::compress::wrap_writer(text.clone().into_bytes(), xort::compress::Compression::Gzip).unwrap();
    assert_eq!(
        result(job(&[], &Input::Stdin(packed.clone()))).0,
        run(&[], &text).into_bytes()
    );
    // So it is in blocks, and a damaged input is named.
    assert_eq!(
        result(job(&["-S", "64"], &Input::Files(vec![b"zoo".to_vec(), packed.clone()]))).0,
        run(&[], &format!("zoo\n{text}")).into_bytes()
    );
    let damaged = vec![b"a\n".to_vec(), packed[..packed.len() / 2].to_vec()];
    match job(&["-S", "64"], &Input::Files(damaged)) {
        Err(RunError::Input(e)) => assert_eq!(e.index, 1),
        _ => panic!("expected an input error"),
    }
}

#[test]
fn top_header_and_count_hold_for_a_merge() {
    let files: [&[u8]; 3] = [b"", b"head\na\nb\nb\n", b"b\nc\n"];
    assert_eq!(run_files(&["-m", "--header"], &files), "head\na\nb\nb\nb\nc\n");
    assert_eq!(run_files(&["-m", "--header", "--top", "2"], &files), "head\na\nb\n");
    assert_eq!(run_files(&["-mu", "--header", "--top", "3"], &files), "head\na\nb\nc\n");
    assert_eq!(
        run_files(&["-m", "--header", "--count"], &files),
        "head\n      1 a\n      3 b\n      1 c\n"
    );
    assert_eq!(run_files(&["-m", "--header", "--count", "--top", "1"], &files), "head\n      1 a\n");
    assert_eq!(run(&["-m", "--top", "0"], "a\n"), "");
    assert_eq!(run_files(&["-m", "--header"], &[b"", b""]), "");
    // The same input, sorted in memory.
    assert_eq!(
        run_files(&["-m", "--header", "--top", "2"], &files),
        run_files(&["--header", "--top", "2"], &files)
    );
}

#[test]
fn top_writes_the_head_of_the_full_output() {
    let text = "b\na\nc\nb\n";
    for args in [&[][..], &["-u"], &["-r"], &["--count"], &["--color=always"], &["-m"], &["-m", "--count"]] {
        let full = run(args, text);
        for n in 0..6 {
            let count = n.to_string();
            let mut cut: Vec<&str> = args.to_vec();
            cut.extend(["--top", &count]);
            let expected: String = full.split_inclusive('\n').take(n).collect();
            assert_eq!(run(&cut, text), expected, "{cut:?}");
        }
    }
}

#[test]
fn lines_cut_off_are_no_duplicates() {
    let stats = |args: &[&str], text: &str| {
        let s = job(args, &Input::Stdin(text.as_bytes().to_vec())).unwrap().outcome.stats.unwrap();
        (s.lines_in, s.lines_out, s.duplicates_removed)
    };
    let values = "{\"v\":2}\n{\"v\":1}\n";
    assert_eq!(stats(&["--jsonl", "-k", ".v", "--top", "1", "--stats"], values), (2, 1, 0));
    assert_eq!(stats(&["--csv", "--top", "1", "--stats"], "b,1\na,2\na,2\n"), (3, 1, 0));
    assert_eq!(stats(&["--csv", "-u", "--top", "1", "--stats"], "b,1\na,2\na,2\n"), (3, 1, 1));
    assert_eq!(stats(&["--count", "--top", "1", "--stats"], "b\na\nb\n"), (3, 1, 1));
    assert_eq!(stats(&["-m", "-u", "--top", "1", "--stats"], "a\na\nb\n"), (3, 1, 1));
}

#[test]
fn rows_with_other_fields_are_not_identical() {
    let two = job(&["--csv", "-u", "--stats"], &Input::Stdin(b"a,bc\nab,c\n".to_vec())).unwrap();
    assert_eq!(two.output.unwrap(), b"a,bc\nab,c\n");
    let s = two.outcome.stats.unwrap();
    assert_eq!((s.lines_in, s.lines_out, s.duplicates_removed), (2, 2, 0));
    assert_eq!(run(&["--csv", "-u"], "ab,c\na,bc\nab,c\n"), "a,bc\nab,c\n");
    // With -s alone their keys tie, and the input order stays.
    assert_eq!(run(&["--csv", "-s"], "ab,c\na,bc\n"), "ab,c\na,bc\n");
    assert_eq!(run(&["--csv", "-s"], "a,bc\nab,c\n"), "a,bc\nab,c\n");
}

#[test]
fn the_first_of_equal_keys_stays() {
    assert_eq!(run(&["-u", "-k1,1"], "b 1\na 9\nb 0\na 1\n"), "a 9\nb 1\n");
    assert_eq!(run(&["-s", "-k1,1"], "b 1\na 9\nb 0\na 1\n"), "a 9\na 1\nb 1\nb 0\n");
    assert_eq!(run(&["-k1,1"], "b 1\na 9\nb 0\na 1\n"), "a 1\na 9\nb 0\nb 1\n");
}
