//! The steps of sorting in blocks, and the paths of a sort in memory.

use xort::config::{ColorChoice, Config, Format};
use xort::engine::{order_lines, plan, Plan};
use xort::external::{distinct_lines, run_external, sorted_lines};
use xort::inmemory::{byte_order, general_order, single_key_order};
use xort::merge::merge_sorted;
use xort::spill::{block_use, BlockReader, BlockStep, BlockUse, Merger, MultiInput, Poll};

fn cfg() -> Config {
    Config {
        files: Vec::new(),
        output: None,
        reverse: false,
        numeric: false,
        general: false,
        human: false,
        version: false,
        month: false,
        unique: false,
        stable: false,
        fold_case: false,
        ignore_leading_blanks: false,
        zero_terminated: false,
        check: false,
        merge: false,
        keys: Vec::new(),
        tab: None,
        buffer_size: None,
        temp_dirs: Vec::new(),
        top: None,
        count: false,
        header: false,
        parallel: None,
        stats: false,
        progress: false,
        format: Format::Text,
        color: ColorChoice::Never,
    }
}

fn lines(s: &[&'static str]) -> Vec<&'static [u8]> {
    s.iter().map(|x| x.as_bytes()).collect()
}

/// Reads all inputs as one stream, `step` bytes at a time.
fn stream(files: &[&[u8]], step: usize) -> Vec<u8> {
    let mut multi = MultiInput::new(files.len(), b'\n');
    let mut at = vec![0; files.len()];
    let mut out = Vec::new();
    loop {
        match multi.poll() {
            Poll::Separator(b) => out.push(b),
            Poll::End => return out,
            Poll::Read(i) => {
                let to = (at[i] + step).min(files[i].len());
                let data = &files[i][at[i]..to];
                at[i] = to;
                multi.on_read(data);
                out.extend_from_slice(data);
            }
        }
    }
}

#[test]
fn a_separator_stands_between_inputs_that_need_one() {
    for step in [1, 2, 100] {
        assert_eq!(stream(&[b"a\nb", b"c\n", b"", b"d"], step), b"a\nb\nc\nd");
        assert_eq!(stream(&[b"a", b"", b"b"], step), b"a\nb");
        assert_eq!(stream(&[b"only"], step), b"only");
        assert_eq!(stream(&[], step), b"");
    }
}

#[test]
fn blocks_hold_whole_lines() {
    let mut r = BlockReader::new(4, b'\n');
    r.start();
    assert_eq!(r.step(), BlockStep::Read);
    r.feed(b"ab\n");
    assert_eq!(r.step(), BlockStep::Read);
    r.feed(b"cd\nef");
    assert_eq!(r.step(), BlockStep::Ready);
    assert_eq!((r.block.as_slice(), r.carry.as_slice()), (&b"ab\ncd\n"[..], &b"ef"[..]));
    r.start();
    assert_eq!(r.block, b"ef");
    // A line beyond the budget is read to its end.
    r.feed(b"ghij");
    assert_eq!(r.step(), BlockStep::Read);
    r.feed(b"kl\nm");
    assert_eq!(r.step(), BlockStep::Ready);
    assert_eq!((r.block.as_slice(), r.carry.as_slice()), (&b"efghijkl\n"[..], &b"m"[..]));
}

#[test]
fn a_lone_block_is_written_at_once() {
    assert_eq!(block_use(0, true, 0), BlockUse::Merge);
    assert_eq!(block_use(0, true, 3), BlockUse::Merge);
    assert_eq!(block_use(9, true, 0), BlockUse::Write);
    assert_eq!(block_use(9, false, 0), BlockUse::Spill);
    assert_eq!(block_use(9, true, 1), BlockUse::Spill);
}

fn merge(runs: &[&[&str]], unique: bool) -> Vec<String> {
    let sorter = Config { numeric: true, unique, ..cfg() }.build_sorter().unwrap();
    let mut runs: Vec<Vec<Vec<u8>>> = runs
        .iter()
        .map(|r| r.iter().rev().map(|l| l.as_bytes().to_vec()).collect())
        .collect();
    let heads = runs.iter_mut().map(|r| r.pop()).collect();
    let mut merger = Merger { heads, last: None, unique };
    let mut out = Vec::new();
    while let Some(i) = merger.least(&sorter) {
        let next = runs[i].pop();
        if let Some(line) = merger.accept(i, next, &sorter) {
            out.push(String::from_utf8(line).unwrap());
        }
    }
    out
}

#[test]
fn runs_are_merged_line_by_line() {
    assert_eq!(merge(&[&["1", "4"], &["2", "3", "9"], &[]], false), ["1", "2", "3", "4", "9"]);
    // Of lines with equal keys the one of the first run stays.
    assert_eq!(merge(&[&["1.0", "4"], &["1", "04"]], true), ["1.0", "4"]);
    assert!(merge(&[], true).is_empty());
}

#[test]
fn one_block_or_many_give_the_same() {
    let mut text = Vec::new();
    for i in 0..90000 {
        text.extend_from_slice(format!("{} {}\n", (i * 31) % 997, i % 7).as_bytes());
    }
    let files = vec![text, b"5 x".to_vec(), b"5 a\n".to_vec()];
    let c = Config { keys: vec!["1,1n".to_string()], ..cfg() };
    let sorter = c.build_sorter().unwrap();
    let one = run_external(&c, &sorter, 1 << 30, b'\n', &files);
    let many = run_external(&c, &sorter, 1000, b'\n', &files);
    assert_eq!((one.chunks, one.lines_in, one.lines_out), (1, 90002, 90002));
    assert!(many.chunks > 1);
    assert_eq!((many.lines_in, many.lines_out), (90002, 90002));
    assert!(one.output == many.output);
    let unique = Config { unique: true, ..c };
    let sorter = unique.build_sorter().unwrap();
    let kept = run_external(&unique, &sorter, 1000, b'\n', &files);
    assert_eq!(kept.lines_out, 997);
    assert!(kept.output.starts_with(b"0 0\n1 "));
}

#[test]
fn a_block_is_sorted_by_the_plan() {
    let c = Config { fold_case: true, unique: true, ..cfg() };
    let sorter = c.build_sorter().unwrap();
    let block = b"b\nA\na\nB\n".to_vec();
    let sorted = sorted_lines(&block, &c, &sorter, b'\n');
    assert_eq!(sorted, lines(&["A", "a", "b", "B"]));
    assert_eq!(distinct_lines(sorted, &sorter), lines(&["A", "b"]));
}

#[test]
fn jobs_are_planned_by_their_flags() {
    assert_eq!(plan(&cfg()), Ok(Plan::Memory));
    let sized = Config { buffer_size: Some("2K".to_string()), ..cfg() };
    assert_eq!(plan(&sized), Ok(Plan::Blocks(2048)));
    assert_eq!(plan(&Config { header: true, ..sized.clone() }), Ok(Plan::Memory));
    assert_eq!(plan(&Config { count: true, ..sized.clone() }), Ok(Plan::Memory));
    assert_eq!(plan(&Config { check: true, ..sized.clone() }), Ok(Plan::Memory));
    assert_eq!(plan(&Config { top: Some(1), ..sized.clone() }), Ok(Plan::Memory));
    assert_eq!(plan(&Config { merge: true, ..sized.clone() }), Ok(Plan::Merge));
    assert_eq!(plan(&Config { format: Format::Json, ..sized.clone() }), Ok(Plan::Structured));
    let bad = Config { buffer_size: Some("2X".to_string()), ..cfg() };
    assert_eq!(plan(&bad), Err("invalid buffer size '2X'".to_string()));
}

#[test]
fn top_selects_before_it_sorts() {
    let many: Vec<String> = (0..1000).map(|i| format!("{:04}", (i * 617) % 1000)).collect();
    let all: Vec<&[u8]> = many.iter().map(|l| l.as_bytes()).collect();
    let c = Config { top: Some(3), ..cfg() };
    let (out, removed) = byte_order(all.clone(), &c, &c.key_opts());
    assert_eq!((out, removed), (lines(&["0000", "0001", "0002"]), 0));
    let none = Config { top: Some(0), ..cfg() };
    assert!(byte_order(all.clone(), &none, &none.key_opts()).0.is_empty());
    let reverse = Config { top: Some(2), reverse: true, ..cfg() };
    assert_eq!(byte_order(all, &reverse, &reverse.key_opts()).0, lines(&["0999", "0998"]));
}

#[test]
fn keys_are_read_once_and_compared_often() {
    let input = ["x 1K", "y 900", "z 1e2", "w"];
    let c = Config { keys: vec!["2h".to_string()], ..cfg() };
    let sorter = c.build_sorter().unwrap();
    let expected = lines(&["w", "z 1e2", "y 900", "x 1K"]);
    assert_eq!(single_key_order(lines(&input), &c, &sorter).0, expected);
    assert_eq!(general_order(lines(&input), &c, &sorter).0, expected);
    assert_eq!(order_lines(lines(&input), &c, &sorter).0, expected);
    let two = Config { keys: vec!["1,1r".to_string(), "2g".to_string()], top: Some(2), ..cfg() };
    let sorter = two.build_sorter().unwrap();
    assert_eq!(
        general_order(lines(&["a 2", "b 10", "b 9", "a 1"]), &two, &sorter).0,
        lines(&["b 9", "b 10"])
    );
}

#[test]
fn a_merge_takes_ties_from_the_first_input() {
    let c = Config { stable: true, numeric: true, ..cfg() };
    let sorter = c.build_sorter().unwrap();
    let files = vec![lines(&["1 a", "2 a"]), lines(&["1 b", "3 b"]), Vec::new()];
    let (out, removed) = merge_sorted(files, &c, &sorter);
    assert_eq!((out, removed), (lines(&["1 a", "1 b", "2 a", "3 b"]), 0));
}
