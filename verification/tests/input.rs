//! Collecting input and splitting it into lines.

use xort::compress::{wrap_writer, Compression};
use xort::input::{
    decode_each, ensure_terminated, input_total_bytes, read_all, read_each, split_lines, Input,
};

#[test]
fn split_basic() {
    assert_eq!(
        split_lines(b"a\nb\nc\n", b'\n'),
        vec![&b"a"[..], b"b", b"c"]
    );
}

#[test]
fn split_no_trailing_newline() {
    assert_eq!(split_lines(b"a\nb", b'\n'), vec![&b"a"[..], b"b"]);
}

#[test]
fn split_empty() {
    assert!(split_lines(b"", b'\n').is_empty());
}

#[test]
fn split_blank_lines_preserved() {
    assert_eq!(split_lines(b"a\n\nb\n", b'\n'), vec![&b"a"[..], b"", b"b"]);
}

#[test]
fn read_all_with_progress_bar_reads_file() {
    let input = Input::Files(vec![b"x\ny\n".to_vec()]);
    assert_eq!(read_all(&input, b'\n').unwrap(), b"x\ny\n");
    assert_eq!(read_each(&input, b'\n').unwrap(), vec![b"x\ny\n".to_vec()]);
}

#[test]
fn corrupt_gzip_error_names_the_file() {
    let bad = b"\x1f\x8b\x08not-a-real-gzip-body".to_vec();
    let files = Input::Files(vec![b"fine\n".to_vec(), bad.clone()]);
    let err = read_all(&files, b'\n').unwrap_err();
    assert_eq!(err.index, 1, "decompression error should name the file: {err:?}");
    assert_eq!(read_each(&files, b'\n').unwrap_err().index, 1);
    assert_eq!(read_all(&Input::Stdin(bad), b'\n').unwrap_err().index, 0);
}

#[test]
fn total_bytes_stdin_and_empty_are_none() {
    assert_eq!(input_total_bytes(&vec![]), None); // standard input
    assert_eq!(input_total_bytes(&vec![None]), None); // a dash: standard input
    assert_eq!(input_total_bytes(&vec![None]), None); // a missing file
}

#[test]
fn total_bytes_sums_real_files() {
    assert_eq!(input_total_bytes(&vec![Some(6)]), Some(6));
    assert_eq!(input_total_bytes(&vec![Some(6), Some(36)]), Some(42));
    // One unknown size makes the total unknown.
    assert_eq!(input_total_bytes(&vec![Some(6), None]), None);
    assert_eq!(input_total_bytes(&vec![Some(u64::MAX), Some(1)]), None);
}

#[test]
fn inputs_never_run_together() {
    let input = Input::Files(vec![b"a".to_vec(), Vec::new(), b"b\n".to_vec(), b"c".to_vec()]);
    assert_eq!(read_all(&input, b'\n').unwrap(), b"a\nb\nc\n");
    assert_eq!(
        read_each(&input, b'\n').unwrap(),
        vec![b"a\n".to_vec(), Vec::new(), b"b\n".to_vec(), b"c\n".to_vec()]
    );
    // Standard input alone is left as it is.
    assert_eq!(read_all(&Input::Stdin(b"a".to_vec()), b'\n').unwrap(), b"a");
    assert_eq!(read_each(&Input::Stdin(b"a".to_vec()), b'\n').unwrap(), vec![b"a\n".to_vec()]);
}

#[test]
fn a_terminator_is_added_once() {
    let mut buf = b"a".to_vec();
    ensure_terminated(&mut buf, 0);
    ensure_terminated(&mut buf, 0);
    assert_eq!(buf, b"a\0");
    let mut empty: Vec<u8> = Vec::new();
    ensure_terminated(&mut empty, b'\n');
    assert!(empty.is_empty());
    // The lines are the same with it and without.
    assert_eq!(split_lines(b"a\0b", 0), split_lines(b"a\0b\0", 0));
}

#[test]
fn files_are_decompressed_by_their_content() {
    let gz = wrap_writer(b"b\na".to_vec(), Compression::Gzip).unwrap();
    let zst = wrap_writer(b"d\nc".to_vec(), Compression::Zstd).unwrap();
    let input = Input::Files(vec![gz, zst, b"e".to_vec()]);
    assert_eq!(read_all(&input, b'\n').unwrap(), b"b\na\nd\nc\ne\n");
    assert_eq!(
        decode_each(&input).unwrap(),
        vec![b"b\na".to_vec(), b"d\nc".to_vec(), b"e".to_vec()]
    );
}
