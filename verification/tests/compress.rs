//! Compressed input and output.

use xort::compress::{
    create_output, detect_ext, detect_magic, maybe_decompress, wrap_writer, Compression,
};

#[test]
fn magic_detection() {
    assert_eq!(detect_magic(&[0x1f, 0x8b, 0x08]), Compression::Gzip);
    assert_eq!(detect_magic(&[0x28, 0xb5, 0x2f, 0xfd]), Compression::Zstd);
    assert_eq!(detect_magic(b"hello"), Compression::Raw);
    assert_eq!(detect_magic(&[0x1f]), Compression::Raw); // too short
    assert_eq!(detect_magic(b""), Compression::Raw);
}

#[test]
fn ext_detection() {
    assert_eq!(detect_ext("a.gz"), Compression::Gzip);
    assert_eq!(detect_ext("a.tgz"), Compression::Gzip);
    assert_eq!(detect_ext("a.zst"), Compression::Zstd);
    assert_eq!(detect_ext("a.zstd"), Compression::Zstd);
    assert_eq!(detect_ext("a.txt"), Compression::Raw);
    assert_eq!(detect_ext("a"), Compression::Raw);
}

fn round_trip(kind: Compression) {
    let payload = b"banana\napple\ncherry\n".repeat(100);
    let compressed = wrap_writer(payload.clone(), kind).unwrap();
    if kind != Compression::Raw {
        assert_ne!(compressed, payload, "expected compressed bytes to differ");
    }
    assert_eq!(detect_magic(&compressed), kind);
    assert_eq!(maybe_decompress(&compressed).unwrap(), payload);
}

#[test]
fn gzip_round_trip() {
    round_trip(Compression::Gzip);
}

#[test]
fn zstd_round_trip() {
    round_trip(Compression::Zstd);
}

#[test]
fn plain_passthrough() {
    round_trip(Compression::Raw);
}

fn create_output_round_trip(ext: &str) {
    let payload = b"one\ntwo\nthree\n";
    let compressed = create_output(&format!("dir.d/out{ext}"), payload.to_vec()).unwrap();
    assert_ne!(compressed, payload, "create_output should compress .{ext}");
    assert_eq!(maybe_decompress(&compressed).unwrap(), payload);
}

#[test]
fn create_output_compresses_by_extension() {
    create_output_round_trip(".gz");
    create_output_round_trip(".zst");
}

#[test]
fn extensions_are_those_of_the_last_component() {
    assert_eq!(detect_ext("a.gz/b"), Compression::Raw);
    assert_eq!(detect_ext("/tmp/x.tar.gz"), Compression::Gzip);
    assert_eq!(detect_ext(".gz"), Compression::Raw);
    assert_eq!(detect_ext("a.GZ"), Compression::Raw);
    assert_eq!(create_output("plain.txt", b"x\n".to_vec()).unwrap(), b"x\n");
}

#[test]
fn damaged_input_is_an_error() {
    assert!(maybe_decompress(b"\x1f\x8b\x08not-a-real-gzip-body").is_err());
    assert!(maybe_decompress(&[0x28, 0xb5, 0x2f, 0xfd, 0, 0]).is_err());
    // Members of a gzip file are read one behind the other.
    let mut two = wrap_writer(b"a\n".to_vec(), Compression::Gzip).unwrap();
    two.extend(wrap_writer(b"b\n".to_vec(), Compression::Gzip).unwrap());
    assert_eq!(maybe_decompress(&two).unwrap(), b"a\nb\n");
}
