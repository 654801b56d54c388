//! Compressed input and output: input is recognised by its first bytes, output is
//! compressed by the extension of the file's name. gzip and Zstandard are
//! supported.

use crate::words::chars_of;
use std::io::{Read, Write};
use vstd::prelude::*;

verus! {

/// `std::io::Error`: why reading or writing failed.
#[verifier::external_type_specification]
#[verifier::external_body]
pub struct ExIoError(std::io::Error);

/// A compression format.
#[derive(Clone, Copy, Debug, PartialEq, Eq, Structural)]
pub enum Compression {
    /// Raw bytes.
    Raw,
    /// gzip (RFC 1952).
    Gzip,
    /// Zstandard.
    Zstd,
}

/// The format that data starts as.
pub open spec fn magic_of(data: Seq<u8>) -> Compression {
    if data.len() >= 2 && data[0] == 0x1f && data[1] == 0x8b {
        Compression::Gzip
    } else if data.len() >= 4 && data[0] == 0x28 && data[1] == 0xb5 && data[2] == 0x2f && data[3]
        == 0xfd {
        Compression::Zstd
    } else {
        Compression::Raw
    }
}

/// Recognises a format by the first bytes of data.
pub fn detect_magic(prefix: &[u8]) -> (kind: Compression)
    ensures
        kind == magic_of(prefix@),
{
    if prefix.len() >= 2 && prefix[0] == 0x1f && prefix[1] == 0x8b {
        Compression::Gzip
    } else if prefix.len() >= 4 && prefix[0] == 0x28 && prefix[1] == 0xb5 && prefix[2] == 0x2f
        && prefix[3] == 0xfd {
        Compression::Zstd
    } else {
        Compression::Raw
    }
}

/// Whether a part of a path between slashes names nothing: it is empty or `.`.
pub open spec fn names_nothing(part: Seq<char>) -> bool {
    part.len() == 0 || part == seq!['.']
}

/// The position behind the last `t` in the first `n` characters.
pub open spec fn behind_last(s: Seq<char>, n: int, t: char) -> int
    decreases n,
{
    if n <= 0 || s[n - 1] == t {
        n
    } else {
        behind_last(s, n - 1, t)
    }
}

/// The name at the end of a path: its last part that names something.
pub open spec fn base_name(path: Seq<char>) -> Seq<char>
    decreases path.len(),
{
    let start = behind_last(path, path.len() as int, '/');
    let part = path.skip(start);
    if !names_nothing(part) {
        part
    } else if start <= 0 {
        Seq::empty()
    } else {
        proof {
            lemma_behind_last(path, path.len() as int, '/');
        }
        base_name(path.take(start - 1))
    }
}

/// The extension of a name: what stands behind its last dot. A name without a dot
/// behind its first character has none.
pub open spec fn extension(name: Seq<char>) -> Option<Seq<char>> {
    let start = behind_last(name, name.len() as int, '.');
    if start <= 1 || name == seq!['.', '.'] {
        None
    } else {
        Some(name.skip(start))
    }
}

/// The format that a path's extension asks for.
pub open spec fn ext_of(path: Seq<char>) -> Compression {
    match extension(base_name(path)) {
        Some(ext) => if ext == seq!['g', 'z'] || ext == seq!['t', 'g', 'z'] {
            Compression::Gzip
        } else if ext == seq!['z', 's', 't'] || ext == seq!['z', 's', 't', 'd'] {
            Compression::Zstd
        } else {
            Compression::Raw
        },
        None => Compression::Raw,
    }
}

pub proof fn lemma_behind_last(s: Seq<char>, n: int, t: char)
    requires
        0 <= n <= s.len(),
    ensures
        0 <= behind_last(s, n, t) <= n,
        behind_last(s, n, t) > 0 ==> s[behind_last(s, n, t) - 1] == t,
    decreases n,
{
    if n > 0 && s[n - 1] != t {
        lemma_behind_last(s, n - 1, t);
    }
}

fn last_behind(s: &Vec<char>, n: usize, t: char) -> (r: usize)
    requires
        n <= s@.len(),
    ensures
        r == behind_last(s@, n as int, t),
        r <= n,
{
    let mut i: usize = n;
    while i > 0 && s[i - 1] != t
        invariant
            i <= n <= s@.len(),
            behind_last(s@, n as int, t) == behind_last(s@, i as int, t),
        decreases i,
    {
        i -= 1;
    }
    i
}

proof fn lemma_behind_last_of_prefix(s: Seq<char>, m: int, n: int, t: char)
    requires
        0 <= n <= m <= s.len(),
    ensures
        behind_last(s.take(m), n, t) == behind_last(s, n, t),
    decreases n,
{
    if n > 0 && s[n - 1] != t {
        lemma_behind_last_of_prefix(s, m, n - 1, t);
    }
}

/// The range of the name at the end of a path.
fn name_range(c: &Vec<char>) -> (r: (usize, usize))
    ensures
        r.0 <= r.1 <= c@.len(),
        c@.subrange(r.0 as int, r.1 as int) == base_name(c@),
{
    let mut end: usize = c.len();
    assert(c@.take(end as int) =~= c@);
    loop
        invariant
            end <= c@.len(),
            base_name(c@.take(end as int)) == base_name(c@),
        decreases end,
    {
        let start: usize = last_behind(c, end, '/');
        proof {
            let path = c@.take(end as int);
            lemma_behind_last_of_prefix(c@, end as int, end as int, '/');
            let part = path.skip(start as int);
            assert(part =~= c@.subrange(start as int, end as int));
            if start > 0 {
                assert(path.take(start - 1) =~= c@.take(start - 1));
            }
            if start < end {
                assert(part[0] == c@[start as int]);
            }
            if end - start == 1 && c@[start as int] == '.' {
                assert(part =~= seq!['.']);
            }
            assert(names_nothing(part) == (start == end || end - start == 1 && c@[start as int]
                == '.'));
        }
        let nothing: bool = start == end || (end - start == 1 && c[start] == '.');
        if !nothing {
            return (start, end);
        }
        if start == 0 {
            assert(c@.subrange(0, 0) =~= Seq::<char>::empty());
            return (0, 0);
        }
        end = start - 1;
    }
}

fn has_text(c: &Vec<char>, from: usize, to: usize, text: &Vec<char>) -> (r: bool)
    requires
        from <= to <= c@.len(),
    ensures
        r == (c@.subrange(from as int, to as int) == text@),
{
    if to - from != text.len() {
        return false;
    }
    let mut i: usize = 0;
    while i < text.len()
        invariant
            from <= to <= c@.len(),
            to - from == text@.len(),
            i <= text@.len(),
            forall|k: int| 0 <= k < i ==> c@[from + k] == #[trigger] text@[k],
        decreases text@.len() - i,
    {
        if c[from + i] != text[i] {
            proof {
                assert(c@.subrange(from as int, to as int)[i as int] != text@[i as int]);
            }
            return false;
        }
        i += 1;
    }
    assert(c@.subrange(from as int, to as int) =~= text@);
    true
}

/// The format that the extension of a path asks for.
pub fn detect_ext(path: &str) -> (kind: Compression)
    ensures
        kind == ext_of(path@),
{
    let c: Vec<char> = chars_of(path);
    let (from, to) = name_range(&c);
    let ghost name = base_name(path@);
    let start: usize = last_behind_from(&c, from, to, '.');
    proof {
        lemma_behind_last(name, name.len() as int, '.');
    }
    if start - from <= 1 {
        return Compression::Raw;
    }
    if has_text(&c, from, to, &vec!['.', '.']) {
        return Compression::Raw;
    }
    proof {
        assert(c@.subrange(start as int, to as int) =~= name.skip(start - from));
    }
    if has_text(&c, start, to, &vec!['g', 'z']) || has_text(&c, start, to, &vec!['t', 'g', 'z']) {
        Compression::Gzip
    } else if has_text(&c, start, to, &vec!['z', 's', 't']) || has_text(
        &c,
        start,
        to,
        &vec!['z', 's', 't', 'd'],
    ) {
        Compression::Zstd
    } else {
        Compression::Raw
    }
}

/// The position behind the last `t` between `from` and `to`; `from` where there is
/// none.
fn last_behind_from(c: &Vec<char>, from: usize, to: usize, t: char) -> (r: usize)
    requires
        from <= to <= c@.len(),
    ensures
        from <= r <= to,
        r - from == behind_last(c@.subrange(from as int, to as int), to - from, t),
{
    let ghost s = c@.subrange(from as int, to as int);
    let mut i: usize = to;
    while i > from && c[i - 1] != t
        invariant
            from <= i <= to <= c@.len(),
            s == c@.subrange(from as int, to as int),
            behind_last(s, to - from, t) == behind_last(s, i - from, t),
        decreases i,
    {
        assert(s[i - from - 1] == c@[i - 1]);
        i -= 1;
    }
    proof {
        if i > from {
            assert(s[i - from - 1] == c@[i - 1]);
        }
    }
    i
}

/// What gzip data decompresses to; `None` where it is damaged.
pub uninterp spec fn gunzipped(data: Seq<u8>) -> Option<Seq<u8>>;

/// What Zstandard data decompresses to; `None` where it is damaged.
pub uninterp spec fn zstd_decoded(data: Seq<u8>) -> Option<Seq<u8>>;

/// Calls flate2's `read::MultiGzDecoder`, which decodes all members of gzip data.
/// The result has a name; nothing more is claimed of it here.
#[verifier::external_body]
pub(crate) fn gunzip(data: &[u8]) -> (r: Result<Vec<u8>, std::io::Error>)
    ensures
        match r {
            Ok(v) => gunzipped(data@) == Some(v@),
            Err(_) => gunzipped(data@) is None,
        },
{
    let mut out = Vec::new();
    flate2::read::MultiGzDecoder::new(data).read_to_end(&mut out)?;
    Ok(out)
}

/// Calls zstd's `stream::read::Decoder`, which decodes all frames of Zstandard
/// data. The result has a name; nothing more is claimed of it here.
#[verifier::external_body]
pub(crate) fn decode_zstd(data: &[u8]) -> (r: Result<Vec<u8>, std::io::Error>)
    ensures
        match r {
            Ok(v) => zstd_decoded(data@) == Some(v@),
            Err(_) => zstd_decoded(data@) is None,
        },
{
    let mut out = Vec::new();
    zstd::stream::read::Decoder::new(data)?.read_to_end(&mut out)?;
    Ok(out)
}

/// What flate2 compresses data to at its default level; `None` where it fails.
pub uninterp spec fn gzipped(data: Seq<u8>) -> Option<Seq<u8>>;

/// What zstd compresses data to at its default level; `None` where it fails.
pub uninterp spec fn zstd_encoded(data: Seq<u8>) -> Option<Seq<u8>>;

/// Calls flate2's `write::GzEncoder` at the default level, into memory. The result
/// has a name; it starts with the bytes that mark gzip data and decompresses to what
/// the encoder was given.
#[verifier::external_body]
pub(crate) fn gzip(data: &[u8]) -> (r: Result<Vec<u8>, std::io::Error>)
    ensures
        match r {
            Ok(v) => gzipped(data@) == Some(v@),
            Err(_) => gzipped(data@) is None,
        },
        r matches Ok(v) ==> magic_of(v@) == Compression::Gzip && gunzipped(v@) == Some(data@),
{
    let mut w = flate2::write::GzEncoder::new(Vec::new(), flate2::Compression::default());
    w.write_all(data)?;
    w.finish()
}

/// Calls zstd's `stream::write::Encoder` at the default level, into memory. The
/// result has a name; it starts with the bytes that mark Zstandard data and
/// decompresses to what the encoder was given.
#[verifier::external_body]
pub(crate) fn encode_zstd(data: &[u8]) -> (r: Result<Vec<u8>, std::io::Error>)
    ensures
        match r {
            Ok(v) => zstd_encoded(data@) == Some(v@),
            Err(_) => zstd_encoded(data@) is None,
        },
        r matches Ok(v) ==> magic_of(v@) == Compression::Zstd && zstd_decoded(v@) == Some(data@),
{
    let mut w = zstd::stream::write::Encoder::new(Vec::new(), 0)?;
    w.write_all(data)?;
    w.finish()
}

/// What input stands for: decompressed where it starts as a known format, itself
/// where it does not; `None` where it is damaged.
pub open spec fn decoded(data: Seq<u8>) -> Option<Seq<u8>> {
    match magic_of(data) {
        Compression::Gzip => gunzipped(data),
        Compression::Zstd => zstd_decoded(data),
        Compression::Raw => Some(data),
    }
}

/// A copy of `data`.
pub fn copy_of(data: &[u8]) -> (v: Vec<u8>)
    ensures
        v@ == data@,
{
    let mut v: Vec<u8> = Vec::new();
    v.extend_from_slice(data);
    assert(v@ =~= data@);
    v
}

/// Decompresses input that starts as a known format.
pub fn maybe_decompress(data: &[u8]) -> (r: Result<Vec<u8>, std::io::Error>)
    ensures
        match r {
            Ok(v) => decoded(data@) == Some(v@),
            Err(_) => decoded(data@) is None,
        },
{
    match detect_magic(data) {
        Compression::Gzip => gunzip(data),
        Compression::Zstd => decode_zstd(data),
        Compression::Raw => Ok(copy_of(data)),
    }
}

/// `data` in the given format; `None` where it cannot be compressed.
pub open spec fn encoded(data: Seq<u8>, kind: Compression) -> Option<Seq<u8>> {
    match kind {
        Compression::Raw => Some(data),
        Compression::Gzip => gzipped(data),
        Compression::Zstd => zstd_encoded(data),
    }
}

/// `out` stands for `data` in the given format.
pub open spec fn is_encoded(data: Seq<u8>, kind: Compression, out: Seq<u8>) -> bool {
    match kind {
        Compression::Raw => out == data,
        Compression::Gzip => magic_of(out) == kind && gunzipped(out) == Some(data),
        Compression::Zstd => magic_of(out) == kind && zstd_decoded(out) == Some(data),
    }
}

/// Compresses output in the given format. Raw output does not fail.
pub fn wrap_writer(data: Vec<u8>, kind: Compression) -> (r: Result<Vec<u8>, std::io::Error>)
    ensures
        match r {
            Ok(v) => encoded(data@, kind) == Some(v@),
            Err(_) => encoded(data@, kind) is None,
        },
        r matches Ok(v) ==> is_encoded(data@, kind, v@),
{
    match kind {
        Compression::Raw => Ok(data),
        Compression::Gzip => gzip(data.as_slice()),
        Compression::Zstd => encode_zstd(data.as_slice()),
    }
}

/// Turns output into the bytes of the file `path`, compressed as its extension
/// asks.
pub fn create_output(path: &str, data: Vec<u8>) -> (r: Result<Vec<u8>, std::io::Error>)
    ensures
        match r {
            Ok(v) => encoded(data@, ext_of(path@)) == Some(v@),
            Err(_) => encoded(data@, ext_of(path@)) is None,
        },
        r matches Ok(v) ==> is_encoded(data@, ext_of(path@), v@),
{
    wrap_writer(data, detect_ext(path))
}

/// Reading compressed output gives back what was written. Raw output that happens
/// to start as a known format is the exception.
pub proof fn compression_round_trips(data: Seq<u8>, kind: Compression, out: Seq<u8>)
    requires
        is_encoded(data, kind, out),
        kind == Compression::Raw ==> magic_of(data) == Compression::Raw,
    ensures
        decoded(out) == Some(data),
{
}

} // verus!
