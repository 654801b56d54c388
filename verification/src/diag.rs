//! What a person sees: the key highlighted in the output, and the report of a
//! failed check.

use crate::config::{ColorChoice, Config};
use crate::numeral::{align_right, digits_of, numeral, repeat, repeated, right_aligned};
use crate::text::{NEWLINE, SPACE};
use vstd::prelude::*;
use vstd::utf8::encode_utf8;

verus! {

/// A caret.
pub const CARET: u8 = 0x5e;

/// What is known of the terminal.
#[derive(Clone, Copy, Debug, PartialEq, Eq, Structural)]
pub struct Terminal {
    /// The environment holds `NO_COLOR`.
    pub no_color: bool,
    /// Standard output is a terminal.
    pub stdout: bool,
    /// Standard error is a terminal.
    pub stderr: bool,
}

/// Whether a choice asks for color.
pub open spec fn wants_color(choice: ColorChoice, no_color: bool, terminal: bool) -> bool {
    match choice {
        ColorChoice::Never => false,
        ColorChoice::Always => true,
        ColorChoice::Auto => !no_color && terminal,
    }
}

/// Whether to highlight the key on standard output: never in a file, otherwise as
/// `--color` says, which by default is on a terminal unless `NO_COLOR` is set.
pub fn color_stdout(cfg: &Config, terminal: &Terminal) -> (r: bool)
    ensures
        r == (cfg.output is None && wants_color(cfg.color, terminal.no_color, terminal.stdout)),
{
    if cfg.output.is_some() {
        return false;
    }
    match cfg.color {
        ColorChoice::Never => false,
        ColorChoice::Always => true,
        ColorChoice::Auto => !terminal.no_color && terminal.stdout,
    }
}

/// Whether to highlight the key on standard error.
pub fn color_stderr(cfg: &Config, terminal: &Terminal) -> (r: bool)
    ensures
        r == wants_color(cfg.color, terminal.no_color, terminal.stderr),
{
    match cfg.color {
        ColorChoice::Never => false,
        ColorChoice::Always => true,
        ColorChoice::Auto => !terminal.no_color && terminal.stderr,
    }
}

/// Whether to show a progress bar: where it was asked for and standard error is a
/// terminal.
pub fn progress_enabled(cfg: &Config, terminal: &Terminal) -> (r: bool)
    ensures
        r == (cfg.progress && terminal.stderr),
{
    cfg.progress && terminal.stderr
}

/// The escape sequence for bold yellow.
pub open spec fn key_on() -> Seq<u8> {
    seq![0x1bu8, 0x5b, 0x31, 0x3b, 0x33, 0x33, 0x6d]
}

/// The escape sequence that ends highlighting.
pub open spec fn key_off() -> Seq<u8> {
    seq![0x1bu8, 0x5b, 0x30, 0x6d]
}

/// `line` with the bytes from `s` to `e` highlighted.
pub open spec fn marked(line: Seq<u8>, s: int, e: int) -> Seq<u8> {
    line.take(s) + key_on() + line.subrange(s, e) + key_off() + line.skip(e)
}

/// `a`, or `limit` where that is less.
pub open spec fn at_most(a: usize, limit: nat) -> int {
    if a <= limit {
        a as int
    } else {
        limit as int
    }
}

/// `line` with a range of its bytes highlighted, and its terminator. A range
/// beyond the line is cut off.
pub open spec fn highlighted(line: Seq<u8>, range: (usize, usize), t: u8) -> Seq<u8> {
    let s = at_most(range.0, line.len());
    let e = at_most(range.1, line.len());
    marked(
        line,
        s,
        if e < s {
            s
        } else {
            e
        },
    ) + seq![t]
}

/// Appends bytes.
pub fn push_bytes(out: &mut Vec<u8>, bytes: &[u8])
    ensures
        final(out)@ == old(out)@ + bytes@,
{
    let ghost before = out@;
    out.extend_from_slice(bytes);
    assert(out@ =~= before + bytes@);
}

fn push_key_on(out: &mut Vec<u8>)
    ensures
        final(out)@ == old(out)@ + key_on(),
{
    let on: [u8; 7] = [0x1b, 0x5b, 0x31, 0x3b, 0x33, 0x33, 0x6d];
    push_bytes(out, &on);
    assert(on@ =~= key_on());
}

fn push_key_off(out: &mut Vec<u8>)
    ensures
        final(out)@ == old(out)@ + key_off(),
{
    let off: [u8; 4] = [0x1b, 0x5b, 0x30, 0x6d];
    push_bytes(out, &off);
    assert(off@ =~= key_off());
}

/// Appends a line with the bytes from `s` to `e` highlighted.
fn push_marked(out: &mut Vec<u8>, line: &[u8], s: usize, e: usize)
    requires
        s <= e <= line@.len(),
    ensures
        final(out)@ == old(out)@ + marked(line@, s as int, e as int),
{
    let ghost before = out@;
    push_bytes(out, &line[0..s]);
    push_key_on(out);
    push_bytes(out, &line[s..e]);
    push_key_off(out);
    push_bytes(out, &line[e..line.len()]);
    proof {
        assert(line@.subrange(0, s as int) =~= line@.take(s as int));
        assert(line@.subrange(e as int, line@.len() as int) =~= line@.skip(e as int));
        assert(out@ =~= before + marked(line@, s as int, e as int));
    }
}

/// Appends a line with a range of its bytes highlighted, and its terminator.
pub fn write_highlighted(out: &mut Vec<u8>, line: &[u8], range: (usize, usize), terminator: u8)
    ensures
        final(out)@ == old(out)@ + highlighted(line@, range, terminator),
{
    let ghost before = out@;
    let n: usize = line.len();
    let s: usize = if range.0 <= n {
        range.0
    } else {
        n
    };
    let e: usize = if range.1 <= n {
        range.1
    } else {
        n
    };
    let e: usize = if e < s {
        s
    } else {
        e
    };
    push_marked(out, line, s, e);
    out.push(terminator);
    assert(out@ =~= before + highlighted(line@, range, terminator));
}

/// What bytes read as, damaged characters replaced.
pub uninterp spec fn lossy_text(bytes: Seq<u8>) -> Seq<char>;

/// Calls `String::from_utf8_lossy` of std: text as it is, with damaged characters
/// replaced.
#[verifier::external_body]
pub(crate) fn text_of(bytes: &[u8]) -> (s: String)
    ensures
        s@ == lossy_text(bytes@),
        forall|c: Seq<char>| #[trigger] encode_utf8(c) == bytes@ ==> s@ == c,
{
    String::from_utf8_lossy(bytes).into_owned()
}

/// The margin in front of a quoted line: its number, right-aligned, and a bar.
pub open spec fn margin(lineno: nat) -> Seq<u8> {
    repeated(SPACE, 2) + right_aligned(numeral(lineno), 6) + encode_utf8(" | "@)
}

/// The report of a line that is out of order: the line before it, the line itself
/// and carets below the key.
pub open spec fn disorder_report(color: bool, prev: Seq<u8>, cur: Seq<u8>, lineno: nat, s: int, e: int) -> Seq<u8> {
    encode_utf8("xort: check failed: line "@) + numeral(lineno) + encode_utf8(
        " is not in sorted order\n"@,
    ) + margin((lineno - 1) as nat) + encode_utf8(lossy_text(prev)) + seq![NEWLINE] + margin(lineno)
        + (if color {
        marked(cur, s, e)
    } else {
        encode_utf8(lossy_text(cur))
    }) + seq![NEWLINE] + repeated(SPACE, margin(lineno).len()) + repeated(SPACE, s as nat) + repeated(
        CARET,
        if e - s > 1 {
            (e - s) as nat
        } else {
            1
        },
    ) + encode_utf8(" key not in order here\n"@)
}

fn push_margin(out: &mut Vec<u8>, lineno: usize) -> (n: usize)
    ensures
        final(out)@ == old(out)@ + margin(lineno as nat),
        n == margin(lineno as nat).len(),
{
    let mut m: Vec<u8> = repeat(SPACE, 2);
    let mut digits: Vec<u8> = align_right(digits_of(lineno as u64), 6);
    m.append(&mut digits);
    push_bytes(&mut m, " | ".as_bytes());
    let n: usize = m.len();
    assert(m@ =~= margin(lineno as nat));
    out.append(&mut m);
    n
}

/// The report of a line that is out of order: the line before it and the line
/// itself with their numbers, and carets below the key.
pub fn report_disorder(cfg: &Config, terminal: &Terminal, prev: &[u8], cur: &[u8], lineno: usize, key_range: (usize, usize)) -> (out: Vec<u8>)
    requires
        lineno >= 1,
        at_most(key_range.0, cur@.len()) <= at_most(key_range.1, cur@.len()),
    ensures
        out@ == disorder_report(
            wants_color(cfg.color, terminal.no_color, terminal.stderr),
            prev@,
            cur@,
            lineno as nat,
            at_most(key_range.0, cur@.len()),
            at_most(key_range.1, cur@.len()),
        ),
{
    let n: usize = cur.len();
    let s: usize = if key_range.0 <= n {
        key_range.0
    } else {
        n
    };
    let e: usize = if key_range.1 <= n {
        key_range.1
    } else {
        n
    };
    let color: bool = color_stderr(cfg, terminal);
    let mut out: Vec<u8> = Vec::new();
    push_bytes(&mut out, "xort: check failed: line ".as_bytes());
    let mut number: Vec<u8> = digits_of(lineno as u64);
    out.append(&mut number);
    push_bytes(&mut out, " is not in sorted order\n".as_bytes());
    push_margin(&mut out, lineno - 1);
    push_bytes(&mut out, text_of(prev).as_str().as_bytes());
    out.push(NEWLINE);
    let ghost head = out@;
    assert(head =~= encode_utf8("xort: check failed: line "@) + numeral(lineno as nat) + encode_utf8(
        " is not in sorted order\n"@,
    ) + margin((lineno - 1) as nat) + encode_utf8(lossy_text(prev@)) + seq![NEWLINE]);
    let width: usize = push_margin(&mut out, lineno);
    if color {
        push_marked(&mut out, cur, s, e);
    } else {
        push_bytes(&mut out, text_of(cur).as_str().as_bytes());
    }
    out.push(NEWLINE);
    let mut pad: Vec<u8> = repeat(SPACE, width);
    out.append(&mut pad);
    let mut indent: Vec<u8> = repeat(SPACE, s);
    out.append(&mut indent);
    let carets: usize = if e - s > 1 {
        e - s
    } else {
        1
    };
    let mut marks: Vec<u8> = repeat(CARET, carets);
    out.append(&mut marks);
    push_bytes(&mut out, " key not in order here\n".as_bytes());
    proof {
        let shown = if color {
            marked(cur@, s as int, e as int)
        } else {
            encode_utf8(lossy_text(cur@))
        };
        assert(out@ =~= head + margin(lineno as nat) + shown + seq![NEWLINE] + repeated(
            SPACE,
            width as nat,
        ) + repeated(SPACE, s as nat) + repeated(CARET, carets as nat) + encode_utf8(
            " key not in order here\n"@,
        ));
    }
    out
}

} // verus!
