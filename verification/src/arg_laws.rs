//! What arguments mean: sizes, separators, flags and the names of files.

use crate::cli::{separator, Cli, ColorArg};
use crate::compress::{
    base_name, behind_last, decoded, encoded, ext_of, gunzipped, gzipped, magic_of, zstd_decoded,
    zstd_encoded, Compression,
};
use crate::config::{keys_of_specs, kind_of_flags, texts, ColorChoice, Config, Format};
use crate::input::total_size;
use crate::key::{key_of_spec, KeyDef, Kind, Sorter};
use crate::size::{
    bytes_of_units, size_of_text, trimmed, trimmed_end, unit, whitespace, whole_number,
};
use crate::spec_laws::{are_digit_letters, digit_letters_count, is_digit_letter, letters_value};
use crate::text::lemma_run_in_front;
use crate::words::{all_digit_chars, digit_char};
use vstd::arithmetic::power::pow;
use vstd::prelude::*;
use vstd::utf8::{encode_scalar, encode_utf8};

verus! {

/// White space: spaces of any width, tabs and the breaks between lines and paragraphs.
pub open spec fn is_white_letter(c: char) -> bool {
    ||| c == ' ' || c == '\t' || c == '\n' || c == '\r' || c == '\u{b}' || c == '\u{c}'
    ||| c == '\u{85}' || c == '\u{a0}' || c == '\u{1680}' || c == '\u{202f}' || c == '\u{205f}'
    ||| c == '\u{2000}' || c == '\u{2001}' || c == '\u{2002}' || c == '\u{2003}'
    ||| c == '\u{2004}' || c == '\u{2005}' || c == '\u{2006}' || c == '\u{2007}'
    ||| c == '\u{2008}' || c == '\u{2009}' || c == '\u{200a}'
    ||| c == '\u{2028}' || c == '\u{2029}' || c == '\u{3000}'
}

/// Just these characters count as white space.
pub proof fn white_space_is_known(c: char)
    ensures
        (whitespace())(c) <==> is_white_letter(c),
{
}

/// Only white space.
pub open spec fn are_white_letters(s: Seq<char>) -> bool {
    forall|i: int| 0 <= i < s.len() ==> is_white_letter(#[trigger] s[i])
}

proof fn lemma_trimmed_end(core: Seq<char>, v: Seq<char>)
    requires
        core.len() > 0 ==> !(whitespace())(core.last()),
        are_white_letters(v),
    ensures
        trimmed_end(core + v) == core,
    decreases v.len(),
{
    let s = core + v;
    if v.len() == 0 {
        assert(s =~= core);
    } else {
        assert(is_white_letter(v[v.len() - 1]));
        assert(s.last() == v.last());
        assert(s.drop_last() =~= core + v.drop_last());
        lemma_trimmed_end(core, v.drop_last());
    }
}

/// White space around text does not matter.
proof fn lemma_trimmed(w: Seq<char>, core: Seq<char>, v: Seq<char>)
    requires
        are_white_letters(w),
        are_white_letters(v),
        core.len() > 0 ==> !(whitespace())(core[0]) && !(whitespace())(core.last()),
    ensures
        trimmed(w + core + v) == core,
{
    let s = w + core + v;
    let none = Seq::<char>::empty();
    if core.len() == 0 {
        assert forall|k: int| 0 <= k < s.len() implies (whitespace())(#[trigger] s[k]) by {
            if k < w.len() {
                assert(is_white_letter(w[k]));
            } else {
                assert(is_white_letter(v[k - w.len()]));
            }
        }
        lemma_run_in_front(s, none, whitespace());
        assert(s + none =~= s);
        assert(core =~= none);
    } else {
        assert forall|k: int| 0 <= k < w.len() implies (whitespace())(#[trigger] w[k]) by {
            assert(is_white_letter(w[k]));
        }
        assert(s =~= w + (core + v));
        lemma_run_in_front(w, core + v, whitespace());
        lemma_trimmed_end(core, v);
    }
}

/// A size as it is written: white space, perhaps a plus sign, digits, perhaps white
/// space and a suffix, and white space.
pub open spec fn size_text(
    w: Seq<char>,
    plus: bool,
    digits: Seq<char>,
    suffix: Option<(Seq<char>, char)>,
    v: Seq<char>,
) -> Seq<char> {
    w + ((if plus {
        seq!['+']
    } else {
        Seq::empty()
    }) + digits + (match suffix {
        Some(u) => u.0.push(u.1),
        None => Seq::empty(),
    })) + v
}

/// The suffix for `1024^k` bytes: a letter of `bkmgtp`, in either case.
pub open spec fn is_size_suffix(c: char, k: nat) -> bool {
    k < 6 && (c == seq!['b', 'k', 'm', 'g', 't', 'p'][k as int] || c == seq![
        'B',
        'K',
        'M',
        'G',
        'T',
        'P',
    ][k as int])
}

proof fn lemma_unit(c: char, k: nat)
    requires
        is_size_suffix(c, k),
    ensures
        unit(c) == Some(pow(1024, k) as nat),
        pow(1024, k) > 0,
        !(whitespace())(c),
        !is_digit_letter(c),
{
    reveal_with_fuel(pow, 6);
    assert(k == 0 || k == 1 || k == 2 || k == 3 || k == 4 || k == 5);
}

/// A size is the number that is written times `1024^k` for its suffix: at least one
/// byte, and the largest size of 64 bits where it does not fit.
pub proof fn sizes_read_as_written(
    w: Seq<char>,
    plus: bool,
    digits: Seq<char>,
    suffix: Option<(Seq<char>, char)>,
    k: nat,
    v: Seq<char>,
)
    requires
        are_white_letters(w),
        are_white_letters(v),
        are_digit_letters(digits),
        digits.len() > 0,
        letters_value(digits) <= u64::MAX,
        suffix is None ==> k == 0,
        suffix matches Some(u) ==> are_white_letters(u.0) && is_size_suffix(u.1, k),
    ensures
        ({
            let n = letters_value(digits) * pow(1024, k);
            match size_of_text(size_text(w, plus, digits, suffix, v)) {
                Ok(size) => size == (if n > u64::MAX {
                    u64::MAX as int
                } else if n == 0 {
                    1
                } else {
                    n
                }),
                Err(_) => false,
            }
        }),
{
    let none = Seq::<char>::empty();
    let sign: Seq<char> = if plus {
        seq!['+']
    } else {
        none
    };
    let number_text = sign + digits;
    let tail = match suffix {
        Some(u) => u.0.push(u.1),
        None => none,
    };
    let core = sign + digits + tail;
    assert(is_digit_letter(digits[0]) && is_digit_letter(digits[digits.len() - 1]));
    assert(number_text.last() == digits[digits.len() - 1]);
    if let Some(u) = suffix {
        lemma_unit(u.1, k);
        assert(core.last() == u.1);
        assert(core.drop_last() =~= none + number_text + u.0);
        lemma_trimmed(none, number_text, u.0);
    } else {
        assert(core =~= number_text);
        assert(number_text =~= none + number_text + none);
        lemma_trimmed(none, number_text, none);
        reveal(pow);
    }
    lemma_trimmed(w, core, v);
    digit_letters_count(digits);
    assert(all_digit_chars(digits)) by {
        assert forall|i: int| 0 <= i < digits.len() implies (digit_char())(#[trigger] digits[i]) by {
            assert(is_digit_letter(digits[i]));
        }
    }
    if plus {
        assert(number_text.skip(1) =~= digits);
    } else {
        assert(number_text =~= digits);
    }
    let text = size_text(w, plus, digits, suffix, v);
    let (n, scale) = (letters_value(digits), pow(1024, k) as nat);
    assert(trimmed(text) == core);
    assert(whole_number(number_text) == Some(n));
    assert(unit(core.last()) == (if suffix is Some {
        Some(scale)
    } else {
        None
    }));
    assert(size_of_text(text) == Ok::<u64, Seq<char>>(bytes_of_units(n, scale)));
}

/// Nothing but white space is no size, and neither is a suffix alone or text with
/// anything but digits before the suffix.
pub proof fn bad_sizes_are_refused(w: Seq<char>, bad: Seq<char>, suffix: Option<char>, k: nat)
    requires
        are_white_letters(w),
        suffix matches Some(c) ==> is_size_suffix(c, k),
        bad.len() > 0 ==> !(whitespace())(bad[0]) && !(whitespace())(bad.last()) && bad[0] != '+',
        suffix is None && bad.len() > 0 ==> !exists|j: nat| is_size_suffix(bad.last(), j),
        !are_digit_letters(bad) || bad.len() == 0,
    ensures
        size_of_text(
            w + (match suffix {
                Some(c) => bad.push(c),
                None => bad,
            }) + w,
        ) is Err,
{
    let none = Seq::<char>::empty();
    let core = match suffix {
        Some(c) => bad.push(c),
        None => bad,
    };
    assert(bad =~= none + bad + none);
    lemma_trimmed(none, bad, none);
    if let Some(c) = suffix {
        lemma_unit(c, k);
        assert(core.drop_last() =~= bad);
    } else if bad.len() > 0 {
        let c = bad.last();
        assert(unit(c) is None) by {
            assert(!is_size_suffix(c, 0) && !is_size_suffix(c, 1) && !is_size_suffix(c, 2)
                && !is_size_suffix(c, 3) && !is_size_suffix(c, 4) && !is_size_suffix(c, 5));
        }
    }
    lemma_trimmed(w, core, w);
    if bad.len() > 0 {
        let i = choose|i: int| 0 <= i < bad.len() && !is_digit_letter(#[trigger] bad[i]);
        assert(!(digit_char())(bad[i]));
    }
}

/// A character of one byte.
pub open spec fn is_ascii_letter(c: char) -> bool {
    c <= '\u{7f}'
}

/// A separator is one ASCII character, or a tab written as `\t`; nothing else is
/// accepted.
pub proof fn separators_are_single_bytes(c: char, s: Seq<char>)
    ensures
        is_ascii_letter(c) ==> separator(seq![c]) == Ok::<u8, Seq<char>>(c as u8),
        separator(seq!['\\', 't']) == Ok::<u8, Seq<char>>(0x09),
        s.len() == 0 ==> separator(s) is Err,
        !is_ascii_letter(c) ==> separator(seq![c]) is Err,
        s.len() > 1 && s != seq!['\\', 't'] ==> separator(s) is Err,
{
    reveal_strlit("\\t");
    assert("\\t"@ =~= seq!['\\', 't']);
    let one = seq![c];
    assert(one.drop_first() =~= Seq::<char>::empty());
    reveal_with_fuel(encode_utf8, 3);
    assert(encode_utf8(one) =~= encode_scalar(c as u32));
    if is_ascii_letter(c) {
        let n = c as u32;
        assert((n & 0x7f) as u8 == n as u8) by (bit_vector)
            requires
                n < 0x80,
        ;
    } else {
        assert(encode_utf8(one).len() >= 2);
        assert(one.len() != seq!['\\', 't'].len());
    }
    if s.len() > 1 {
        lemma_bytes_of_chars(s);
    }
    lemma_bytes_of_chars(seq!['\\', 't']);
}

/// Text has at least as many bytes as characters.
proof fn lemma_bytes_of_chars(s: Seq<char>)
    ensures
        encode_utf8(s).len() >= s.len(),
    decreases s.len(),
{
    if s.len() > 0 {
        lemma_bytes_of_chars(s.drop_first());
        assert(encode_scalar(s[0] as u32).len() >= 1);
    }
}

/// `-n`, `-g`, `-h`, `-V` and `-M` in turn choose the discipline, and without any of
/// them lines are raw bytes.
pub proof fn flags_choose_the_kind(n: bool, g: bool, h: bool, v: bool, m: bool)
    ensures
        kind_of_flags(n, g, h, v, m) == Kind::Numeric <==> n,
        kind_of_flags(n, g, h, v, m) == Kind::General <==> g && !n,
        kind_of_flags(n, g, h, v, m) == Kind::Human <==> h && !n && !g,
        kind_of_flags(n, g, h, v, m) == Kind::Version <==> v && !n && !g && !h,
        kind_of_flags(n, g, h, v, m) == Kind::Month <==> m && !n && !g && !h && !v,
        kind_of_flags(n, g, h, v, m) == Kind::Bytes <==> !n && !g && !h && !v && !m,
{
}

/// The options of a job are its flags, and its lines end with NUL under `-z` and with
/// a newline otherwise.
pub proof fn options_follow_flags(cfg: Config)
    ensures
        cfg.kind() == kind_of_flags(cfg.numeric, cfg.general, cfg.human, cfg.version, cfg.month),
        cfg.global_order().kind == cfg.kind(),
        cfg.global_order().fold == cfg.fold_case,
        cfg.global_order().ignore_blanks == cfg.ignore_leading_blanks,
        cfg.global_order().reverse == cfg.reverse,
        cfg.global_opts().numeric == cfg.numeric,
        cfg.global_opts().fold == cfg.fold_case,
        cfg.global_opts().ignore_blanks == cfg.ignore_leading_blanks,
        cfg.zero_terminated ==> cfg.line_end() == 0,
        !cfg.zero_terminated ==> cfg.line_end() == 0x0a,
{
}

/// Keys stand in the order of their specifications, and there are none if one of them
/// is bad.
pub proof fn keys_stand_in_order(cfg: Config)
    requires
        cfg.keys@.len() > 0,
    ensures
        match cfg.sort_keys() {
            Ok(keys) => keys.len() == cfg.keys@.len() && forall|i: int|
                0 <= i < cfg.keys@.len() ==> key_of_spec(
                    (#[trigger] cfg.keys@[i])@,
                    cfg.global_order(),
                ) == Ok::<KeyDef, Seq<char>>(keys[i]),
            Err(e) => exists|i: int|
                0 <= i < cfg.keys@.len() && key_of_spec(
                    (#[trigger] cfg.keys@[i])@,
                    cfg.global_order(),
                ) == Err::<KeyDef, Seq<char>>(e),
        },
{
    let specs = texts(cfg.keys@);
    lemma_keys_stand_in_order(cfg, specs.len());
    assert(specs.take(specs.len() as int) =~= specs);
}

proof fn lemma_keys_stand_in_order(cfg: Config, n: nat)
    requires
        n <= cfg.keys@.len(),
    ensures
        match keys_of_specs(texts(cfg.keys@).take(n as int), cfg.global_order()) {
            Ok(keys) => keys.len() == n && forall|i: int|
                0 <= i < n ==> key_of_spec((#[trigger] cfg.keys@[i])@, cfg.global_order()) == Ok::<
                    KeyDef,
                    Seq<char>,
                >(keys[i]),
            Err(e) => exists|i: int|
                0 <= i < cfg.keys@.len() && key_of_spec(
                    (#[trigger] cfg.keys@[i])@,
                    cfg.global_order(),
                ) == Err::<KeyDef, Seq<char>>(e),
        },
    decreases n,
{
    let all = texts(cfg.keys@);
    if n > 0 {
        let m = (n - 1) as nat;
        lemma_keys_stand_in_order(cfg, m);
        let specs = all.take(n as int);
        assert(specs.drop_last() =~= all.take(m as int));
        assert(specs.last() == cfg.keys@[m as int]@);
    }
}

/// Without keys the whole line is one key: from its first character to its end, with
/// the options of the job.
pub proof fn without_keys_whole_lines(cfg: Config)
    requires
        cfg.keys@.len() == 0,
    ensures
        cfg.sort_keys() is Ok,
        cfg.sort_keys()->Ok_0.len() == 1,
        ({
            let key = cfg.sort_keys()->Ok_0[0];
            &&& key.start_field == 1
            &&& key.start_char == 1
            &&& key.end_field is None
            &&& key.end_char == 0
            &&& key.kind == cfg.kind()
            &&& key.fold == cfg.fold_case
            &&& key.skip_sblanks == cfg.ignore_leading_blanks
            &&& key.skip_eblanks == cfg.ignore_leading_blanks
            &&& key.reverse == cfg.reverse
        }),
{
}

/// Lines of a job are compared by its keys with its separator; ties are left alone
/// under `-s` and `-u`, and `-r` holds for the comparison of whole lines.
pub proof fn sorters_follow_jobs(cfg: Config, sorter: Sorter)
    requires
        cfg.is_sorter(sorter),
    ensures
        cfg.sort_keys() is Ok && cfg.sort_keys()->Ok_0 == sorter.keys@,
        sorter.tab == cfg.tab,
        sorter.global_reverse == cfg.reverse,
        sorter.suppress_last_resort <==> cfg.stable || cfg.unique,
{
}

/// Every argument reaches the job. It is refused where its separator is, and where it
/// asks for NUL and for CSV or TSV.
pub proof fn arguments_reach_the_job(cli: Cli)
    ensures
        cli.csv ==> cli.input_format() == Format::Csv,
        cli.tsv && !cli.csv ==> cli.input_format() == Format::Tsv,
        cli.json && !cli.csv && !cli.tsv ==> cli.input_format() == Format::Json,
        cli.jsonl && !cli.csv && !cli.tsv && !cli.json ==> cli.input_format() == Format::Jsonl,
        !cli.csv && !cli.tsv && !cli.json && !cli.jsonl ==> cli.input_format() == Format::Text,
        cli.job() is Err <==> (cli.field_separator is Some && separator(
            cli.field_separator->0@,
        ) is Err) || cli.zero_terminated && (cli.csv || cli.tsv),
        cli.job() matches Ok(cfg) ==> {
            &&& cfg.files == cli.files
            &&& cfg.output == cli.output
            &&& cfg.reverse == cli.reverse
            &&& cfg.numeric == cli.numeric
            &&& cfg.general == cli.general
            &&& cfg.human == cli.human
            &&& cfg.version == cli.version_sort
            &&& cfg.month == cli.month
            &&& cfg.unique == cli.unique
            &&& cfg.stable == cli.stable
            &&& cfg.fold_case == cli.fold_case
            &&& cfg.ignore_leading_blanks == cli.ignore_leading_blanks
            &&& cfg.zero_terminated == cli.zero_terminated
            &&& cfg.check == cli.check
            &&& cfg.merge == cli.merge
            &&& cfg.keys == cli.keys
            &&& cfg.buffer_size == cli.buffer_size
            &&& cfg.temp_dirs == cli.temp_dirs
            &&& cfg.top == cli.top
            &&& cfg.count == cli.count
            &&& cfg.header == cli.header
            &&& cfg.parallel == cli.parallel
            &&& cfg.stats == cli.stats
            &&& cfg.progress == cli.progress
            &&& cfg.format == cli.input_format()
            &&& cli.field_separator is None ==> cfg.tab is None
            &&& cli.field_separator is Some ==> cfg.tab is Some && separator(
                cli.field_separator->0@,
            ) == Ok::<u8, Seq<char>>(cfg.tab->0)
            &&& cli.color == ColorArg::Always <==> cfg.color == ColorChoice::Always
            &&& cli.color == ColorArg::Never <==> cfg.color == ColorChoice::Never
            &&& cli.color == ColorArg::Auto <==> cfg.color == ColorChoice::Auto
        },
{
}

/// Data in gzip format starts with 1f 8b, and data in zstd format with 28 b5 2f fd;
/// anything else is taken as it is.
pub proof fn formats_are_told_by_their_start(data: Seq<u8>)
    ensures
        magic_of(data) == Compression::Gzip <==> seq![0x1fu8, 0x8b].is_prefix_of(data),
        magic_of(data) == Compression::Zstd <==> seq![0x28u8, 0xb5, 0x2f, 0xfd].is_prefix_of(data),
        seq![0x1fu8, 0x8b].is_prefix_of(data) ==> decoded(data) == gunzipped(data),
        seq![0x28u8, 0xb5, 0x2f, 0xfd].is_prefix_of(data) ==> decoded(data) == zstd_decoded(data),
        !seq![0x1fu8, 0x8b].is_prefix_of(data) && !seq![0x28u8, 0xb5, 0x2f, 0xfd].is_prefix_of(data)
            ==> decoded(data) == Some(data),
{
    if data.len() >= 2 {
        let p = data.subrange(0, 2);
        assert(p[0] == data[0] && p[1] == data[1]);
        if magic_of(data) == Compression::Gzip {
            assert(seq![0x1fu8, 0x8b] =~= p);
        }
    }
    if data.len() >= 4 {
        let p = data.subrange(0, 4);
        assert(p[0] == data[0] && p[1] == data[1] && p[2] == data[2] && p[3] == data[3]);
        if magic_of(data) == Compression::Zstd {
            assert(seq![0x28u8, 0xb5, 0x2f, 0xfd] =~= p);
        }
    }
}

/// No character is `t`.
pub open spec fn lacks_letter(s: Seq<char>, t: char) -> bool {
    forall|i: int| 0 <= i < s.len() ==> #[trigger] s[i] != t
}

proof fn lemma_behind_letter(front: Seq<char>, part: Seq<char>, t: char, n: int)
    requires
        lacks_letter(part, t),
        0 <= n <= part.len(),
        front.len() > 0 ==> front.last() == t,
    ensures
        behind_last(front + part, front.len() + n, t) == front.len(),
    decreases n,
{
    let s = front + part;
    if n > 0 {
        assert(s[front.len() + n - 1] == part[n - 1]);
        lemma_behind_letter(front, part, t, n - 1);
    } else if front.len() > 0 {
        assert(s[front.len() - 1] == front.last());
    }
}

/// The name at the end of a path stands behind its last slash; slashes and dots that
/// name nothing may follow it.
pub proof fn paths_end_with_names(dir: Seq<char>, name: Seq<char>)
    requires
        dir.len() > 0 ==> dir.last() == '/',
        lacks_letter(name, '/'),
        name.len() > 0,
        name != seq!['.'],
    ensures
        base_name(dir + name) == name,
        base_name(dir + name + seq!['/']) == name,
        base_name(dir + name + seq!['/', '.']) == name,
{
    let path = dir + name;
    lemma_behind_letter(dir, name, '/', name.len() as int);
    assert(path.skip(dir.len() as int) =~= name);
    assert(base_name(path) == name);
    let none = Seq::<char>::empty();
    let slashed = path + seq!['/'];
    lemma_behind_letter(slashed, none, '/', 0);
    assert(slashed + none =~= slashed);
    assert(slashed.skip(slashed.len() as int) =~= none);
    assert(slashed.take(slashed.len() as int - 1) =~= path);
    let dotted = path + seq!['/', '.'];
    let dot = seq!['.'];
    lemma_behind_letter(slashed, dot, '/', 1);
    assert(slashed + dot =~= dotted);
    assert(dotted.skip(slashed.len() as int) =~= dot);
    assert(dotted.take(slashed.len() as int - 1) =~= path);
}

/// `.gz` and `.tgz` ask for gzip, `.zst` and `.zstd` for zstd, and any other ending for
/// no compression.
pub proof fn endings_choose_compression(dir: Seq<char>, stem: Seq<char>, ext: Seq<char>)
    requires
        dir.len() > 0 ==> dir.last() == '/',
        lacks_letter(stem, '/'),
        stem.len() > 0,
        lacks_letter(ext, '/'),
        lacks_letter(ext, '.'),
        stem.push('.') + ext != seq!['.', '.'],
    ensures
        ({
            let kind = ext_of(dir + (stem.push('.') + ext));
            &&& kind == Compression::Gzip <==> ext == "gz"@ || ext == "tgz"@
            &&& kind == Compression::Zstd <==> ext == "zst"@ || ext == "zstd"@
        }),
{
    reveal_strlit("gz");
    reveal_strlit("tgz");
    reveal_strlit("zst");
    reveal_strlit("zstd");
    assert("gz"@ =~= seq!['g', 'z']);
    assert("tgz"@ =~= seq!['t', 'g', 'z']);
    assert("zst"@ =~= seq!['z', 's', 't']);
    assert("zstd"@ =~= seq!['z', 's', 't', 'd']);
    let name = stem.push('.') + ext;
    assert forall|i: int| 0 <= i < name.len() implies #[trigger] name[i] != '/' by {
        if i < stem.len() {
            assert(stem[i] != '/');
        } else if i > stem.len() {
            assert(ext[i - stem.len() - 1] != '/');
        }
    }
    paths_end_with_names(dir, name);
    lemma_behind_letter(stem.push('.'), ext, '.', ext.len() as int);
    assert(name.skip(stem.len() as int + 1) =~= ext);
    let (g, t, z, d) = (seq!['g', 'z'], seq!['t', 'g', 'z'], seq!['z', 's', 't'], seq![
        'z',
        's',
        't',
        'd',
    ]);
    assert(g.len() == 2 && t.len() == 3 && z.len() == 3 && d.len() == 4 && t[0] == 't' && z[0]
        == 'z');
}

/// A name without a dot behind its first character asks for no compression.
pub proof fn names_without_endings(dir: Seq<char>, name: Seq<char>)
    requires
        dir.len() > 0 ==> dir.last() == '/',
        lacks_letter(name, '/'),
        name.len() > 1,
        lacks_letter(name.skip(1), '.'),
    ensures
        ext_of(dir + name) == Compression::Raw,
{
    paths_end_with_names(dir, name);
    if name[0] == '.' {
        let dot = seq!['.'];
        lemma_behind_letter(dot, name.skip(1), '.', name.len() - 1);
        assert(dot + name.skip(1) =~= name);
    } else {
        let none = Seq::<char>::empty();
        assert forall|i: int| 0 <= i < name.len() implies #[trigger] name[i] != '.' by {
            if i > 0 {
                assert(name.skip(1)[i - 1] != '.');
            }
        }
        lemma_behind_letter(none, name, '.', name.len() as int);
        assert(none + name =~= name);
    }
}

/// Whole lines are compared where no key is given and no discipline but `-n`.
pub proof fn whole_lines_are_compared(cfg: Config)
    ensures
        cfg.compares_whole_lines() <==> cfg.keys@.len() == 0 && (cfg.numeric || !cfg.general
            && !cfg.human && !cfg.version && !cfg.month),
{
}

/// The sizes of all inputs are added up.
pub proof fn sizes_add_up(sizes: Seq<Option<u64>>, n: u64)
    ensures
        total_size(sizes.push(Some(n))) == total_size(sizes) + n,
        total_size(Seq::empty()) == 0,
{
    assert(sizes.push(Some(n)).drop_last() =~= sizes);
}

/// Output is compressed by the compressor of its format, and raw output is not.
pub proof fn formats_have_their_compressors(data: Seq<u8>)
    ensures
        encoded(data, Compression::Raw) == Some(data),
        encoded(data, Compression::Gzip) == gzipped(data),
        encoded(data, Compression::Zstd) == zstd_encoded(data),
{
}

} // verus!
