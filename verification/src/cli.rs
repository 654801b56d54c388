//! Command-line arguments and the sort job that they ask for.

use crate::config::{ColorChoice, Config, Format};
use crate::text::TAB;
use crate::words::{chars_of, joined};
use std::path::PathBuf;
use vstd::prelude::*;
use vstd::utf8::encode_utf8;

verus! {

/// The value of `--color`.
#[derive(Clone, Copy, Debug, PartialEq, Eq, Structural)]
pub enum ColorArg {
    /// On a terminal, unless `NO_COLOR` is set.
    Auto,
    /// Always.
    Always,
    /// Never.
    Never,
}

/// Parsed command-line arguments.
#[derive(Debug)]
pub struct Cli {
    /// The input files; none, or `-`, for standard input.
    pub files: Vec<PathBuf>,
    /// `-r`
    pub reverse: bool,
    /// `-n`
    pub numeric: bool,
    /// `-g`
    pub general: bool,
    /// `-h`
    pub human: bool,
    /// `-V`
    pub version_sort: bool,
    /// `-M`
    pub month: bool,
    /// `-u`
    pub unique: bool,
    /// `-s`
    pub stable: bool,
    /// `-f`
    pub fold_case: bool,
    /// `-b`
    pub ignore_leading_blanks: bool,
    /// `-z`
    pub zero_terminated: bool,
    /// `-c`
    pub check: bool,
    /// `-m`
    pub merge: bool,
    /// `-k`
    pub keys: Vec<String>,
    /// `-t`
    pub field_separator: Option<String>,
    /// `-o`
    pub output: Option<PathBuf>,
    /// `-S`
    pub buffer_size: Option<String>,
    /// `-T`
    pub temp_dirs: Vec<PathBuf>,
    /// `--parallel`
    pub parallel: Option<usize>,
    /// `--top`
    pub top: Option<usize>,
    /// `--count`
    pub count: bool,
    /// `--header`
    pub header: bool,
    /// `--csv`
    pub csv: bool,
    /// `--tsv`
    pub tsv: bool,
    /// `--json`
    pub json: bool,
    /// `--jsonl`
    pub jsonl: bool,
    /// `--color`
    pub color: ColorArg,
    /// `--stats`
    pub stats: bool,
    /// `--progress`
    pub progress: bool,
}

/// The separator that the argument of `-t` stands for: a single byte, or a tab
/// written as `\t`.
pub open spec fn separator(s: Seq<char>) -> Result<u8, Seq<char>> {
    let bytes = encode_utf8(s);
    if bytes.len() == 1 {
        Ok(bytes[0])
    } else if s == "\\t"@ {
        Ok(TAB)
    } else {
        Err("multi-character tab '"@ + s + "'"@)
    }
}

fn parse_separator(s: &str) -> (r: Result<u8, String>)
    ensures
        match r {
            Ok(b) => separator(s@) == Ok::<u8, Seq<char>>(b),
            Err(e) => separator(s@) == Err::<u8, Seq<char>>(e@),
        },
{
    let bytes = s.as_bytes();
    if bytes.len() == 1 {
        return Ok(bytes[0]);
    }
    let c = chars_of(s);
    proof {
        reveal_strlit("\\t");
    }
    if c.len() == 2 && c[0] == '\\' && c[1] == 't' {
        assert(s@ =~= "\\t"@);
        return Ok(TAB);
    }
    Err(joined("multi-character tab '", s, "'"))
}

impl Cli {
    /// The format that the arguments ask for: the first of `--csv`, `--tsv`,
    /// `--json` and `--jsonl` that is set.
    pub open spec fn input_format(&self) -> Format {
        if self.csv {
            Format::Csv
        } else if self.tsv {
            Format::Tsv
        } else if self.json {
            Format::Json
        } else if self.jsonl {
            Format::Jsonl
        } else {
            Format::Text
        }
    }

    /// The separator of `-t`, if it was given.
    pub open spec fn separator_given(&self) -> Result<Option<u8>, Seq<char>> {
        match self.field_separator {
            None => Ok(None),
            Some(s) => match separator(s@) {
                Ok(b) => Ok(Some(b)),
                Err(e) => Err(e),
            },
        }
    }

    /// The sort job that the arguments ask for, or what is wrong with them.
    pub open spec fn job(&self) -> Result<Config, Seq<char>> {
        let format = self.input_format();
        match self.separator_given() {
            Err(e) => Err(e),
            Ok(tab) => if self.zero_terminated && (format == Format::Csv || format
                == Format::Tsv) {
                Err("-z cannot be combined with --csv/--tsv"@)
            } else {
                Ok(
                    Config {
                        files: self.files,
                        output: self.output,
                        reverse: self.reverse,
                        numeric: self.numeric,
                        general: self.general,
                        human: self.human,
                        version: self.version_sort,
                        month: self.month,
                        unique: self.unique,
                        stable: self.stable,
                        fold_case: self.fold_case,
                        ignore_leading_blanks: self.ignore_leading_blanks,
                        zero_terminated: self.zero_terminated,
                        check: self.check,
                        merge: self.merge,
                        keys: self.keys,
                        tab,
                        buffer_size: self.buffer_size,
                        temp_dirs: self.temp_dirs,
                        top: self.top,
                        count: self.count,
                        header: self.header,
                        parallel: self.parallel,
                        stats: self.stats,
                        progress: self.progress,
                        format,
                        color: match self.color {
                            ColorArg::Auto => ColorChoice::Auto,
                            ColorArg::Always => ColorChoice::Always,
                            ColorArg::Never => ColorChoice::Never,
                        },
                    },
                )
            },
        }
    }

    /// Checks the arguments and turns them into a sort job. The error says what
    /// is wrong: a separator of several bytes, or `-z` with `--csv` or `--tsv`.
    pub fn into_config(self) -> (r: Result<Config, String>)
        ensures
            match r {
                Ok(cfg) => self.job() == Ok::<Config, Seq<char>>(cfg),
                Err(e) => self.job() == Err::<Config, Seq<char>>(e@),
            },
    {
        let tab = match &self.field_separator {
            None => None,
            Some(s) => match parse_separator(s.as_str()) {
                Ok(b) => Some(b),
                Err(e) => {
                    return Err(e);
                },
            },
        };
        let format = if self.csv {
            Format::Csv
        } else if self.tsv {
            Format::Tsv
        } else if self.json {
            Format::Json
        } else if self.jsonl {
            Format::Jsonl
        } else {
            Format::Text
        };
        if self.zero_terminated && (format == Format::Csv || format == Format::Tsv) {
            return Err("-z cannot be combined with --csv/--tsv".to_owned());
        }
        let color = match self.color {
            ColorArg::Auto => ColorChoice::Auto,
            ColorArg::Always => ColorChoice::Always,
            ColorArg::Never => ColorChoice::Never,
        };
        Ok(
            Config {
                files: self.files,
                output: self.output,
                reverse: self.reverse,
                numeric: self.numeric,
                general: self.general,
                human: self.human,
                version: self.version_sort,
                month: self.month,
                unique: self.unique,
                stable: self.stable,
                fold_case: self.fold_case,
                ignore_leading_blanks: self.ignore_leading_blanks,
                zero_terminated: self.zero_terminated,
                check: self.check,
                merge: self.merge,
                keys: self.keys,
                tab,
                buffer_size: self.buffer_size,
                temp_dirs: self.temp_dirs,
                top: self.top,
                count: self.count,
                header: self.header,
                parallel: self.parallel,
                stats: self.stats,
                progress: self.progress,
                format,
                color,
            },
        )
    }
}

} // verus!
