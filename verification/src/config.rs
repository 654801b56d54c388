//! The description of a sort job.

use crate::compare::KeyOpts;
use crate::key::{
    key_of_spec, parse_key_spec, whole_line_key, GlobalOrder, KeyDef, Kind, Sorter,
};
use crate::text::NEWLINE;
use std::path::PathBuf;
use vstd::prelude::*;

verus! {

/// `std::path::PathBuf`: a path, carried to the code that opens files.
#[verifier::external_type_specification]
#[verifier::external_body]
pub struct ExPathBuf(PathBuf);

/// The format of the input.
#[derive(Clone, Copy, Debug, PartialEq, Eq, Structural)]
pub enum Format {
    /// Lines of text.
    Text,
    /// Records separated by commas.
    Csv,
    /// Records separated by tabs.
    Tsv,
    /// An array of objects.
    Json,
    /// One object on each line.
    Jsonl,
}

/// When to colorize the key.
#[derive(Clone, Copy, Debug, PartialEq, Eq, Structural)]
pub enum ColorChoice {
    /// On a terminal, unless `NO_COLOR` is set.
    Auto,
    /// Always.
    Always,
    /// Never.
    Never,
}

/// The description of a sort job.
#[derive(Clone, Debug)]
pub struct Config {
    /// The input files; none, or `-`, for standard input.
    pub files: Vec<PathBuf>,
    /// `-o`: the file to write to in place of standard output.
    pub output: Option<PathBuf>,
    /// `-r`: reverse the order.
    pub reverse: bool,
    /// `-n`: compare numbers.
    pub numeric: bool,
    /// `-g`: compare numbers with exponents.
    pub general: bool,
    /// `-h`: compare sizes.
    pub human: bool,
    /// `-V`: compare version numbers.
    pub version: bool,
    /// `-M`: compare month names.
    pub month: bool,
    /// `-u`: write only the first line of each run with equal keys.
    pub unique: bool,
    /// `-s`: keep the input order of lines with equal keys.
    pub stable: bool,
    /// `-f`: fold case.
    pub fold_case: bool,
    /// `-b`: ignore blanks at the start.
    pub ignore_leading_blanks: bool,
    /// `-z`: lines end with NUL.
    pub zero_terminated: bool,
    /// `-c`: check whether the input is sorted.
    pub check: bool,
    /// `-m`: merge sorted inputs.
    pub merge: bool,
    /// `-k`: the key specifications.
    pub keys: Vec<String>,
    /// `-t`: the field separator.
    pub tab: Option<u8>,
    /// `-S`: the size of the buffer beyond which input is spilled.
    pub buffer_size: Option<String>,
    /// `-T`: the directories for spilled input.
    pub temp_dirs: Vec<PathBuf>,
    /// `--top`: write only this many lines.
    pub top: Option<usize>,
    /// `--count`: write each group of equal lines once, with its size.
    pub count: bool,
    /// `--header`: keep the first line on top.
    pub header: bool,
    /// `--parallel`: the number of threads.
    pub parallel: Option<usize>,
    /// `--stats`: print a summary.
    pub stats: bool,
    /// `--progress`: show a progress bar.
    pub progress: bool,
    /// The format of the input.
    pub format: Format,
    /// `--color`.
    pub color: ColorChoice,
}

/// The global discipline: the first of `-n`, `-g`, `-h`, `-V` and `-M` that is set.
pub open spec fn kind_of_flags(numeric: bool, general: bool, human: bool, version: bool, month: bool) -> Kind {
    if numeric {
        Kind::Numeric
    } else if general {
        Kind::General
    } else if human {
        Kind::Human
    } else if version {
        Kind::Version
    } else if month {
        Kind::Month
    } else {
        Kind::Bytes
    }
}

/// The keys that specifications describe, or what is wrong with the first bad one.
pub open spec fn keys_of_specs(specs: Seq<Seq<char>>, global: GlobalOrder) -> Result<
    Seq<KeyDef>,
    Seq<char>,
>
    decreases specs.len(),
{
    if specs.len() == 0 {
        Ok(Seq::empty())
    } else {
        match keys_of_specs(specs.drop_last(), global) {
            Ok(keys) => match key_of_spec(specs.last(), global) {
                Ok(key) => Ok(keys.push(key)),
                Err(e) => Err(e),
            },
            Err(e) => Err(e),
        }
    }
}

/// The characters of strings.
pub open spec fn texts(v: Seq<String>) -> Seq<Seq<char>> {
    v.map_values(|s: String| s@)
}

impl Config {
    /// The byte that ends a line.
    pub open spec fn line_end(&self) -> u8 {
        if self.zero_terminated {
            0
        } else {
            NEWLINE
        }
    }

    /// How the whole line is read as a key.
    pub open spec fn global_opts(&self) -> KeyOpts {
        KeyOpts {
            numeric: self.numeric,
            fold: self.fold_case,
            ignore_blanks: self.ignore_leading_blanks,
        }
    }

    /// The global discipline.
    pub open spec fn kind(&self) -> Kind {
        kind_of_flags(self.numeric, self.general, self.human, self.version, self.month)
    }

    /// The options that keys without their own take over.
    pub open spec fn global_order(&self) -> GlobalOrder {
        GlobalOrder {
            kind: self.kind(),
            fold: self.fold_case,
            ignore_blanks: self.ignore_leading_blanks,
            reverse: self.reverse,
        }
    }

    /// Lines are compared whole, as bytes or as numbers.
    pub open spec fn compares_whole_lines(&self) -> bool {
        self.keys@.len() == 0 && (self.kind() == Kind::Bytes || self.kind() == Kind::Numeric)
    }

    /// The keys that lines are compared by: those given, or one for the whole line.
    pub open spec fn sort_keys(&self) -> Result<Seq<KeyDef>, Seq<char>> {
        if self.keys@.len() == 0 {
            Ok(seq![whole_line_key(self.global_opts(), self.kind(), self.reverse)])
        } else {
            keys_of_specs(texts(self.keys@), self.global_order())
        }
    }

    /// `sorter` compares lines as this job asks.
    pub open spec fn is_sorter(&self, sorter: Sorter) -> bool {
        &&& self.sort_keys() == Ok::<Seq<KeyDef>, Seq<char>>(sorter.keys@)
        &&& sorter.tab == self.tab
        &&& sorter.global_reverse == self.reverse
        &&& sorter.suppress_last_resort == (self.stable || self.unique)
    }

    /// The byte that ends a line: NUL with `-z`, otherwise newline.
    pub fn terminator(&self) -> (b: u8)
        ensures
            b == self.line_end(),
    {
        if self.zero_terminated {
            0
        } else {
            NEWLINE
        }
    }

    /// How the whole line is read as a key.
    pub fn key_opts(&self) -> (opts: KeyOpts)
        ensures
            opts == self.global_opts(),
    {
        KeyOpts {
            numeric: self.numeric,
            fold: self.fold_case,
            ignore_blanks: self.ignore_leading_blanks,
        }
    }

    /// The global discipline.
    pub fn global_kind(&self) -> (kind: Kind)
        ensures
            kind == self.kind(),
    {
        if self.numeric {
            Kind::Numeric
        } else if self.general {
            Kind::General
        } else if self.human {
            Kind::Human
        } else if self.version {
            Kind::Version
        } else if self.month {
            Kind::Month
        } else {
            Kind::Bytes
        }
    }

    /// Whether lines are compared whole, as bytes or as numbers.
    pub fn is_simple_global(&self) -> (r: bool)
        ensures
            r == self.compares_whole_lines(),
    {
        let kind = self.global_kind();
        self.keys.len() == 0 && (kind == Kind::Bytes || kind == Kind::Numeric)
    }

    /// The comparison that this job asks for, or what is wrong with a key.
    pub fn build_sorter(&self) -> (r: Result<Sorter, String>)
        ensures
            match r {
                Ok(sorter) => self.is_sorter(sorter) && sorter.is_valid(),
                Err(e) => self.sort_keys() == Err::<Seq<KeyDef>, Seq<char>>(e@),
            },
    {
        let kind = self.global_kind();
        let mut keys: Vec<KeyDef> = Vec::new();
        if self.keys.len() == 0 {
            keys.push(KeyDef::whole_line(&self.key_opts(), kind, self.reverse));
            assert(keys@ =~= seq![whole_line_key(self.global_opts(), self.kind(), self.reverse)]);
        } else {
            let global = GlobalOrder {
                kind,
                fold: self.fold_case,
                ignore_blanks: self.ignore_leading_blanks,
                reverse: self.reverse,
            };
            let ghost specs = texts(self.keys@);
            let mut i: usize = 0;
            assert(specs.take(0) =~= Seq::<Seq<char>>::empty());
            assert(keys@ =~= Seq::<KeyDef>::empty());
            while i < self.keys.len()
                invariant
                    i <= self.keys@.len(),
                    specs == texts(self.keys@),
                    global == self.global_order(),
                    keys_of_specs(specs.take(i as int), global) == Ok::<Seq<KeyDef>, Seq<char>>(
                        keys@,
                    ),
                    forall|j: int| 0 <= j < keys@.len() ==> (#[trigger] keys@[j]).is_valid(self.tab),
                decreases self.keys@.len() - i,
            {
                proof {
                    assert(specs.take(i + 1).drop_last() =~= specs.take(i as int));
                    assert(specs.take(i + 1).last() == self.keys@[i as int]@);
                }
                match parse_key_spec(self.keys[i].as_str(), &global) {
                    Ok(key) => {
                        keys.push(key);
                    },
                    Err(e) => {
                        proof {
                            lemma_bad_spec(specs, i + 1, global);
                        }
                        return Err(e);
                    },
                }
                i += 1;
            }
            assert(specs.take(i as int) =~= specs);
        }
        Ok(
            Sorter {
                keys,
                tab: self.tab,
                global_reverse: self.reverse,
                suppress_last_resort: self.stable || self.unique,
            },
        )
    }
}

/// A bad specification makes the whole list bad.
proof fn lemma_bad_spec(specs: Seq<Seq<char>>, i: int, global: GlobalOrder)
    requires
        0 <= i <= specs.len(),
        keys_of_specs(specs.take(i), global) is Err,
    ensures
        keys_of_specs(specs, global) == keys_of_specs(specs.take(i), global),
    decreases specs.len(),
{
    if i == specs.len() {
        assert(specs.take(i) =~= specs);
    } else {
        let rest = specs.drop_last();
        assert(rest.take(i) =~= specs.take(i));
        lemma_bad_spec(rest, i, global);
    }
}

} // verus!
