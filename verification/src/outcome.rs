//! What comes of a sort job.

use crate::input::InputError;
use vstd::prelude::*;

verus! {

/// `csv::Error`: why records could not be read or written.
#[verifier::external_type_specification]
#[verifier::external_body]
pub struct ExCsvError(csv::Error);

/// `serde_json::Error`: why JSON could not be read or written.
#[verifier::external_type_specification]
#[verifier::external_body]
pub struct ExJsonError(serde_json::Error);

/// Counts of a job, printed with `--stats`.
#[derive(Clone, Copy, Debug, PartialEq, Eq, Structural)]
pub struct Stats {
    /// The number of lines or records read.
    pub lines_in: usize,
    /// The number of lines, records or groups written.
    pub lines_out: usize,
    /// The number of lines that `-u` or grouping removed.
    pub duplicates_removed: usize,
    /// The number of sorted runs of a sort in blocks.
    pub chunks: Option<usize>,
}

/// The exit code of a job and, with `--stats`, its counts.
#[derive(Clone, Copy, Debug, PartialEq, Eq, Structural)]
pub struct Outcome {
    /// 0 for success, 1 for lines that are not sorted.
    pub exit_code: i32,
    /// The counts.
    pub stats: Option<Stats>,
}

/// Everything that a job leaves behind.
#[derive(Debug)]
pub struct Run {
    /// The bytes of the output; `None` where nothing is to be written.
    pub output: Option<Vec<u8>>,
    /// The bytes for standard error.
    pub report: Vec<u8>,
    /// The exit code and the counts.
    pub outcome: Outcome,
}

/// Why a job failed.
#[derive(Debug)]
pub enum RunError {
    /// An argument that makes no sense.
    Invalid(String),
    /// Input that cannot be decompressed.
    Input(InputError),
    /// Records that cannot be read or written.
    Csv(csv::Error),
    /// JSON that cannot be read or written.
    Json(serde_json::Error),
    /// More input than can be counted.
    TooLarge,
}

/// The outcome of a job that succeeds.
pub open spec fn success(wanted: bool, stats: Stats) -> Outcome {
    Outcome {
        exit_code: 0,
        stats: if wanted {
            Some(stats)
        } else {
            None
        },
    }
}

/// The outcome of a job that succeeds: the counts are left out unless wanted.
pub fn succeed(wanted: bool, stats: Stats) -> (o: Outcome)
    ensures
        o == success(wanted, stats),
{
    Outcome {
        exit_code: 0,
        stats: if wanted {
            Some(stats)
        } else {
            None
        },
    }
}

/// The counts of a job that reads `lines_in` records and writes `lines_out` of the
/// `kept` ones that `-u` leaves.
pub open spec fn record_stats(lines_in: nat, lines_out: nat, kept: nat) -> Stats {
    Stats {
        lines_in: lines_in as usize,
        lines_out: lines_out as usize,
        duplicates_removed: (lines_in - kept) as usize,
        chunks: None,
    }
}

} // verus!
