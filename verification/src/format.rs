//! Sorting structured input: CSV, TSV and JSON.

use crate::config::{Config, Format};
use crate::csv_format::{is_csv_fault, is_csv_run, run_csv};
use crate::input::Input;
use crate::json_format::{is_json_fault, is_json_run, run_json};
use crate::outcome::{Run, RunError};
use crate::text::NEWLINE;
use vstd::prelude::*;

verus! {

/// `run` is what sorting `data` in its format leaves behind.
pub open spec fn is_structured_run(cfg: Config, data: Seq<u8>, run: Run) -> bool {
    match cfg.format {
        Format::Csv => is_csv_run(cfg, data, run),
        Format::Tsv => is_csv_run(cfg, data, run),
        Format::Json => is_json_run(cfg, data, false, run),
        Format::Jsonl => is_json_run(cfg, data, true, run),
        Format::Text => false,
    }
}

/// `e` is why `data` cannot be sorted in its format.
pub open spec fn is_structured_fault(cfg: Config, data: Seq<u8>, e: RunError) -> bool {
    match cfg.format {
        Format::Csv => is_csv_fault(cfg, data, e),
        Format::Tsv => is_csv_fault(cfg, data, e),
        Format::Json => is_json_fault(data, false, e),
        Format::Jsonl => is_json_fault(data, true, e),
        Format::Text => false,
    }
}

/// Sorts structured input.
pub fn run_structured(cfg: &Config, input: &Input) -> (r: Result<Run, RunError>)
    requires
        cfg.format != Format::Text,
    ensures
        match r {
            Ok(run) => input.is_readable() && is_structured_run(*cfg, input.text(NEWLINE), run),
            Err(RunError::Input(e)) => input.is_fault(e),
            Err(e) => input.is_readable() && is_structured_fault(*cfg, input.text(NEWLINE), e),
        },
{
    match cfg.format {
        Format::Json => run_json(cfg, input, false),
        Format::Jsonl => run_json(cfg, input, true),
        _ => run_csv(cfg, input),
    }
}

} // verus!
