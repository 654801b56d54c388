//! Sorting lines of text, records and JSON values.
//!
//! A [`Config`] says what a job is to do; [`run`] carries it out on input in memory
//! and gives back the bytes to write. How two lines compare is in [`compare`] and
//! [`key`], how lines are sorted in [`inmemory`], [`radix`], [`merge`] and
//! [`external`], and what holds of every job in [`laws`] and [`head`].
//!
//! What the operations mean is stated on text as it is written, in the words of
//! [`plain`]: numbers in [`number_laws`] and [`double_laws`], orders in [`order_laws`]
//! and [`compare_laws`], keys in [`spec_laws`] and [`field_laws`], records and values in
//! [`csv_laws`], [`json_laws`] and [`record_laws`], arguments in [`arg_laws`], lines and
//! reports in [`text_laws`] and [`count_laws`], and whole jobs in [`merge_laws`] and
//! [`run_laws`].

pub mod agreement;
pub mod arg_laws;
pub mod bignum;
pub mod binary64;
pub mod check;
pub mod cli;
pub mod compare;
pub mod compare_laws;
pub mod compress;
pub mod config;
pub mod count_laws;
pub mod csv_format;
pub mod csv_laws;
pub mod decimal;
pub mod diag;
pub mod double_laws;
pub mod engine;
pub mod external;
pub mod field_laws;
pub mod format;
pub mod general;
pub mod head;
pub mod index;
pub mod inmemory;
pub mod input;
pub mod json_format;
pub mod json_laws;
pub mod json_number;
pub mod key;
pub mod laws;
pub mod lex;
pub mod lines;
pub mod merge;
pub mod merge_laws;
pub mod number_laws;
pub mod numeral;
pub mod numeric;
pub mod order;
pub mod order_laws;
pub mod outcome;
pub mod output;
pub mod parallel;
pub mod plain;
pub mod radix;
pub mod record_laws;
pub mod run_laws;
pub mod size;
pub mod spec_laws;
pub mod spill;
pub mod stable;
pub mod text;
pub mod text_laws;
pub mod words;

pub use config::Config;
pub use engine::{run, Outcome, Stats};
pub use outcome::{Run, RunError};
