# xort

A `sort` that is verified: lines of text, CSV and TSV records and JSON values, sorted
by whole lines, by fields or by columns, with the flags of the Unix command and a few
more (`--top`, `--count`, `--header`, `--csv`, `--json`, `--color`, `--stats`).

## Layout

- `src/` is the library. Everything in it is proved with Verus: `compare`, `key` and
  `config` say how two lines compare; `inmemory`, `radix`, `merge`, `spill` and
  `external` put lines in order; `csv_format` and `json_format` sort records and
  values; `check`, `output` and `diag` report and write; `engine` runs a job.
  `order` and `stable` define what a sorted sequence is, and `laws` and `head` state
  what holds of every job.
- `app/` is the command: arguments, files, temporary files and the progress bar.
- `tests/` runs the library on concrete input.

## What is proved

A job's output is the stable sort of its lines under a total order that is spelled
out down to the bytes, whichever path computes it. In particular

- the radix sort for integers writes what comparing numbers writes,
- sorting in blocks writes what sorting in memory writes,
- merging sorted inputs writes what sorting them writes,
- `--top` writes the head of the full output, and `-u` the first line of each key,
- sorted output passes `-c`.

JSON numbers are compared by value, integers and doubles alike.

Double precision values (`-g`, `-h`) are computed in integer arithmetic as the value
nearest to the decimal number, ties to even.

## What is trusted

The calls into outside crates and into std, each with a contract of its own: sorting
and mapping with `rayon`, selection and range sorting of std's slices, byte search
with `memchr`, compression with `flate2` and `zstd`, records with `csv`, values with
`serde_json`, and `String::from_utf8_lossy`.
