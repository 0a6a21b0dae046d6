# slicer

A log filter and analyser. Lines are matched against a regular expression;
named capture groups become fields, and the library counts how often each
value of each field occurs.

## Layout

- `src/` — the verified library (Verus):
  - `text.rs`: character sequences, string order.
  - `table.rs`: `StrMap`, a string-keyed map with distinct keys, viewed as a `Map`.
  - `models.rs`: `ParsedLine`, `Summary`, field frequencies and their merge laws.
  - `pattern.rs`: `LinePattern`, the compiled regex (through the `regex` crate) and the pairing of group names with captured text.
  - `parser.rs`: line decoding, batch matching (in parallel through `rayon`), counting, the streaming `LineProcessor` and `process_bytes`.
  - `output.rs`: thousands separators, human-readable byte sizes, bars.
  - `report.rs`: fields in name order with values ranked by count.
- `app/` — the command-line program: argument parsing (`clap`), file and stdin reading with a progress bar (`indicatif`), NDJSON output (`serde_json`), and the coloured report (`colored`).
- `tests/` — tests of the library.
