# tds_etl

A metadata-driven ETL engine whose core is verified with Verus. A left
model, a right model and the mapping between them are data; the library
interprets them row by row through four stages (extract, validate_left,
transform, validate_right), rejecting a failing row with its reasons while
the run goes on.

## Layout

- `src/` — the verified library
  - `value.rs` — the dynamic cell value and its text
  - `date.rs` — calendar dates (chrono parses and formats them)
  - `float.rs` — floats are carried as `f64` bit patterns; whether a
    pattern holds a whole number, and which, is computed here, and the
    rounding arithmetic is the caller's `FloatArith`
  - `text.rs` — string operations with what each computes stated
  - `record.rs` — records (`IndexMap<String, Value>`) and their contents
  - `model.rs` — models, data types, cell parsing, record validation
  - `transform.rs` — transforms and the chain interpreter
  - `mapping.rs` — field maps, static validation, per-record mapping
  - `io.rs` — endpoints, reading rows from CSV, JSON and JSON-lines text
    (the `csv` and `serde_json` crates parse it), and output cells
  - `pipeline.rs` — spec path resolution, the static check, and the row
    lifecycle with its report
- `tests/` — tests of the library
- `app/` — the `etl` command-line program: spec files, reading input files
  and writing output files, `f64` arithmetic, serde shapes of the library types
