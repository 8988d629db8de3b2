# schemasniff

Schema inference for CSV, JSON and NDJSON text: column names, inferred
types, null counts, exact numeric ranges and a cardinality sketch, computed
without keeping any cell value.

The library under `src/` is written in Verus and proved against its
contracts:

- `text` — characters, trimming, `str::lines`-style line splitting.
- `number` — exact decimals (`Decimal`): the grammar of `f64::from_str`,
  the exact point at which a number rounds to infinity, and the order of
  values.
- `cell` — the type of one cell: integer, float, boolean, date, string.
- `hll` — the HyperLogLog sketch (FNV-1a with a MurmurHash3 finalizer).
- `stats` — the per-column accumulator and what it has seen.
- `csv_parser` — records from the `csv` crate, streamed into the columns.
- `json_parser` — rows from `serde_json`, walked level by level.
- `security` — input validation and output checks.

`app/` holds what stays outside the proofs: the WASM entry points, the
serialisable copies of the types, and the floating-point finish (an `f64`
for each exact bound, the cardinality estimate from the sketch).
