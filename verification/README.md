# pglog

Top slow queries from a Postgres log written with `log_min_duration_statement`
enabled: the log is parsed into its `duration:` entries, each statement is
reduced to a fingerprint (literals become `?`, lists of literals become
`(?)`, whitespace is normalized), and the entries are grouped by
fingerprint.

## Layout

- `src/text.rs`: character classes (`\s`, `\d`, `\w`) and conversions
  between strings and character vectors.
- `src/fingerprint.rs`: `flatten` and `normalize`, each pass specified as a
  spec function and implemented by a verified scanner.
- `src/fingerprint_laws.rs`, `src/literal_laws.rs`: proofs that a
  fingerprint is one normalized line, that it ignores whitespace, and that
  replacing a string literal, a number or a parenthesised list of numbers
  (of any length, spaced or not) by another of its kind leaves it
  unchanged.
- `src/quote_laws.rs`: a fingerprint holds no string literal.
- `src/idempotence_laws.rs`: a fingerprint is its own fingerprint.
- `src/parser.rs`: physical lines, re-assembly of multi-line messages, the
  line prefix and the `duration:` message format; `split_records` and
  `parse`.
- `src/parser_laws.rs`: a log cut at the start of a message parses
  piecewise.
- `src/aggregate.rs`: grouping entries by fingerprint, sorted by
  fingerprint, with the first occurrence as the example.
- `app/main.rs`: the command line; it reads the file, converts the
  duration texts to `f64`, rolls up total/mean/min/max per group, sorts and
  prints.
