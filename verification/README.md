# sieve

A test impact analyzer: given the files a change touches, it recommends a
small, ranked set of test commands, each with the evidence behind it, and
keeps the project-level command at hand for full validation.

## Layout

- `src/` — the verified library (Verus).
  - `text.rs`, `paths.rs`: string and path operations with specifications.
  - `detect.rs`: project kinds and their suite commands.
  - `conventions.rs`: naming conventions and test-file discovery rules.
  - `imports.rs`: import extraction (regular expressions from the `regex`
    crate, behind one trusted wrapper) and import matching.
  - `history.rs`: co-change counting and ranking.
  - `diff.rs`: the order in which changed files are looked for.
  - `analyze.rs`: the evidence signals, phase by phase, and their laws.
  - `report.rs`: recommendations, coverage gaps, the text report, and their laws.
  - `cli.rs`, `error.rs`: the command line and the error codes.
- `app/` — the `sieve` program: argument parsing, file and git access, JSON
  output.
- `tests/` — tests of the library.
