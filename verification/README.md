# rtk: output filters for bun, dart and flutter

A verified library that turns the raw output of `bun`, `dart` and `flutter`
commands into compact summaries: progress noise and passing lines are dropped,
errors, warnings and summary lines are kept.

- `src/` is the library, verified with Verus. Each filter's contract states its
  result exactly, over a model of the text (`text.rs`: lines, ANSI removal,
  trimming, joining), line selection (`select.rs`), stable ordering by key
  (`sort.rs`) and counting of repeats (`tally.rs`). `bun.rs`, `dart.rs` and
  `flutter.rs` hold the filters and the command plans; `plan.rs` describes a
  planned command and applies a filter to its output. Regular expressions are
  matched by the `regex` crate (`pattern.rs`).
- `app/` runs the planned commands: it spawns the process, captures or streams
  its output, and prints the library's summary.
- `tests/` exercises the library on concrete outputs.
