# forge_coverage

Source coverage for Solidity projects, verified with Verus.

- `src/` is the library: probes and the rewriting of sources, hit maps and their collection, the items of
  a project and how hits are resolved to them, and the reports (summary, LCOV, Istanbul, attribution per
  test, annotated listings). Every function states what it computes, and Verus checks it.
- `tests/` runs the library on concrete values.
- `app/` is the program around it: the command line, reading and writing files, the compiler and the test
  runner.

Where to start: `instrumented.rs` and `item_hits.rs` for how probes become items and hits, `collector.rs`
and `instrumentation.rs` for how sources are rewritten, `report.rs` for the data that the reports read.

With probes, a source that holds the comment `// forge coverage ignore file` is left out, and so is a function
right behind the comment `// istanbul ignore next`.
