# fries_corpus_script

The corpus side of a fuzzing tool for Rust libraries: for a library it
gathers the repositories of the crates that depend on it, finds the packages
among them that really use it, runs the analysis on them, and deduplicates
the records the analysis writes (dependency pairs, call orders, functions and
call sequences) into ranked reports.

- `src/` is the library, verified with Verus: the decisions of every step and
  the record processing, with their contracts and the laws they obey.
  - `text`: search, split, decimal numbers on character sequences.
  - `tally`: folding keyed counts into totals and ranking them.
  - `records`: the record-line formats and the deduplicated reports.
  - `paths`: the experiment directory layout.
  - `crawl`: the walk through a library's dependents and the clone commands.
  - `walk`: which cloned packages use the library.
  - `command`: the subcommands and the steps they run.
- `app/` is the command-line program around it: crates.io queries, cloning,
  reading manifests and record files, the analysis threads, and writing the
  reports.
- `tests/` runs the library on concrete inputs.
