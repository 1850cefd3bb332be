# trigrep

Indexed regex search for large codebases. This crate holds the verified core:

- **Query planning** (`src/syntax.rs`, `src/plan.rs`, `src/decompose.rs`): a
  regex pattern is parsed with `regex-syntax` into a syntax tree, and the tree
  is decomposed into a plan of trigram lookups (`And`, `Or`, `MatchAll`) that
  an index can answer. `src/soundness.rs` proves that the plan never rules out
  a line in the language of the syntax tree (a model of what the regex
  matches, stated over the tree's literals and operators; the `regex` crate's
  own matching is not part of that proof), and
  `src/folding.rs` that case-insensitive plans look up lower-case trigrams only.
- **Line search** (`src/lines.rs`, `src/search.rs`): the lines of a file, as
  `str::lines` gives them, and those a compiled `regex` matches, numbered from 1.
- **Output** (`src/output.rs`, `src/tally.rs`, `src/report.rs`,
  `src/context.rs`, `src/style.rs`, `src/text.rs`, `src/order.rs`):
  grep-style lines (with lines of context when asked for), JSON lines, file
  names once each in order of first match, or counts per file sorted by
  name; colours come from the `colored` crate. `src/json.rs` proves that
  each JSON line reads back as an object of the match's file, line number
  and content, and `src/report.rs` and `src/context.rs` that taking the
  escape sequences out of coloured output gives the uncoloured output.
- **Index status** (`src/status.rs`): how the revision an index was built at
  compares with the current one.

`app/` is the command-line program around it (argument parsing with `clap`,
walking directories, reading files, parallel search with `rayon`, printing).
The on-disk trigram index itself is a separate component that this crate does
not include, so the program scans files and reports the plan it would use.
