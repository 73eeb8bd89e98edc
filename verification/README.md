# gsqz

A YAML-configurable compressor for command output: the command is matched
against pipeline regexes, the first matching pipeline's steps (filter, group,
truncate, dedup) run over the output lines, and the result is kept only when
it saves at least 5% of the bytes.

The library in `src/` is written in Verus; every function carries a contract
over a mathematical model of lines (`Seq<Seq<char>>`), and the laws of the
library are public proof functions (`law_*`).

- `src/text.rs`: character-level helpers (trimming, line splitting, decimals).
- `src/pattern.rs`: the `regex` crate behind a few trusted calls whose results
  are named (`regex_compiles`, `regex_is_match`, `regex_captures`,
  `regex_replace_all`).
- `src/primitives/`: the four steps — `filter`, `group` (with `keyed` for
  grouping and ordering), `truncate`, `dedup`.
- `src/config.rs`: configuration values, the name-sorted pipeline map, the
  layer merge and the dump.
- `src/compressor.rs`: pipeline selection, step application, the line cap and
  the pass-through thresholds.
- `app/`: YAML parsing with serde, file and environment lookup for the
  configuration layers, and the floating-point savings figure.
