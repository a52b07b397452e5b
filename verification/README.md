# log-squeeze

Adaptive log and context compression for people and AI agents who read large
logs. Tier 1 masks the dynamic parts of each line (timestamps, addresses,
identifiers, measurements, numbers), folds consecutive repetitions into one
event with an occurrence count, keeps stack traces with the error they belong
to, and renders the result within a line budget. Tier 2 prunes stop words
from structured text. Tier 3 asks an OpenAI-compatible model for a root-cause
summary.

## Layout

- `src/` — the library, verified with Verus:
  - `text.rs`: the character model (whitespace, trimming, substring search,
    line splitting, decimal rendering);
  - `level.rs`: log levels, keyword level detection, stack-trace lines;
  - `masker.rs`: the masking rules, applied with the `regex` crate;
  - `squeeze.rs`: tier 1 — the scan, budget sampling, the summary, rendering;
  - `lingua.rs`: the built-in token pruner of tier 2;
  - `config.rs`, `ai.rs`, `cli.rs`, `pipeline.rs`: configuration defaults, the
    request and reply handling of tier 3, the command line, and the decisions
    between tiers;
  - `properties.rs`: properties that span these functions, with their proofs.
- `app/` — the program: file and network I/O, the TOML configuration file,
  JSON output, the `uv`/LLMLingua process, and the reduction percentage.
- `tests/` — tests of the library.
