# rsspec

A BDD-style test framework (`describe` / `it` / hooks / fixtures / focus,
pending and labels) whose core is verified with Verus.

## Layout

- `src/` — the verified library:
  - `text` — string helpers with exact contracts;
  - `filter` — path globs and the label-filter languages (legacy `,`/`+`/`!`
    and the boolean `&&`/`||`/`!`/parentheses grammar with glob atoms);
  - `tree` — the test tree (groups, specs, ordered blocks, suites);
  - `context` — the builder API that records a tree and its body table;
  - `fixtures` — the typed fixture store (per-spec values, scope layers);
  - `runner` — run results, report lines, hook chains and the attempt,
    retry and repetition logic;
  - `walk` — the walk over the tree: each spec's fate, groups and their
    `before_all`/`after_all` hooks, ordered blocks, listing;
  - `session` — whole runs (sequential or unit by unit), verdicts, summaries;
  - `config` — command-line and environment configuration;
  - `trials` — the libtest-compatible listing.
- `app/` — the unverified shell: closures that catch panics and read fixtures
  by type, async bodies on Tokio, deferred cleanups, colored output, the
  process-level `run`.
- `tests/` — the test suite.

Test bodies are closures over the fixture store that report an `Outcome`;
the runner's contracts describe every call it makes to them (in order), what
each reported, and the resulting report and counters.
