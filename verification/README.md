# stackcut

A deterministic, file-scoped diff-to-stack planner, verified with Verus.

`stackcut` turns the changed files of one large change into an ordered,
acyclic stack of reviewable slices, validates plans structurally, checks
exact recomposition outcomes, and renders the plan summary and diagnostics.

## Layout

- `src/` — the verified library.
  - `model.rs`: edit units, slices, plans, configuration and overrides, with
    their mathematical views.
  - `classify.rs`, `slug.rs`: path classification, family inference, slugs.
  - `phases.rs`, `attach.rs`, `planner.rs`: the planning phases and `plan`.
  - `overrides.rs`, `graph.rs`, `validate.rs`: override rules, the dependency
    graph, structural and override validation.
  - `ingest.rs`: edit units from `git diff --name-status`, pathspecs, patch
    names and the exact-recomposition verdict.
  - `summary.rs`, `digest.rs`: the Markdown summary, diagnostic counts and
    SHA-256 fingerprints.
  - `config.rs`: `stackcut.toml` parsing and defaults.
  - `cli.rs`: exit codes, validation outcomes and readiness checks.
  - `docrefs.rs`: path references in Markdown documents.
  - `counting.rs`, `laws.rs`: the properties every plan has, proved.
  - `text.rs`, `order.rs`: strings and their ordering.
- `tests/` — tests of the library.
- `app/` — the `stackcut` command line: files, Git, JSON and TOML I/O.
